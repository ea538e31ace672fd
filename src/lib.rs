//! Redirects component references that point into lazily loaded subpackages
//! of a mini-program bundle to a neutral placeholder component, and merges
//! those subpackages back into the distributable app manifest.

pub mod comments;
pub mod descriptor;
pub mod emitter;
pub mod manifest;
pub mod matcher;
pub mod traversal;
