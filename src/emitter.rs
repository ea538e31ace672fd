//! The three files of the placeholder component.

use vstd::prelude::*;

verus! {

/// Script of the placeholder: registers a component that does nothing.
pub open spec fn wrapper_script() -> Seq<char> {
    "Component({})"@
}

/// Template of the placeholder: one hidden root element.
pub open spec fn wrapper_template() -> Seq<char> {
    "<view style=\"display:none;\" class=\"_div\"></view>"@
}

/// Descriptor of the placeholder: a component without children.
pub open spec fn wrapper_descriptor() -> Seq<char> {
    "{ \"usingComponents\": {}, \"component\": true }"@
}

/// The files of the placeholder component under the directory `path`, as
/// `(file path, content)` pairs: script, template, descriptor.
pub fn inject_empty_wrapper(path: &str) -> (files: Vec<(String, String)>)
    ensures
        files@.len() == 3,
        files@[0].0@ == path@ + "/FuEmptyWrapper.js"@,
        files@[0].1@ == wrapper_script(),
        files@[1].0@ == path@ + "/FuEmptyWrapper.wxml"@,
        files@[1].1@ == wrapper_template(),
        files@[2].0@ == path@ + "/FuEmptyWrapper.json"@,
        files@[2].1@ == wrapper_descriptor(),
{
    let base = path.to_owned();
    let script = base.clone().concat("/FuEmptyWrapper.js");
    let template = base.clone().concat("/FuEmptyWrapper.wxml");
    let descriptor = base.concat("/FuEmptyWrapper.json");
    let mut files: Vec<(String, String)> = Vec::new();
    files.push((script, String::from_str("Component({})")));
    files.push(
        (template, String::from_str("<view style=\"display:none;\" class=\"_div\"></view>")),
    );
    files.push((descriptor, String::from_str("{ \"usingComponents\": {}, \"component\": true }")));
    files
}

} // verus!
