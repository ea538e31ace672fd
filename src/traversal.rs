//! Decisions of the breadth-first walk over the distributable component tree,
//! and the selection of changed descriptors for an incremental run. The caller
//! lists directories, probes entries, and loads and stores descriptors.

use vstd::prelude::*;
use std::collections::VecDeque;
use crate::matcher::{chars_of, matches_any, matches_any_spec};
use crate::manifest::string_views;

verus! {

/// The path of entry `name` in directory `dir`.
pub open spec fn joined(dir: Seq<char>, name: Seq<char>) -> Seq<char> {
    dir + "/"@ + name
}

pub open spec fn ends_with(s: Seq<char>, suffix: Seq<char>) -> bool {
    s.len() >= suffix.len() && s.subrange(s.len() - suffix.len(), s.len() as int) == suffix
}

/// A directory entry with this name is a component descriptor.
pub open spec fn is_descriptor_name(name: Seq<char>) -> bool {
    ends_with(name, ".json"@)
}

/// The path of entry `name` in directory `dir`.
pub fn join_path(dir: &str, name: &str) -> (r: String)
    ensures
        r@ == joined(dir@, name@),
{
    dir.to_owned().concat("/").concat(name)
}

/// Whether `name` ends in the descriptor extension.
pub fn has_descriptor_extension(name: &str) -> (r: bool)
    ensures
        r == is_descriptor_name(name@),
{
    let s = chars_of(name);
    let ext = chars_of(".json");
    if s.len() < ext.len() {
        return false;
    }
    let off: usize = s.len() - ext.len();
    let mut k: usize = 0;
    while k < ext.len()
        invariant
            s@ == name@,
            ext@ == ".json"@,
            off + ext.len() == s.len(),
            k <= ext.len(),
            forall|m: int| 0 <= m < k ==> s@[off + m] == ext@[m],
        decreases ext.len() - k,
    {
        if s[off + k] != ext[k] {
            assert(s@.subrange(off as int, s.len() as int)[k as int] != ext@[k as int]);
            return false;
        }
        k = k + 1;
    }
    assert(s@.subrange(off as int, s.len() as int) =~= ext@);
    true
}

/// What to do with one entry of a listed directory.
pub enum EntryAction {
    /// The entry is a descriptor at this path: inject placeholders into it.
    Inject(String),
    /// Any other entry at this path: if it is a directory, push it.
    Probe(String),
}

/// The action for entry `name` of directory `dir`.
pub fn entry_action(dir: &str, name: &str) -> (a: EntryAction)
    ensures
        match a {
            EntryAction::Inject(p) => is_descriptor_name(name@) && p@ == joined(dir@, name@),
            EntryAction::Probe(p) => !is_descriptor_name(name@) && p@ == joined(dir@, name@),
        },
{
    let path = join_path(dir, name);
    if has_descriptor_extension(name) {
        EntryAction::Inject(path)
    } else {
        EntryAction::Probe(path)
    }
}

/// The changed files that an incremental run works on, in their order: each
/// one whose relative path holds no ignore keyword, with its path under `dist`
/// and, unchanged, what came with it (for instance a descriptor that the
/// caller loaded already).
pub open spec fn kept_files<T>(
    dist: Seq<char>,
    files: Seq<(String, T)>,
    ignore: Seq<String>,
) -> Seq<(Seq<char>, T)>
    decreases files.len(),
{
    if files.len() == 0 {
        Seq::empty()
    } else {
        let f = files.last();
        let rest = kept_files(dist, files.drop_last(), ignore);
        if matches_any_spec(f.0@, ignore) {
            rest
        } else {
            rest.push((joined(dist, f.0@), f.1))
        }
    }
}

pub open spec fn target_views<T>(t: Seq<(String, T)>) -> Seq<(Seq<char>, T)> {
    t.map_values(|x: (String, T)| (x.0@, x.1))
}

/// Selects the changed files of an incremental run: those whose relative path
/// holds no ignore keyword, each with its full path under `dist_path` and the
/// value that came with it, handed back as it was.
pub fn traverse_some_components_json<T>(
    dist_path: &str,
    files: Vec<(String, T)>,
    ignore_keywords: &Vec<String>,
) -> (targets: Vec<(String, T)>)
    ensures
        target_views(targets@) == kept_files(dist_path@, files@, ignore_keywords@),
{
    let ghost all = files@;
    let mut rest = files;
    let mut targets: Vec<(String, T)> = Vec::new();
    assert(all.subrange(0, 0) =~= Seq::<(String, T)>::empty());
    assert(target_views(targets@) =~= Seq::<(Seq<char>, T)>::empty());
    while rest.len() > 0
        invariant
            rest.len() <= all.len(),
            rest@ == all.subrange(all.len() - rest.len(), all.len() as int),
            target_views(targets@) == kept_files(
                dist_path@,
                all.subrange(0, all.len() - rest.len()),
                ignore_keywords@,
            ),
        decreases rest.len(),
    {
        let ghost done = all.len() - rest.len();
        let ghost pre = all.subrange(0, done);
        let ghost next = all.subrange(0, done + 1);
        assert(next.drop_last() =~= pre);
        assert(next.last() == rest@[0]);
        let ghost tv = targets@;
        let (rel, item) = rest.remove(0);
        if !matches_any(rel.as_str(), ignore_keywords) {
            let path = join_path(dist_path, rel.as_str());
            let ghost it = item;
            targets.push((path, item));
            assert(target_views(targets@) =~= target_views(tv).push((joined(dist_path@, rel@), it)));
        }
        assert(rest@ =~= all.subrange(all.len() - rest.len(), all.len() as int));
    }
    assert(all.subrange(0, all.len() as int) =~= all);
    targets
}

/// The directories that the walk has yet to visit, first in, first out, so
/// that a level is done before the next one begins.
pub struct Traversal {
    queue: VecDeque<String>,
}

impl View for Traversal {
    type V = Seq<Seq<char>>;

    closed spec fn view(&self) -> Seq<Seq<char>> {
        string_views(self.queue@)
    }
}

impl Traversal {
    /// A walk that starts at `root`.
    pub fn new(root: &str) -> (t: Traversal)
        ensures
            t@ == seq![root@],
    {
        let mut queue: VecDeque<String> = VecDeque::new();
        queue.push_back(root.to_owned());
        let t = Traversal { queue };
        assert(t@ =~= seq![root@]);
        t
    }

    /// No directory is left to visit.
    pub fn is_done(&self) -> (r: bool)
        ensures
            r == (self@.len() == 0),
    {
        self.queue.len() == 0
    }

    /// Adds a directory found in the current level to the end of the queue.
    pub fn push_directory(&mut self, path: String)
        ensures
            final(self)@ == old(self)@.push(path@),
    {
        let ghost q = self.queue@;
        self.queue.push_back(path);
        assert(self@ =~= string_views(q).push(path@));
    }

    /// Takes the next directory to list. Directories whose path contains an
    /// ignore keyword are dropped on the way and never listed, so nothing
    /// below them is reached.
    pub fn next_directory(&mut self, ignore_keywords: &Vec<String>) -> (r: Option<String>)
        ensures
            match r {
                Some(d) => exists|j: int|
                    0 <= j < old(self)@.len() && #[trigger] old(self)@[j] == d@
                        && !matches_any_spec(d@, ignore_keywords@) && (forall|m: int|
                        0 <= m < j ==> matches_any_spec(#[trigger] old(self)@[m], ignore_keywords@))
                        && final(self)@ == old(self)@.subrange(j + 1, old(self)@.len() as int),
                None => (forall|m: int|
                    0 <= m < old(self)@.len() ==> matches_any_spec(
                        #[trigger] old(self)@[m],
                        ignore_keywords@,
                    )) && final(self)@.len() == 0,
            },
    {
        let ghost q0 = self@;
        let ghost mut j: int = 0;
        loop
            invariant
                0 <= j <= q0.len(),
                q0 == old(self)@,
                self@ == q0.subrange(j, q0.len() as int),
                forall|m: int| 0 <= m < j ==> matches_any_spec(#[trigger] q0[m], ignore_keywords@),
            decreases q0.len() - j,
        {
            let ghost before = self.queue@;
            assert(string_views(before).len() == before.len());
            assert(before.len() == q0.len() - j);
            match self.queue.pop_front() {
                None => {
                    return None;
                },
                Some(d) => {
                    proof {
                        assert(self@ =~= string_views(before).subrange(1, before.len() as int));
                        assert(string_views(before)[0] == q0.subrange(j, q0.len() as int)[0]);
                        assert(q0[j] == d@);
                    }
                    if !matches_any(d.as_str(), ignore_keywords) {
                        assert(self@ =~= q0.subrange(j + 1, q0.len() as int));
                        assert(old(self)@[j] == d@);
                        return Some(d);
                    }
                    proof {
                        j = j + 1;
                        assert(self@ =~= q0.subrange(j, q0.len() as int));
                    }
                },
            }
        }
    }
}

} // verus!
