//! Subpackage entries of the app manifest, and the merge of async subpackages
//! into the distributable manifest.

use vstd::prelude::*;

verus! {

/// One entry of a manifest's `subPackages`.
pub struct SubpackageEntry {
    pub root: String,
    /// `None` when `pages` is absent or null.
    pub pages: Option<Vec<String>>,
}

pub struct SubpackageView {
    pub root: Seq<char>,
    pub pages: Option<Seq<String>>,
}

impl View for SubpackageEntry {
    type V = SubpackageView;

    open spec fn view(&self) -> SubpackageView {
        SubpackageView {
            root: self.root@,
            pages: match self.pages {
                Some(p) => Some(p@),
                None => None,
            },
        }
    }
}

/// An async subpackage: its page list was emptied upstream.
pub open spec fn is_async_entry(e: SubpackageView) -> bool {
    match e.pages {
        Some(p) => p.len() == 0,
        None => true,
    }
}

pub open spec fn entry_views(s: Seq<SubpackageEntry>) -> Seq<SubpackageView> {
    s.map_values(|e: SubpackageEntry| e@)
}

pub open spec fn string_views(s: Seq<String>) -> Seq<Seq<char>> {
    s.map_values(|r: String| r@)
}

/// The async entries of `s`, in their order.
pub open spec fn async_entries(s: Seq<SubpackageView>) -> Seq<SubpackageView>
    decreases s.len(),
{
    if s.len() == 0 {
        Seq::empty()
    } else if is_async_entry(s.last()) {
        async_entries(s.drop_last()).push(s.last())
    } else {
        async_entries(s.drop_last())
    }
}

/// The roots of the entries, in their order.
pub open spec fn roots_of(s: Seq<SubpackageView>) -> Seq<Seq<char>> {
    s.map_values(|e: SubpackageView| e.root)
}

fn copy_strings(v: &Vec<String>) -> (r: Vec<String>)
    ensures
        r@ == v@,
{
    let mut r: Vec<String> = Vec::new();
    let mut i: usize = 0;
    while i < v.len()
        invariant
            i <= v.len(),
            r@ == v@.subrange(0, i as int),
        decreases v.len() - i,
    {
        r.push(v[i].clone());
        i = i + 1;
        assert(r@ =~= v@.subrange(0, i as int));
    }
    assert(r@ =~= v@);
    r
}

impl SubpackageEntry {
    /// A copy of the entry.
    pub fn copy(&self) -> (r: SubpackageEntry)
        ensures
            r@ == self@,
    {
        let pages = match &self.pages {
            Some(p) => Some(copy_strings(p)),
            None => None,
        };
        SubpackageEntry { root: self.root.clone(), pages }
    }

    /// Whether the entry is an async subpackage.
    pub fn is_async(&self) -> (r: bool)
        ensures
            r == is_async_entry(self@),
    {
        match &self.pages {
            Some(p) => p.len() == 0,
            None => true,
        }
    }
}

/// Appends the async entries of the source manifest's `subPackages` to the
/// distributable manifest's `subPackages`, after the entries it has and in
/// source order, and returns their roots in that order.
pub fn rewrite_dist_app_json(
    source: &Vec<SubpackageEntry>,
    dist: &mut Vec<SubpackageEntry>,
) -> (roots: Vec<String>)
    ensures
        entry_views(final(dist)@) == entry_views(old(dist)@) + async_entries(entry_views(source@)),
        string_views(roots@) == roots_of(async_entries(entry_views(source@))),
{
    let ghost d0 = entry_views(dist@);
    let mut roots: Vec<String> = Vec::new();
    let mut i: usize = 0;
    assert(entry_views(source@).subrange(0, 0) =~= Seq::<SubpackageView>::empty());
    assert(d0 + Seq::<SubpackageView>::empty() =~= d0);
    assert(string_views(roots@) =~= Seq::<Seq<char>>::empty());
    while i < source.len()
        invariant
            i <= source.len(),
            entry_views(dist@) == d0 + async_entries(entry_views(source@).subrange(0, i as int)),
            string_views(roots@) == roots_of(
                async_entries(entry_views(source@).subrange(0, i as int)),
            ),
        decreases source.len() - i,
    {
        let ghost pre = entry_views(source@).subrange(0, i as int);
        let ghost next = entry_views(source@).subrange(0, i + 1);
        assert(next.drop_last() =~= pre);
        assert(next.last() == source@[i as int]@);
        if source[i].is_async() {
            let ghost dv = dist@;
            let ghost rv = roots@;
            let e = source[i].copy();
            let root = source[i].root.clone();
            dist.push(e);
            roots.push(root);
            assert(entry_views(dist@) =~= entry_views(dv).push(e@));
            assert(string_views(roots@) =~= string_views(rv).push(root@));
            assert(roots_of(async_entries(next)) =~= roots_of(async_entries(pre)).push(
                source@[i as int]@.root,
            ));
        }
        i = i + 1;
    }
    assert(entry_views(source@).subrange(0, source.len() as int) =~= entry_views(source@));
    roots
}

} // verus!
