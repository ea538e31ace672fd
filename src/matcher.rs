//! Literal-fragment matchers for async subpackage roots and ignore keywords.

use vstd::prelude::*;

verus! {

/// `needle` occurs in `hay` at position `k`.
pub open spec fn occurs_at(hay: Seq<char>, needle: Seq<char>, k: int) -> bool {
    0 <= k && k + needle.len() <= hay.len() && hay.subrange(k, k + needle.len()) == needle
}

/// `needle` occurs somewhere in `hay`.
pub open spec fn contains_seq(hay: Seq<char>, needle: Seq<char>) -> bool {
    exists|k: int| occurs_at(hay, needle, k)
}

/// Some fragment of `fragments` occurs in `path`.
pub open spec fn matches_any_spec(path: Seq<char>, fragments: Seq<String>) -> bool {
    exists|i: int| 0 <= i < fragments.len() && contains_seq(path, #[trigger] fragments[i]@)
}

/// The characters of `s`, one by one.
pub fn chars_of(s: &str) -> (r: Vec<char>)
    ensures
        r@ == s@,
{
    let mut r: Vec<char> = Vec::new();
    for c in it: s.chars()
        invariant
            r@ == it.seq().subrange(0, it.index() as int),
    {
        r.push(c);
    }
    r
}

fn occurs_at_exec(hay: &Vec<char>, needle: &Vec<char>, k: usize) -> (r: bool)
    requires
        k + needle.len() <= hay.len(),
    ensures
        r == occurs_at(hay@, needle@, k as int),
{
    let mut j: usize = 0;
    while j < needle.len()
        invariant
            k + needle.len() <= hay.len(),
            j <= needle.len(),
            forall|m: int| 0 <= m < j ==> hay@[k + m] == needle@[m],
        decreases needle.len() - j,
    {
        if hay[k + j] != needle[j] {
            assert(hay@.subrange(k as int, k + needle.len())[j as int] != needle@[j as int]);
            return false;
        }
        j = j + 1;
    }
    assert(hay@.subrange(k as int, k + needle.len()) =~= needle@);
    true
}

/// Whether `needle` occurs in `hay`.
pub fn contains_chars(hay: &Vec<char>, needle: &Vec<char>) -> (r: bool)
    ensures
        r == contains_seq(hay@, needle@),
{
    if needle.len() > hay.len() {
        return false;
    }
    if needle.len() == 0 {
        assert(hay@.subrange(0, 0) =~= needle@);
        assert(occurs_at(hay@, needle@, 0));
        return true;
    }
    let last: usize = hay.len() - needle.len();
    let mut k: usize = 0;
    while k <= last
        invariant
            last == hay.len() - needle.len(),
            0 < needle.len() <= hay.len(),
            forall|m: int| 0 <= m < k ==> !occurs_at(hay@, needle@, m),
        decreases last + 1 - k,
    {
        if occurs_at_exec(hay, needle, k) {
            return true;
        }
        k = k + 1;
    }
    proof { true_if_none(hay@, needle@); }
    false
}

proof fn true_if_none(hay: Seq<char>, needle: Seq<char>)
    requires
        needle.len() <= hay.len(),
        forall|m: int| 0 <= m <= hay.len() - needle.len() ==> !occurs_at(hay, needle, m),
    ensures
        !contains_seq(hay, needle),
{
}

/// Whether any of `fragments` occurs in `path`: the test that decides both
/// whether a reference points into an async root and whether a path is ignored.
/// An empty fragment list matches nothing.
pub fn matches_any(path: &str, fragments: &Vec<String>) -> (r: bool)
    ensures
        r == matches_any_spec(path@, fragments@),
{
    let hay = chars_of(path);
    let mut i: usize = 0;
    while i < fragments.len()
        invariant
            hay@ == path@,
            i <= fragments.len(),
            forall|m: int| 0 <= m < i ==> !contains_seq(path@, #[trigger] fragments@[m]@),
        decreases fragments.len() - i,
    {
        let needle = chars_of(fragments[i].as_str());
        if contains_chars(&hay, &needle) {
            return true;
        }
        i = i + 1;
    }
    false
}

} // verus!
