//! Removal of comments from manifest and descriptor text before it is parsed.

use vstd::prelude::*;
use crate::matcher::chars_of;

verus! {

/// Where the first `*/` at or after `j` starts, or the length of the text
/// when there is none.
pub open spec fn close_from(s: Seq<char>, j: int) -> int
    decreases s.len() - j,
{
    if j + 1 >= s.len() {
        s.len() as int
    } else if s[j] == '*' && s[j + 1] == '/' {
        j
    } else {
        close_from(s, j + 1)
    }
}

/// The text from position `i` on with its block comments removed. A block
/// comment is the leftmost `/*` together with the first `*/` after it; a `/*`
/// that no `*/` follows is kept as it stands.
pub open spec fn without_blocks(s: Seq<char>, i: int) -> Seq<char>
    decreases s.len() - i,
{
    if i >= s.len() {
        Seq::empty()
    } else {
        let c = close_from(s, i + 2);
        if i + 1 < s.len() && s[i] == '/' && s[i + 1] == '*' && i + 2 <= c < s.len() - 1 {
            without_blocks(s, c + 2)
        } else {
            seq![s[i]] + without_blocks(s, i + 1)
        }
    }
}

proof fn lemma_close_bounds(s: Seq<char>, j: int)
    requires
        0 <= j,
    ensures
        j <= close_from(s, j) <= s.len() || (j > s.len() && close_from(s, j) == s.len()),
        close_from(s, j) < s.len() ==> close_from(s, j) + 1 < s.len() && s[close_from(s, j)] == '*'
            && s[close_from(s, j) + 1] == '/',
    decreases s.len() - j,
{
    if j + 1 < s.len() && !(s[j] == '*' && s[j + 1] == '/') {
        lemma_close_bounds(s, j + 1);
    }
}

proof fn lemma_no_close_later(s: Seq<char>, j: int, k: int)
    requires
        0 <= j <= k,
        close_from(s, j) == s.len(),
    ensures
        close_from(s, k) == s.len(),
    decreases k - j,
{
    if j < k && j + 1 < s.len() {
        lemma_no_close_later(s, j + 1, k);
    }
}

/// With no `*/` at or after `j`, nothing from `j - 2` on is removed.
proof fn lemma_rest_kept(s: Seq<char>, j: int, k: int)
    requires
        2 <= j <= k + 2,
        0 <= k <= s.len(),
        close_from(s, j) == s.len(),
    ensures
        without_blocks(s, k) == s.subrange(k, s.len() as int),
    decreases s.len() - k,
{
    if k < s.len() {
        lemma_no_close_later(s, j, k + 2);
        lemma_rest_kept(s, j, k + 1);
        assert(seq![s[k]] + s.subrange(k + 1, s.len() as int) =~= s.subrange(k, s.len() as int));
    } else {
        assert(s.subrange(k, s.len() as int) =~= Seq::<char>::empty());
    }
}

/// A white-space character other than the line end `'\n'` (the Unicode
/// White_Space property).
pub open spec fn is_blank(c: char) -> bool {
    c == '\t' || c == '\x0B' || c == '\x0C' || c == '\r' || c == ' ' || c == '\u{85}' || c
        == '\u{A0}' || c == '\u{1680}' || ('\u{2000}' <= c && c <= '\u{200A}') || c == '\u{2028}'
        || c == '\u{2029}' || c == '\u{202F}' || c == '\u{205F}' || c == '\u{3000}'
}

/// Only blanks stand before position `k` of the line, and `//` at it.
pub open spec fn comment_starts_at(l: Seq<char>, k: int) -> bool {
    0 <= k && k + 1 < l.len() && l[k] == '/' && l[k + 1] == '/' && (forall|m: int|
        0 <= m < k ==> is_blank(#[trigger] l[m]))
}

/// The first characters of the line other than blanks are `//`.
pub open spec fn is_comment_line(l: Seq<char>) -> bool {
    exists|k: int| comment_starts_at(l, k)
}

/// Where the line that starts at `i` ends: at its `'\n'`, or at the end of the text.
pub open spec fn line_end(s: Seq<char>, i: int) -> int
    decreases s.len() - i,
{
    if i >= s.len() {
        s.len() as int
    } else if s[i] == '\n' {
        i
    } else {
        line_end(s, i + 1)
    }
}

/// The lines of `s` from the one that starts at `i` on, in order: a comment
/// line is dropped with its line end, every other line is kept verbatim with
/// its line end.
pub open spec fn kept_lines(s: Seq<char>, i: int) -> Seq<char>
    decreases s.len() - i,
{
    if i >= s.len() {
        Seq::empty()
    } else {
        let e = line_end(s, i);
        let line = s.subrange(i, e);
        if i <= e < s.len() {
            let kept = if is_comment_line(line) {
                Seq::empty()
            } else {
                s.subrange(i, e + 1)
            };
            kept + kept_lines(s, e + 1)
        } else if is_comment_line(line) {
            Seq::empty()
        } else {
            line
        }
    }
}

/// Text with its block comments and then its comment lines removed. A `//`
/// after other text on a line stays.
pub open spec fn strip_comments(s: Seq<char>) -> Seq<char> {
    kept_lines(without_blocks(s, 0), 0)
}

fn push_range(out: &mut Vec<char>, s: &Vec<char>, from: usize, to: usize)
    requires
        from <= to <= s.len(),
    ensures
        final(out)@ == old(out)@ + s@.subrange(from as int, to as int),
{
    let mut k: usize = from;
    while k < to
        invariant
            from <= k <= to <= s.len(),
            out@ == old(out)@ + s@.subrange(from as int, k as int),
        decreases to - k,
    {
        out.push(s[k]);
        k = k + 1;
        assert(out@ =~= old(out)@ + s@.subrange(from as int, k as int));
    }
}

/// Where the first `*/` at or after `j` starts.
fn find_close(s: &Vec<char>, j: usize) -> (c: usize)
    requires
        j <= s.len(),
    ensures
        c == close_from(s@, j as int),
{
    let mut k: usize = j;
    while k < s.len() && s.len() - k >= 2
        invariant
            j <= k <= s.len(),
            close_from(s@, k as int) == close_from(s@, j as int),
        decreases s.len() - k,
    {
        if s[k] == '*' && s[k + 1] == '/' {
            return k;
        }
        k = k + 1;
    }
    s.len()
}

/// Removes block comments.
pub fn strip_blocks(s: &Vec<char>) -> (r: Vec<char>)
    ensures
        r@ == without_blocks(s@, 0),
{
    let mut out: Vec<char> = Vec::new();
    let mut i: usize = 0;
    while i < s.len()
        invariant
            i <= s.len(),
            out@ + without_blocks(s@, i as int) == without_blocks(s@, 0),
        decreases s.len() - i,
    {
        let ghost before = out@;
        if i + 1 < s.len() && s[i] == '/' && s[i + 1] == '*' {
            let c = find_close(s, i + 2);
            proof {
                lemma_close_bounds(s@, i + 2);
            }
            if c < s.len() {
                i = c + 2;
            } else {
                proof {
                    lemma_rest_kept(s@, i + 2, i as int);
                }
                push_range(&mut out, s, i, s.len());
                assert(out@ + without_blocks(s@, s.len() as int) =~= before + without_blocks(
                    s@,
                    i as int,
                ));
                i = s.len();
            }
        } else {
            out.push(s[i]);
            assert(out@ + without_blocks(s@, i + 1) =~= before + without_blocks(s@, i as int));
            i = i + 1;
        }
    }
    assert(out@ + without_blocks(s@, i as int) =~= out@);
    out
}

/// Whether `s[start..end]` is a comment line.
fn comment_line_at(s: &Vec<char>, start: usize, end: usize) -> (r: bool)
    requires
        start <= end <= s.len(),
    ensures
        r == is_comment_line(s@.subrange(start as int, end as int)),
{
    let ghost l = s@.subrange(start as int, end as int);
    let mut k: usize = start;
    while k < end && is_blank_char(s[k])
        invariant
            start <= k <= end <= s.len(),
            l == s@.subrange(start as int, end as int),
            forall|m: int| 0 <= m < k - start ==> is_blank(#[trigger] l[m]),
        decreases end - k,
    {
        k = k + 1;
    }
    let r = k < end && end - k >= 2 && s[k] == '/' && s[k + 1] == '/';
    proof {
        let f = k - start;
        if r {
            assert(l[f] == '/' && l[f + 1] == '/');
            assert(comment_starts_at(l, f));
        } else if is_comment_line(l) {
            let g = choose|g: int| comment_starts_at(l, g);
            if g < f {
                assert(is_blank(l[g]));
            } else if g > f {
                assert(is_blank(l[f]));
                assert(!is_blank(l[f]));
            }
        }
    }
    r
}

fn is_blank_char(c: char) -> (r: bool)
    ensures
        r == is_blank(c),
{
    c == '\t' || c == '\x0B' || c == '\x0C' || c == '\r' || c == ' ' || c == '\u{85}' || c
        == '\u{A0}' || c == '\u{1680}' || ('\u{2000}' <= c && c <= '\u{200A}') || c == '\u{2028}'
        || c == '\u{2029}' || c == '\u{202F}' || c == '\u{205F}' || c == '\u{3000}'
}

/// Where the line that starts at `i` ends.
fn find_line_end(s: &Vec<char>, i: usize) -> (e: usize)
    requires
        i <= s.len(),
    ensures
        e == line_end(s@, i as int),
        i <= e <= s.len(),
{
    let mut j: usize = i;
    while j < s.len()
        invariant
            i <= j <= s.len(),
            line_end(s@, j as int) == line_end(s@, i as int),
        decreases s.len() - j,
    {
        if s[j] == '\n' {
            return j;
        }
        j = j + 1;
    }
    j
}

/// Removes comment lines.
pub fn strip_lines(s: &Vec<char>) -> (r: Vec<char>)
    ensures
        r@ == kept_lines(s@, 0),
{
    let mut out: Vec<char> = Vec::new();
    let mut i: usize = 0;
    while i < s.len()
        invariant
            i <= s.len(),
            out@ + kept_lines(s@, i as int) == kept_lines(s@, 0),
        decreases s.len() - i,
    {
        let ghost before = out@;
        let e = find_line_end(s, i);
        let comment = comment_line_at(s, i, e);
        if e < s.len() {
            if !comment {
                push_range(&mut out, s, i, e + 1);
            }
            assert(before + kept_lines(s@, i as int) =~= out@ + kept_lines(s@, e + 1));
            i = e + 1;
        } else {
            if !comment {
                push_range(&mut out, s, i, e);
            }
            assert(before + kept_lines(s@, i as int) =~= out@ + kept_lines(s@, s.len() as int));
            i = s.len();
        }
    }
    assert(out@ + kept_lines(s@, i as int) =~= out@);
    out
}

/// Relies on `FromIterator<&char>` for `String`: the string of these characters.
#[verifier::external_body]
fn string_of_chars(v: &Vec<char>) -> (r: String)
    ensures
        r@ == v@,
{
    v.iter().collect()
}

/// Removes block comments and comment lines from `text`, so that what remains
/// can go to a structural parser.
pub fn remove_comments(text: &str) -> (r: String)
    ensures
        r@ == strip_comments(text@),
{
    let chars = chars_of(text);
    let without_blocks = strip_blocks(&chars);
    let without_lines = strip_lines(&without_blocks);
    string_of_chars(&without_lines)
}

} // verus!
