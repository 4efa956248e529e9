//! Splitting a byte buffer into lines.
//!
//! A line is a maximal run of bytes ending in a newline byte (the newline is
//! part of the line), or the final unterminated remainder of the buffer. The
//! lines of a buffer cover it end to end, with no gaps and no overlaps.

use vstd::prelude::*;
use vstd::slice::slice_subrange;

verus! {

/// The byte that terminates a line.
pub const NEWLINE: u8 = 10;

/// Index of the first newline at or after position `i`, or `s.len()` if
/// there is none.
pub open spec fn first_nl_from(s: Seq<u8>, i: int) -> int
    decreases s.len() - i,
{
    if i < 0 || i >= s.len() {
        s.len() as int
    } else if s[i] == NEWLINE {
        i
    } else {
        first_nl_from(s, i + 1)
    }
}

/// The lines of `s` starting at position `i`.
pub open spec fn lines_from(s: Seq<u8>, i: int) -> Seq<Seq<u8>>
    decreases s.len() - i,
{
    if i < 0 || i >= s.len() {
        Seq::empty()
    } else {
        let j = first_nl_from(s, i);
        if j < s.len() {
            proof {
                lemma_first_nl_from(s, i);
            }
            seq![s.subrange(i, j + 1)] + lines_from(s, j + 1)
        } else {
            seq![s.subrange(i, s.len() as int)]
        }
    }
}

/// The lines of a whole buffer, in order.
pub open spec fn spec_lines(s: Seq<u8>) -> Seq<Seq<u8>> {
    lines_from(s, 0)
}

/// `first_nl_from` returns the least newline position at or after `i`.
pub proof fn lemma_first_nl_from(s: Seq<u8>, i: int)
    requires
        0 <= i <= s.len(),
    ensures
        i <= first_nl_from(s, i) <= s.len(),
        first_nl_from(s, i) < s.len() ==> s[first_nl_from(s, i)] == NEWLINE,
        forall|k: int| i <= k < first_nl_from(s, i) ==> s[k] != NEWLINE,
    decreases s.len() - i,
{
    if i < s.len() && s[i] != NEWLINE {
        lemma_first_nl_from(s, i + 1);
    }
}

/// Conversely, a position that is a newline with none before it (at or after
/// `i`) is exactly `first_nl_from(s, i)`; and if there is no newline at or
/// after `i`, the result is `s.len()`.
pub proof fn lemma_first_nl_from_unique(s: Seq<u8>, i: int, j: int)
    requires
        0 <= i <= j <= s.len(),
        j < s.len() ==> s[j] == NEWLINE,
        forall|k: int| i <= k < j ==> s[k] != NEWLINE,
    ensures
        first_nl_from(s, i) == j,
    decreases j - i,
{
    if i < j {
        lemma_first_nl_from_unique(s, i + 1, j);
    }
}

/// Relies on memchr::memchr: the index of the first occurrence of the needle
/// byte in the haystack, or None if the needle does not occur.
#[verifier::external_body]
fn find_newline(haystack: &[u8]) -> (r: Option<usize>)
    ensures
        match r {
            Some(i) => i < haystack@.len() && haystack@[i as int] == NEWLINE
                && (forall|k: int| 0 <= k < i ==> haystack@[k] != NEWLINE),
            None => forall|k: int| 0 <= k < haystack@.len() ==> haystack@[k] != NEWLINE,
        },
{
    memchr::memchr(NEWLINE, haystack)
}

/// Split a buffer into lines, each given as a `(start, end)` byte range of
/// the buffer. The ranges, in order, carry exactly the lines of the buffer:
/// they cover it end to end, without gaps or overlaps.
pub fn split_lines(text: &[u8]) -> (spans: Vec<(usize, usize)>)
    ensures
        forall|k: int| 0 <= k < spans@.len()
            ==> 0 <= (#[trigger] spans@[k]).0 < spans@[k].1 <= text@.len(),
        spans@.map_values(|p: (usize, usize)| text@.subrange(p.0 as int, p.1 as int))
            == spec_lines(text@),
{
    let ghost f = |p: (usize, usize)| text@.subrange(p.0 as int, p.1 as int);
    let mut spans: Vec<(usize, usize)> = Vec::new();
    let n = text.len();
    let mut begin: usize = 0;
    while begin < n
        invariant
            begin <= n,
            n == text@.len(),
            f == (|p: (usize, usize)| text@.subrange(p.0 as int, p.1 as int)),
            forall|k: int| 0 <= k < spans@.len()
                ==> 0 <= (#[trigger] spans@[k]).0 < spans@[k].1 <= n,
            spans@.map_values(f) + lines_from(text@, begin as int) == spec_lines(text@),
        decreases n - begin,
    {
        let rest = slice_subrange(text, begin, n);
        let ghost old_spans = spans@;
        let mut end: usize = n;
        match find_newline(rest) {
            Some(i) => {
                end = begin + i + 1;
                proof {
                    assert(rest@[i as int] == text@[begin + i]);
                    assert(forall|k: int| begin <= k < begin + i
                        ==> text@[k] == rest@[k - begin] && rest@[k - begin] != NEWLINE);
                    lemma_first_nl_from_unique(text@, begin as int, begin + i);
                }
            }
            None => {
                proof {
                    assert(forall|k: int| begin <= k < n
                        ==> text@[k] == rest@[k - begin] && rest@[k - begin] != NEWLINE);
                    lemma_first_nl_from_unique(text@, begin as int, n as int);
                }
            }
        }
        spans.push((begin, end));
        proof {
            let line = text@.subrange(begin as int, end as int);
            assert(spans@.map_values(f) =~= old_spans.map_values(f).push(line));
            if end < n {
                assert(lines_from(text@, begin as int)
                    =~= seq![line] + lines_from(text@, end as int));
            } else {
                assert(lines_from(text@, begin as int) =~= seq![line]);
                assert(lines_from(text@, n as int) =~= Seq::<Seq<u8>>::empty());
            }
            assert(old_spans.map_values(f).push(line) + lines_from(text@, end as int)
                =~= old_spans.map_values(f) + (seq![line] + lines_from(text@, end as int)));
        }
        begin = end;
    }
    spans
}

/// The bytes of a sequence of lines, concatenated in order.
pub open spec fn concat_lines(ls: Seq<Seq<u8>>) -> Seq<u8>
    decreases ls.len(),
{
    if ls.len() == 0 {
        Seq::empty()
    } else {
        concat_lines(ls.drop_last()) + ls.last()
    }
}

/// The concatenation of a single line is that line.
pub proof fn lemma_concat_lines_singleton(x: Seq<u8>)
    ensures
        concat_lines(seq![x]) == x,
{
    let s1: Seq<Seq<u8>> = seq![x];
    assert(s1.drop_last() =~= Seq::<Seq<u8>>::empty());
    assert(concat_lines(s1.drop_last()).len() == 0);
    assert(concat_lines(s1) == concat_lines(s1.drop_last()) + s1.last());
    assert(concat_lines(s1.drop_last()) + x =~= x);
}

/// Concatenation distributes over appending line sequences.
pub proof fn lemma_concat_lines_append(a: Seq<Seq<u8>>, b: Seq<Seq<u8>>)
    ensures
        concat_lines(a + b) == concat_lines(a) + concat_lines(b),
    decreases b.len(),
{
    if b.len() == 0 {
        assert(a + b =~= a);
        assert(concat_lines(a) + concat_lines(b) =~= concat_lines(a));
    } else {
        lemma_concat_lines_append(a, b.drop_last());
        assert((a + b).drop_last() =~= a + b.drop_last());
        assert((a + b).last() == b.last());
        assert((concat_lines(a) + concat_lines(b.drop_last())) + b.last()
            =~= concat_lines(a) + (concat_lines(b.drop_last()) + b.last()));
    }
}

/// The lines of a buffer, concatenated back together, are the buffer: the
/// split covers it end to end, with no gaps and no overlaps.
pub proof fn lemma_lines_cover_buffer(s: Seq<u8>)
    ensures
        concat_lines(spec_lines(s)) == s,
{
    lemma_concat_lines_from(s, 0);
    assert(s.subrange(0, s.len() as int) =~= s);
}

proof fn lemma_concat_lines_from(s: Seq<u8>, i: int)
    requires
        0 <= i <= s.len(),
    ensures
        concat_lines(lines_from(s, i)) == s.subrange(i, s.len() as int),
    decreases s.len() - i,
{
    if i >= s.len() {
        assert(s.subrange(i, s.len() as int) =~= Seq::<u8>::empty());
    } else {
        let j = first_nl_from(s, i);
        lemma_first_nl_from(s, i);
        if j < s.len() {
            lemma_concat_lines_from(s, j + 1);
            let head = seq![s.subrange(i, j + 1)];
            let rest = lines_from(s, j + 1);
            lemma_concat_lines_append(head, rest);
            lemma_concat_lines_singleton(s.subrange(i, j + 1));
            assert(s.subrange(i, j + 1) + s.subrange(j + 1, s.len() as int)
                =~= s.subrange(i, s.len() as int));
        } else {
            lemma_concat_lines_singleton(s.subrange(i, s.len() as int));
        }
    }
}

} // verus!
