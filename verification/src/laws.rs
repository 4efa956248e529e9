//! The laws of the engine, stated over the same spec functions that the
//! executable functions' contracts use.

use vstd::prelude::*;

use crate::dedup::{
    dedup_first, first_idx, insert_lines_spec, lemma_dedup_first_basic, lemma_dedup_first_order,
    lemma_filter_contains, lemma_filter_no_duplicates, lemma_filter_true,
    lemma_insert_lines_contains, lemma_insert_lines_subsumed,
};
use crate::driver::{all_lines, in_all_buffers, spec_intersect, spec_union};
use crate::lines::spec_lines;

verus! {

/// Membership is idempotent: inserting every line of a buffer into a set
/// that has already received them — in particular, inserting the lines of a
/// buffer into an empty set twice — yields the same set as inserting them
/// once.
pub proof fn lemma_membership_idempotent(acc: Seq<Seq<u8>>, b: Seq<u8>)
    ensures
        insert_lines_spec(insert_lines_spec(acc, spec_lines(b)), spec_lines(b))
            == insert_lines_spec(acc, spec_lines(b)),
{
    let once = insert_lines_spec(acc, spec_lines(b));
    assert forall|x: Seq<u8>| spec_lines(b).contains(x) implies once.contains(x) by {
        lemma_insert_lines_contains(acc, spec_lines(b), x);
    }
    lemma_insert_lines_subsumed(once, spec_lines(b));
}

/// A line occurs in the concatenated lines of a buffer sequence exactly when
/// it occurs in the lines of one of the buffers.
pub proof fn lemma_all_lines_contains(bufs: Seq<Seq<u8>>, x: Seq<u8>)
    ensures
        all_lines(bufs).contains(x)
            <==> exists|k: int|
                0 <= k < bufs.len() && (#[trigger] spec_lines(bufs[k])).contains(x),
    decreases bufs.len(),
{
    if bufs.len() > 0 {
        let d = bufs.drop_last();
        lemma_all_lines_contains(d, x);
        let a = all_lines(d);
        let b = spec_lines(bufs.last());
        assert((a + b).contains(x) <==> (a.contains(x) || b.contains(x))) by {
            if a.contains(x) {
                let i = choose|i: int| 0 <= i < a.len() && a[i] == x;
                assert((a + b)[i] == x);
            }
            if b.contains(x) {
                let i = choose|i: int| 0 <= i < b.len() && b[i] == x;
                assert((a + b)[a.len() + i] == x);
            }
            if (a + b).contains(x) {
                let i = choose|i: int| 0 <= i < (a + b).len() && (a + b)[i] == x;
                if i < a.len() {
                    assert(a[i] == x);
                } else {
                    assert(b[i - a.len()] == x);
                }
            }
        }
        if a.contains(x) {
            let k = choose|k: int|
                0 <= k < d.len() && (#[trigger] spec_lines(d[k])).contains(x);
            assert(spec_lines(bufs[k]).contains(x));
        }
        if b.contains(x) {
            assert(spec_lines(bufs[bufs.len() - 1]).contains(x));
        }
        if exists|k: int| 0 <= k < bufs.len() && (#[trigger] spec_lines(bufs[k])).contains(x) {
            let k = choose|k: int|
                0 <= k < bufs.len() && (#[trigger] spec_lines(bufs[k])).contains(x);
            if k < bufs.len() - 1 {
                assert(spec_lines(d[k]).contains(x));
            }
        }
    }
}

/// Union: the output holds a line exactly when some input buffer holds it —
/// so every output line appears in at least one input buffer, and none is
/// lost. The output has no duplicates, and its order is the order of first
/// occurrence scanning the buffers left to right, top to bottom.
pub proof fn lemma_union_correct(bufs: Seq<Seq<u8>>)
    ensures
        forall|x: Seq<u8>|
            spec_union(bufs).contains(x)
                <==> exists|k: int|
                    0 <= k < bufs.len() && (#[trigger] spec_lines(bufs[k])).contains(x),
        spec_union(bufs).no_duplicates(),
        forall|i: int, j: int| 0 <= i < j < spec_union(bufs).len()
            ==> first_idx(all_lines(bufs), spec_union(bufs)[i])
                < first_idx(all_lines(bufs), spec_union(bufs)[j]),
{
    lemma_dedup_first_basic(all_lines(bufs));
    lemma_dedup_first_order(all_lines(bufs));
    assert forall|x: Seq<u8>|
        spec_union(bufs).contains(x)
            <==> exists|k: int|
                0 <= k < bufs.len() && (#[trigger] spec_lines(bufs[k])).contains(x) by {
        lemma_all_lines_contains(bufs, x);
    }
}

/// Intersection, subset and completeness: the output holds a line exactly
/// when the first buffer holds it and every other buffer holds it too. The
/// output has no duplicates — each such line appears exactly once — and its
/// order is the order of first occurrence within the first buffer.
pub proof fn lemma_intersect_correct(bufs: Seq<Seq<u8>>)
    requires
        bufs.len() >= 1,
    ensures
        forall|x: Seq<u8>|
            spec_intersect(bufs).contains(x)
                <==> (spec_lines(bufs[0]).contains(x)
                    && in_all_buffers(x, bufs.skip(1))),
        spec_intersect(bufs).no_duplicates(),
        forall|i: int, j: int| 0 <= i < j < spec_intersect(bufs).len()
            ==> first_idx(spec_lines(bufs[0]), spec_intersect(bufs)[i])
                < first_idx(spec_lines(bufs[0]), spec_intersect(bufs)[j]),
{
    let first = dedup_first(spec_lines(bufs[0]));
    let p = |l: Seq<u8>| in_all_buffers(l, bufs.skip(1));
    lemma_dedup_first_basic(spec_lines(bufs[0]));
    lemma_dedup_first_order(spec_lines(bufs[0]));
    assert forall|x: Seq<u8>|
        spec_intersect(bufs).contains(x)
            <==> (spec_lines(bufs[0]).contains(x) && in_all_buffers(x, bufs.skip(1))) by {
        lemma_filter_contains(first, p, x);
    }
    lemma_filter_no_duplicates(first, p);
    let f = |x: Seq<u8>| first_idx(spec_lines(bufs[0]), x);
    lemma_filter_keeps_order(first, p, f);
    assert forall|i: int, j: int| 0 <= i < j < spec_intersect(bufs).len()
        implies first_idx(spec_lines(bufs[0]), spec_intersect(bufs)[i])
            < first_idx(spec_lines(bufs[0]), spec_intersect(bufs)[j]) by {
        assert(f(first.filter(p)[i]) < f(first.filter(p)[j]));
    }
}

/// Retaining preserves relative order: if some rank strictly increases along
/// a sequence, it strictly increases along the retained subsequence.
pub proof fn lemma_filter_keeps_order(
    s: Seq<Seq<u8>>,
    p: spec_fn(Seq<u8>) -> bool,
    f: spec_fn(Seq<u8>) -> int,
)
    requires
        forall|i: int, j: int| 0 <= i < j < s.len() ==> #[trigger] f(s[i]) < #[trigger] f(s[j]),
    ensures
        forall|i: int, j: int| 0 <= i < j < s.filter(p).len()
            ==> #[trigger] f(s.filter(p)[i]) < #[trigger] f(s.filter(p)[j]),
    decreases s.len(),
{
    reveal_with_fuel(Seq::<_>::filter, 2);
    if s.len() > 0 {
        let d = s.drop_last();
        assert(forall|i: int| 0 <= i < d.len() ==> d[i] == s[i]);
        lemma_filter_keeps_order(d, p, f);
        if p(s.last()) {
            let e = d.filter(p);
            let out = e.push(s.last());
            assert(s.filter(p) == out);
            assert forall|i: int, j: int| 0 <= i < j < out.len()
                implies #[trigger] f(out[i]) < #[trigger] f(out[j]) by {
                assert(forall|k: int| 0 <= k < e.len() ==> out[k] == e[k]);
                if j == e.len() {
                    assert(out[j] == s.last());
                    lemma_filter_contains(d, p, e[i]);
                    let k = choose|k: int| 0 <= k < d.len() && d[k] == e[i];
                    assert(f(s[k]) < f(s[s.len() - 1]));
                }
            }
        }
    }
}

/// With a single operand buffer, union and intersection agree: both return
/// exactly that buffer's distinct lines, in first-occurrence order.
pub proof fn lemma_single_operand(b: Seq<u8>)
    ensures
        spec_union(seq![b]) == dedup_first(spec_lines(b)),
        spec_intersect(seq![b]) == dedup_first(spec_lines(b)),
{
    reveal_with_fuel(all_lines, 2);
    let bs: Seq<Seq<u8>> = seq![b];
    assert(bs.drop_last() =~= Seq::<Seq<u8>>::empty());
    assert(all_lines(bs) =~= Seq::empty() + spec_lines(bs.last()));
    assert(Seq::empty() + spec_lines(b) =~= spec_lines(b));
    let p = |l: Seq<u8>| in_all_buffers(l, bs.skip(1));
    assert(bs.skip(1).len() == 0);
    assert(forall|l: Seq<u8>| #[trigger] p(l));
    lemma_filter_true(dedup_first(spec_lines(b)), p);
    assert(bs[0] == b);
}

} // verus!
