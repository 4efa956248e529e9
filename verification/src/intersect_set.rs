//! The borrowing insertion-ordered set of lines.
//!
//! `IntersectSet` is the accumulator of the intersection computation. An
//! intersection result is always a subset of the first operand buffer's
//! lines, so no line bytes outside that buffer ever need to be owned: the
//! set holds the first buffer once, and each entry is a `(start, end)` byte
//! range into it. Entries are kept in first-occurrence order, deduplicated
//! by byte content.

use vstd::prelude::*;
use vstd::slice::{slice_subrange, slice_to_vec};

use crate::dedup::{dedup_first, insert_lines_spec, lemma_insert_lines_contains};
use crate::driver::rite_to;
use crate::lines::{concat_lines, spec_lines, split_lines};
use crate::union_set::UnionSet;

verus! {

/// An insertion-ordered set of lines borrowed, as byte ranges, from one
/// owned buffer.
pub struct IntersectSet {
    text: Vec<u8>,
    spans: Vec<(usize, usize)>,
}

impl View for IntersectSet {
    type V = Seq<Seq<u8>>;

    closed spec fn view(&self) -> Seq<Seq<u8>> {
        self.spans@.map_values(
            |p: (usize, usize)| self.text@.subrange(p.0 as int, p.1 as int),
        )
    }
}

impl IntersectSet {
    /// Every stored range lies within the owned buffer.
    pub closed spec fn wf(&self) -> bool {
        forall|k: int| 0 <= k < self.spans@.len()
            ==> 0 <= (#[trigger] self.spans@[k]).0 <= self.spans@[k].1 <= self.text@.len()
    }

    /// The set seeded from the first operand buffer: its distinct lines, in
    /// first-occurrence order, each stored as a range into the buffer.
    pub fn init(text: Vec<u8>) -> (r: Self)
        ensures
            r.wf(),
            r@ == dedup_first(spec_lines(text@)),
    {
        let spans_all = split_lines(text.as_slice());
        let ghost ls = spec_lines(text@);
        // A transient owning set mirrors the accumulated content, so that
        // duplicates within the buffer are found by hashing.
        let mut seen = UnionSet::default();
        let mut spans: Vec<(usize, usize)> = Vec::new();
        let mut k: usize = 0;
        while k < spans_all.len()
            invariant
                k <= spans_all@.len(),
                spans_all@.len() == ls.len(),
                forall|i: int| 0 <= i < spans_all@.len()
                    ==> 0 <= (#[trigger] spans_all@[i]).0 < spans_all@[i].1 <= text@.len(),
                forall|i: int| 0 <= i < spans_all@.len()
                    ==> text@.subrange((#[trigger] spans_all@[i]).0 as int, spans_all@[i].1 as int)
                        == ls[i],
                forall|i: int| 0 <= i < spans@.len()
                    ==> 0 <= (#[trigger] spans@[i]).0 <= spans@[i].1 <= text@.len(),
                seen@ == insert_lines_spec(Seq::empty(), ls.take(k as int)),
                spans@.map_values(
                    |p: (usize, usize)| text@.subrange(p.0 as int, p.1 as int),
                ) == seen@,
            decreases spans_all@.len() - k,
        {
            let (a, b) = spans_all[k];
            let line = slice_subrange(text.as_slice(), a, b);
            let ghost old_seen = seen@;
            let ghost old_spans = spans@;
            let ghost f = |p: (usize, usize)| text@.subrange(p.0 as int, p.1 as int);
            proof {
                assert(ls.take(k + 1).drop_last() =~= ls.take(k as int));
                assert(ls.take(k + 1).last() == ls[k as int]);
            }
            let newly = seen.insert_line(line);
            if newly {
                spans.push((a, b));
                proof {
                    assert(spans@.map_values(f) =~= old_spans.map_values(f).push(line@));
                }
            }
            k = k + 1;
        }
        proof {
            assert(ls.take(ls.len() as int) =~= ls);
        }
        IntersectSet { text, spans }
    }

    /// The intersection fold step: build a transient set from one further
    /// operand buffer and retain only the entries whose content occurs in
    /// it. Surviving entries keep their relative order.
    pub fn operate(&mut self, text: &[u8])
        requires
            old(self).wf(),
        ensures
            final(self).wf(),
            final(self)@ == old(self)@.filter(
                |l: Seq<u8>| spec_lines(text@).contains(l),
            ),
    {
        let other = UnionSet::init_from_slice(text);
        let ghost pred = |l: Seq<u8>| spec_lines(text@).contains(l);
        let ghost f = |p: (usize, usize)| self.text@.subrange(p.0 as int, p.1 as int);
        let ghost old_view = self@;
        let mut kept: Vec<(usize, usize)> = Vec::new();
        let mut k: usize = 0;
        while k < self.spans.len()
            invariant
                self == old(self),
                old(self).wf(),
                k <= self.spans@.len(),
                other@ == dedup_first(spec_lines(text@)),
                pred == (|l: Seq<u8>| spec_lines(text@).contains(l)),
                f == (|p: (usize, usize)| self.text@.subrange(p.0 as int, p.1 as int)),
                old_view == self@,
                forall|i: int| 0 <= i < kept@.len()
                    ==> 0 <= (#[trigger] kept@[i]).0 <= kept@[i].1 <= self.text@.len(),
                kept@.map_values(f) == old_view.take(k as int).filter(pred),
            decreases self.spans@.len() - k,
        {
            let (a, b) = self.spans[k];
            let line = slice_subrange(self.text.as_slice(), a, b);
            let ghost old_kept = kept@;
            let present = other.contains(line);
            proof {
                reveal_with_fuel(Seq::<_>::filter, 2);
                lemma_insert_lines_contains(Seq::empty(), spec_lines(text@), line@);
                assert(old_view.take(k + 1).drop_last() =~= old_view.take(k as int));
                assert(old_view.take(k + 1).last() == old_view[k as int]);
                assert(old_view[k as int] == line@);
            }
            if present {
                kept.push((a, b));
                proof {
                    assert(kept@.map_values(f) =~= old_kept.map_values(f).push(line@));
                    assert(old_view.take(k + 1).filter(pred)
                        == old_view.take(k as int).filter(pred).push(line@));
                }
            } else {
                proof {
                    assert(old_view.take(k + 1).filter(pred)
                        == old_view.take(k as int).filter(pred));
                }
            }
            k = k + 1;
        }
        proof {
            assert(old_view.take(old_view.len() as int) =~= old_view);
        }
        self.spans = kept;
    }

    /// The lines of the set, in insertion order, as owned byte vectors.
    pub fn result_lines(&self) -> (r: Vec<Vec<u8>>)
        requires
            self.wf(),
        ensures
            r@.map_values(|l: Vec<u8>| l@) == self@,
    {
        let ghost f = |p: (usize, usize)| self.text@.subrange(p.0 as int, p.1 as int);
        let mut r: Vec<Vec<u8>> = Vec::new();
        let mut k: usize = 0;
        while k < self.spans.len()
            invariant
                self.wf(),
                k <= self.spans@.len(),
                f == (|p: (usize, usize)| self.text@.subrange(p.0 as int, p.1 as int)),
                r@.map_values(|l: Vec<u8>| l@) == self.spans@.take(k as int).map_values(f),
            decreases self.spans@.len() - k,
        {
            let (a, b) = self.spans[k];
            let line = slice_to_vec(slice_subrange(self.text.as_slice(), a, b));
            let ghost old_r = r@;
            r.push(line);
            proof {
                let g = |l: Vec<u8>| l@;
                assert(r@.map_values(g) =~= old_r.map_values(g).push(line@));
                assert(self.spans@.take(k + 1).map_values(f)
                    =~= self.spans@.take(k as int).map_values(f).push(f(self.spans@[k as int])));
            }
            k = k + 1;
        }
        proof {
            assert(self.spans@.take(self.spans@.len() as int) =~= self.spans@);
            assert(r@.map_values(|l: Vec<u8>| l@) =~= self@);
        }
        r
    }

    /// Emit the set's lines, verbatim and in order, into the output buffer.
    pub fn write_to(&self, out: &mut Vec<u8>)
        requires
            self.wf(),
        ensures
            final(out)@ == old(out)@ + concat_lines(self@),
    {
        let lines = self.result_lines();
        rite_to(&lines, out);
    }
}

} // verus!
