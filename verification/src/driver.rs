//! The driver: dispatching an operation over an ordered sequence of buffers.
//!
//! Union folds every buffer into one owning set. Intersection seeds a
//! borrowing set from the first buffer and retains, per further buffer, only
//! the lines that occur in it. An empty buffer sequence is invalid input.

use vstd::prelude::*;
use vstd::slice::slice_to_vec;

use crate::dedup::{
    dedup_first, lemma_filter_filter, lemma_filter_true, lemma_insert_lines_append,
};
use crate::intersect_set::IntersectSet;
use crate::lines::{concat_lines, spec_lines};
use crate::union_set::UnionSet;

verus! {

/// Which set operation to run.
#[derive(Clone, Copy, Debug, PartialEq, Eq, Structural)]
pub enum OpName {
    Union,
    Intersect,
}

/// The one failure of the engine: no operand buffer was supplied.
#[derive(Clone, Copy, Debug, PartialEq, Eq, Structural)]
pub enum SetError {
    InvalidInput,
}

/// The byte contents of a sequence of owned buffers.
pub open spec fn buf_views(texts: Seq<Vec<u8>>) -> Seq<Seq<u8>> {
    texts.map_values(|t: Vec<u8>| t@)
}

/// The lines of all buffers, concatenated in buffer order.
pub open spec fn all_lines(bufs: Seq<Seq<u8>>) -> Seq<Seq<u8>>
    decreases bufs.len(),
{
    if bufs.len() == 0 {
        Seq::empty()
    } else {
        all_lines(bufs.drop_last()) + spec_lines(bufs.last())
    }
}

/// Whether line `l` occurs in every one of the given buffers.
pub open spec fn in_all_buffers(l: Seq<u8>, bufs: Seq<Seq<u8>>) -> bool {
    forall|k: int| 0 <= k < bufs.len() ==> (#[trigger] spec_lines(bufs[k])).contains(l)
}

/// The union of the buffers' lines: every line occurring in at least one
/// buffer, exactly once, ordered by first occurrence scanning the buffers
/// left to right.
pub open spec fn spec_union(bufs: Seq<Seq<u8>>) -> Seq<Seq<u8>> {
    dedup_first(all_lines(bufs))
}

/// The intersection of the buffers' lines: every line of the first buffer
/// that also occurs in all other buffers, exactly once, ordered by first
/// occurrence within the first buffer.
pub open spec fn spec_intersect(bufs: Seq<Seq<u8>>) -> Seq<Seq<u8>>
    recommends
        bufs.len() >= 1,
{
    dedup_first(spec_lines(bufs[0])).filter(|l: Seq<u8>| in_all_buffers(l, bufs.skip(1)))
}

/// The result the driver owes for a given operation and buffer sequence.
pub open spec fn spec_result(op: OpName, bufs: Seq<Seq<u8>>) -> Seq<Seq<u8>>
    recommends
        bufs.len() >= 1,
{
    match op {
        OpName::Union => spec_union(bufs),
        OpName::Intersect => spec_intersect(bufs),
    }
}

/// Run the requested operation over the buffers and return the resulting
/// lines in order. Zero buffers is invalid input; one or more always
/// succeeds.
pub fn do_calculation(op: OpName, texts: &Vec<Vec<u8>>) -> (r: Result<Vec<Vec<u8>>, SetError>)
    ensures
        r is Err <==> texts@.len() == 0,
        r is Err ==> r->Err_0 == SetError::InvalidInput,
        r is Ok ==> r->Ok_0@.map_values(|l: Vec<u8>| l@) == spec_result(op, buf_views(texts@)),
{
    if texts.len() == 0 {
        return Err(SetError::InvalidInput);
    }
    let ghost bufs = buf_views(texts@);
    match op {
        OpName::Union => {
            let mut set = UnionSet::init(slice_to_vec(texts[0].as_slice()));
            proof {
                reveal_with_fuel(all_lines, 2);
                assert(bufs.take(1).drop_last() =~= Seq::<Seq<u8>>::empty());
                assert(all_lines(bufs.take(1))
                    =~= Seq::empty() + spec_lines(bufs.take(1).last()));
                assert(Seq::empty() + spec_lines(bufs[0]) =~= spec_lines(bufs[0]));
            }
            let mut k: usize = 1;
            while k < texts.len()
                invariant
                    1 <= k <= texts@.len(),
                    bufs == buf_views(texts@),
                    set@ == dedup_first(all_lines(bufs.take(k as int))),
                decreases texts@.len() - k,
            {
                set.operate(texts[k].as_slice());
                proof {
                    lemma_insert_lines_append(
                        Seq::empty(),
                        all_lines(bufs.take(k as int)),
                        spec_lines(bufs[k as int]),
                    );
                    assert(bufs.take(k + 1).drop_last() =~= bufs.take(k as int));
                    assert(bufs.take(k + 1).last() == bufs[k as int]);
                }
                k = k + 1;
            }
            proof {
                assert(bufs.take(bufs.len() as int) =~= bufs);
            }
            Ok(set.result_lines())
        }
        OpName::Intersect => {
            let mut set = IntersectSet::init(slice_to_vec(texts[0].as_slice()));
            let ghost first = dedup_first(spec_lines(bufs[0]));
            proof {
                let p1 = |l: Seq<u8>| in_all_buffers(l, bufs.subrange(1, 1));
                assert(bufs.subrange(1, 1).len() == 0);
                assert(forall|l: Seq<u8>| #[trigger] p1(l));
                lemma_filter_true(first, p1);
            }
            let mut k: usize = 1;
            while k < texts.len()
                invariant
                    1 <= k <= texts@.len(),
                    bufs == buf_views(texts@),
                    first == dedup_first(spec_lines(bufs[0])),
                    set.wf(),
                    set@ == first.filter(
                        |l: Seq<u8>| in_all_buffers(l, bufs.subrange(1, k as int)),
                    ),
                decreases texts@.len() - k,
            {
                set.operate(texts[k].as_slice());
                proof {
                    let p = |l: Seq<u8>| in_all_buffers(l, bufs.subrange(1, k as int));
                    let q = |l: Seq<u8>| spec_lines(bufs[k as int]).contains(l);
                    let pq = |l: Seq<u8>| in_all_buffers(l, bufs.subrange(1, k + 1));
                    let sk = bufs.subrange(1, k as int);
                    let sk1 = bufs.subrange(1, k + 1);
                    assert forall|l: Seq<u8>| #[trigger] pq(l) <==> (p(l) && q(l)) by {
                        assert(sk1.len() == k);
                        assert(forall|j: int| 0 <= j < sk.len() ==> sk[j] == bufs[j + 1]);
                        assert(forall|j: int| 0 <= j < sk1.len() ==> sk1[j] == bufs[j + 1]);
                        if p(l) && q(l) {
                            assert forall|j: int| 0 <= j < sk1.len()
                                implies (#[trigger] spec_lines(sk1[j])).contains(l) by {
                                if j < k - 1 {
                                    assert(spec_lines(sk[j]).contains(l));
                                } else {
                                    assert(sk1[j] == bufs[k as int]);
                                }
                            }
                        }
                        if pq(l) {
                            assert forall|j: int| 0 <= j < sk.len()
                                implies (#[trigger] spec_lines(sk[j])).contains(l) by {
                                assert(spec_lines(sk1[j]).contains(l));
                            }
                            assert(spec_lines(sk1[k - 1]).contains(l));
                        }
                    }
                    lemma_filter_filter(first, p, q, pq);
                }
                k = k + 1;
            }
            proof {
                let pfin = |l: Seq<u8>| in_all_buffers(l, bufs.subrange(1, texts@.len() as int));
                let pskip = |l: Seq<u8>| in_all_buffers(l, bufs.skip(1));
                assert(bufs.subrange(1, texts@.len() as int) =~= bufs.skip(1));
                assert(pfin =~= pskip);
            }
            Ok(set.result_lines())
        }
    }
}

/// Append the given lines, byte for byte and in order, to the output buffer:
/// verbatim emission, terminators included.
pub fn rite_to(lines: &Vec<Vec<u8>>, out: &mut Vec<u8>)
    ensures
        final(out)@ == old(out)@ + concat_lines(lines@.map_values(|l: Vec<u8>| l@)),
{
    let ghost base = out@;
    let ghost ls = lines@.map_values(|l: Vec<u8>| l@);
    let mut i: usize = 0;
    while i < lines.len()
        invariant
            i <= lines@.len(),
            ls == lines@.map_values(|l: Vec<u8>| l@),
            base == old(out)@,
            out@ == base + concat_lines(ls.take(i as int)),
        decreases lines@.len() - i,
    {
        let line = &lines[i];
        let ghost mid = out@;
        let mut j: usize = 0;
        while j < line.len()
            invariant
                j <= line@.len(),
                out@ == mid + line@.take(j as int),
            decreases line@.len() - j,
        {
            out.push(line[j]);
            proof {
                assert(line@.take(j + 1) =~= line@.take(j as int).push(line@[j as int]));
                assert(mid + line@.take(j as int).push(line@[j as int])
                    =~= (mid + line@.take(j as int)).push(line@[j as int]));
            }
            j = j + 1;
        }
        proof {
            assert(line@.take(line@.len() as int) =~= line@);
            assert(ls.take(i + 1).drop_last() =~= ls.take(i as int));
            assert(ls.take(i + 1).last() == ls[i as int]);
            assert(ls[i as int] == line@);
            assert(base + (concat_lines(ls.take(i as int)) + line@)
                =~= (base + concat_lines(ls.take(i as int))) + line@);
        }
        i = i + 1;
    }
    proof {
        assert(ls.take(ls.len() as int) =~= ls);
    }
}

/// Run the requested operation and emit the resulting lines, verbatim and in
/// order, into the output buffer. On invalid input the output buffer is left
/// untouched.
pub fn calculate_and_print(op: OpName, texts: &Vec<Vec<u8>>, out: &mut Vec<u8>) -> (r: Result<
    (),
    SetError,
>)
    ensures
        r is Err <==> texts@.len() == 0,
        r is Err ==> r->Err_0 == SetError::InvalidInput && final(out)@ == old(out)@,
        r is Ok ==> final(out)@ == old(out)@ + concat_lines(
            spec_result(op, buf_views(texts@)),
        ),
{
    match do_calculation(op, texts) {
        Ok(lines) => {
            rite_to(&lines, out);
            Ok(())
        }
        Err(e) => Err(e),
    }
}

} // verus!
