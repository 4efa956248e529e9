//! The owning insertion-ordered set of lines.
//!
//! `UnionSet` stores each distinct line once, as an owned byte vector, in
//! first-insertion order. It backs the union computation (as the long-lived
//! accumulator) and the intersection computation (as the transient
//! per-buffer set used for membership tests). Storage and lookup are done by
//! an `indexmap::IndexSet`, which keeps its elements in insertion order.

use vstd::prelude::*;
use vstd::slice::{slice_subrange, slice_to_vec};

use indexmap::IndexSet;

use crate::dedup::{dedup_first, insert_line_spec, insert_lines_spec};
use crate::driver::rite_to;
use crate::lines::{concat_lines, spec_lines, split_lines};

verus! {

#[verifier::external_type_specification]
#[verifier::external_body]
#[verifier::reject_recursive_types(T)]
#[verifier::reject_recursive_types(S)]
pub struct ExIndexSet<T, S>(IndexSet<T, S>);

/// The elements held by an `IndexSet` of owned lines, as the sequence of
/// their byte contents in insertion order.
pub uninterp spec fn iset_elems(s: IndexSet<Vec<u8>>) -> Seq<Seq<u8>>;

/// Relies on indexmap::IndexSet::new: a newly created set is empty.
#[verifier::external_body]
fn iset_new() -> (s: IndexSet<Vec<u8>>)
    ensures
        iset_elems(s) == Seq::<Seq<u8>>::empty(),
{
    IndexSet::new()
}

/// Relies on indexmap::IndexSet::insert: if an equivalent element is already
/// present, the set is unchanged (the old element keeps its place) and the
/// call returns false; otherwise the element is appended in insertion order
/// and the call returns true. Equivalence of `Vec<u8>` keys is byte-content
/// equality.
#[verifier::external_body]
fn iset_insert(s: &mut IndexSet<Vec<u8>>, line: Vec<u8>) -> (newly: bool)
    ensures
        newly == !iset_elems(*old(s)).contains(line@),
        iset_elems(*final(s)) == insert_line_spec(iset_elems(*old(s)), line@),
{
    s.insert(line)
}

/// Relies on indexmap::IndexSet::contains: whether an element with the given
/// byte content is present. `Vec<u8>` keys are looked up by `[u8]` content.
#[verifier::external_body]
fn iset_contains(s: &IndexSet<Vec<u8>>, line: &[u8]) -> (r: bool)
    ensures
        r == iset_elems(*s).contains(line@),
{
    s.contains(line)
}

/// Relies on indexmap::IndexSet::iter: the elements, in insertion order.
#[verifier::external_body]
fn iset_to_vec(s: &IndexSet<Vec<u8>>) -> (r: Vec<Vec<u8>>)
    ensures
        r@.map_values(|l: Vec<u8>| l@) == iset_elems(*s),
{
    s.iter().cloned().collect()
}

/// An insertion-ordered set of owned lines.
pub struct UnionSet {
    set: IndexSet<Vec<u8>>,
}

impl View for UnionSet {
    type V = Seq<Seq<u8>>;

    closed spec fn view(&self) -> Seq<Seq<u8>> {
        iset_elems(self.set)
    }
}

impl Default for UnionSet {
    /// The empty set.
    fn default() -> (r: Self)
        ensures
            r@ == Seq::<Seq<u8>>::empty(),
    {
        UnionSet { set: iset_new() }
    }
}

impl UnionSet {
    /// Insert one line, copying its bytes into an owned buffer. A line whose
    /// content is already present leaves the set unchanged and keeps the old
    /// entry's position; a new line goes to the end.
    pub fn insert_line(&mut self, line: &[u8]) -> (newly: bool)
        ensures
            newly == !old(self)@.contains(line@),
            final(self)@ == insert_line_spec(old(self)@, line@),
    {
        let owned: Vec<u8> = slice_to_vec(line);
        iset_insert(&mut self.set, owned)
    }

    /// Whether a line with the given content is in the set.
    pub fn contains(&self, line: &[u8]) -> (r: bool)
        ensures
            r == self@.contains(line@),
    {
        iset_contains(&self.set, line)
    }

    /// Split `text` into lines and insert each of them, in order.
    pub fn insert_all_lines(&mut self, text: &[u8])
        ensures
            final(self)@ == insert_lines_spec(old(self)@, spec_lines(text@)),
    {
        let spans = split_lines(text);
        let ghost ls = spec_lines(text@);
        let mut k: usize = 0;
        while k < spans.len()
            invariant
                k <= spans@.len(),
                spans@.len() == ls.len(),
                forall|i: int| 0 <= i < spans@.len()
                    ==> 0 <= (#[trigger] spans@[i]).0 < spans@[i].1 <= text@.len(),
                forall|i: int| 0 <= i < spans@.len()
                    ==> text@.subrange((#[trigger] spans@[i]).0 as int, spans@[i].1 as int)
                        == ls[i],
                self@ == insert_lines_spec(old(self)@, ls.take(k as int)),
            decreases spans@.len() - k,
        {
            let (a, b) = spans[k];
            let line = slice_subrange(text, a, b);
            proof {
                assert(ls.take(k + 1).drop_last() =~= ls.take(k as int));
                assert(ls.take(k + 1).last() == ls[k as int]);
            }
            self.insert_line(line);
            k = k + 1;
        }
        proof {
            assert(ls.take(ls.len() as int) =~= ls);
        }
    }

    /// The set holding every line of `text`, deduplicated by content, in
    /// first-occurrence order.
    pub fn init_from_slice(text: &[u8]) -> (r: Self)
        ensures
            r@ == dedup_first(spec_lines(text@)),
    {
        let mut set = UnionSet::default();
        set.insert_all_lines(text);
        set
    }

    /// The set seeded from the first operand buffer.
    pub fn init(text: Vec<u8>) -> (r: Self)
        ensures
            r@ == dedup_first(spec_lines(text@)),
    {
        UnionSet::init_from_slice(text.as_slice())
    }

    /// The union fold step: fold one further operand buffer into the
    /// accumulator by inserting each of its lines.
    pub fn operate(&mut self, text: &[u8])
        ensures
            final(self)@ == insert_lines_spec(old(self)@, spec_lines(text@)),
    {
        self.insert_all_lines(text);
    }

    /// The lines of the set, in insertion order, as owned byte vectors.
    pub fn result_lines(&self) -> (r: Vec<Vec<u8>>)
        ensures
            r@.map_values(|l: Vec<u8>| l@) == self@,
    {
        iset_to_vec(&self.set)
    }

    /// Emit the set's lines, verbatim and in order, into the output buffer.
    pub fn write_to(&self, out: &mut Vec<u8>)
        ensures
            final(out)@ == old(out)@ + concat_lines(self@),
    {
        let lines = self.result_lines();
        rite_to(&lines, out);
    }
}

} // verus!
