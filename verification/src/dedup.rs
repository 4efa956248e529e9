//! The mathematical model of an insertion-ordered set of lines.
//!
//! A set of lines is modelled as the sequence of its distinct members in
//! insertion order. Inserting a line that is already present leaves the
//! sequence unchanged; inserting a new line appends it.

use vstd::prelude::*;

verus! {

/// One insertion into an insertion-ordered set.
pub open spec fn insert_line_spec(acc: Seq<Seq<u8>>, l: Seq<u8>) -> Seq<Seq<u8>> {
    if acc.contains(l) {
        acc
    } else {
        acc.push(l)
    }
}

/// Inserting every element of `ls`, left to right, into `acc`.
pub open spec fn insert_lines_spec(acc: Seq<Seq<u8>>, ls: Seq<Seq<u8>>) -> Seq<Seq<u8>>
    decreases ls.len(),
{
    if ls.len() == 0 {
        acc
    } else {
        insert_line_spec(insert_lines_spec(acc, ls.drop_last()), ls.last())
    }
}

/// The distinct elements of `ls`, each at the position of its first
/// occurrence.
pub open spec fn dedup_first(ls: Seq<Seq<u8>>) -> Seq<Seq<u8>> {
    insert_lines_spec(Seq::empty(), ls)
}

/// Insertions compose: inserting `a + b` is inserting `a`, then `b`.
pub proof fn lemma_insert_lines_append(acc: Seq<Seq<u8>>, a: Seq<Seq<u8>>, b: Seq<Seq<u8>>)
    ensures
        insert_lines_spec(acc, a + b) == insert_lines_spec(insert_lines_spec(acc, a), b),
    decreases b.len(),
{
    if b.len() == 0 {
        assert(a + b =~= a);
    } else {
        lemma_insert_lines_append(acc, a, b.drop_last());
        assert((a + b).drop_last() =~= a + b.drop_last());
        assert((a + b).last() == b.last());
    }
}

/// Membership in a pushed sequence.
pub proof fn lemma_push_contains(s: Seq<Seq<u8>>, e: Seq<u8>, x: Seq<u8>)
    ensures
        s.push(e).contains(x) <==> (s.contains(x) || x == e),
{
    assert(s.push(e)[s.len() as int] == e);
    if s.contains(x) {
        let i = choose|i: int| 0 <= i < s.len() && s[i] == x;
        assert(s.push(e)[i] == x);
    }
    if s.push(e).contains(x) {
        let i = choose|i: int| 0 <= i < s.push(e).len() && s.push(e)[i] == x;
        if i < s.len() {
            assert(s[i] == x);
        }
    }
}

/// The set after a run of insertions holds exactly the old members and the
/// inserted elements.
pub proof fn lemma_insert_lines_contains(acc: Seq<Seq<u8>>, ls: Seq<Seq<u8>>, x: Seq<u8>)
    ensures
        insert_lines_spec(acc, ls).contains(x) <==> (acc.contains(x) || ls.contains(x)),
    decreases ls.len(),
{
    if ls.len() > 0 {
        lemma_insert_lines_contains(acc, ls.drop_last(), x);
        assert(ls.contains(x) <==> (ls.drop_last().contains(x) || ls.last() == x)) by {
            assert(ls.drop_last().push(ls.last()) =~= ls);
            if ls.contains(x) {
                let i = choose|i: int| 0 <= i < ls.len() && ls[i] == x;
                if i < ls.len() - 1 {
                    assert(ls.drop_last()[i] == x);
                }
            }
        }
        let prev = insert_lines_spec(acc, ls.drop_last());
        if !prev.contains(ls.last()) {
            lemma_push_contains(prev, ls.last(), x);
        }
    }
}

/// Inserting elements that are all already present changes nothing.
pub proof fn lemma_insert_lines_subsumed(acc: Seq<Seq<u8>>, ls: Seq<Seq<u8>>)
    requires
        forall|x: Seq<u8>| ls.contains(x) ==> acc.contains(x),
    ensures
        insert_lines_spec(acc, ls) == acc,
    decreases ls.len(),
{
    if ls.len() > 0 {
        assert(forall|x: Seq<u8>| ls.drop_last().contains(x) ==> ls.contains(x)) by {
            assert(forall|i: int|
                0 <= i < ls.drop_last().len() ==> ls.drop_last()[i] == ls[i]);
        }
        lemma_insert_lines_subsumed(acc, ls.drop_last());
        assert(ls.contains(ls.last())) by {
            assert(ls[ls.len() - 1] == ls.last());
        }
    }
}

/// Insertion never produces a duplicate entry.
pub proof fn lemma_insert_lines_no_duplicates(acc: Seq<Seq<u8>>, ls: Seq<Seq<u8>>)
    requires
        acc.no_duplicates(),
    ensures
        insert_lines_spec(acc, ls).no_duplicates(),
    decreases ls.len(),
{
    if ls.len() > 0 {
        lemma_insert_lines_no_duplicates(acc, ls.drop_last());
        let prev = insert_lines_spec(acc, ls.drop_last());
        if !prev.contains(ls.last()) {
            assert(prev.push(ls.last()).no_duplicates()) by {
                let p = prev.push(ls.last());
                assert(forall|i: int| 0 <= i < prev.len() ==> p[i] == prev[i]);
                assert(forall|i: int, j: int|
                    0 <= i < j < p.len() && j < prev.len() ==> p[i] != p[j]);
                assert(forall|i: int| 0 <= i < prev.len() && p[i] == ls.last()
                    ==> prev.contains(ls.last()));
            }
        }
    }
}

/// Retaining with an always-true predicate keeps everything.
pub proof fn lemma_filter_true(s: Seq<Seq<u8>>, p: spec_fn(Seq<u8>) -> bool)
    requires
        forall|x: Seq<u8>| #[trigger] p(x),
    ensures
        s.filter(p) == s,
    decreases s.len(),
{
    reveal_with_fuel(Seq::<_>::filter, 2);
    if s.len() > 0 {
        lemma_filter_true(s.drop_last(), p);
        assert(s.drop_last().push(s.last()) =~= s);
    }
}

/// Retaining from a single-element sequence.
pub proof fn lemma_filter_singleton(x: Seq<u8>, p: spec_fn(Seq<u8>) -> bool)
    ensures
        seq![x].filter(p) == if p(x) { seq![x] } else { Seq::<Seq<u8>>::empty() },
{
    reveal_with_fuel(Seq::<_>::filter, 2);
    let s1: Seq<Seq<u8>> = seq![x];
    assert(s1.drop_last() =~= Seq::<Seq<u8>>::empty());
    if p(x) {
        assert(s1.drop_last().filter(p).push(x) =~= s1);
    }
}

/// Retaining twice, by `p` and then by `q`, retains by their conjunction.
pub proof fn lemma_filter_filter(
    s: Seq<Seq<u8>>,
    p: spec_fn(Seq<u8>) -> bool,
    q: spec_fn(Seq<u8>) -> bool,
    r: spec_fn(Seq<u8>) -> bool,
)
    requires
        forall|x: Seq<u8>| #[trigger] r(x) <==> (p(x) && q(x)),
    ensures
        s.filter(p).filter(q) == s.filter(r),
    decreases s.len(),
{
    reveal_with_fuel(Seq::<_>::filter, 2);
    if s.len() > 0 {
        let d = s.drop_last();
        let x = s.last();
        lemma_filter_filter(d, p, q, r);
        if p(x) {
            assert(s.filter(p) == d.filter(p).push(x));
            assert(d.filter(p).push(x) =~= d.filter(p) + seq![x]);
            Seq::filter_distributes_over_add(d.filter(p), seq![x], q);
            lemma_filter_singleton(x, q);
            if q(x) {
                assert(d.filter(p).filter(q) + seq![x] =~= d.filter(r).push(x));
            } else {
                assert(d.filter(p).filter(q) + Seq::<Seq<u8>>::empty() =~= d.filter(r));
            }
        }
    }
}

/// Retaining keeps exactly the members that satisfy the predicate.
pub proof fn lemma_filter_contains(s: Seq<Seq<u8>>, p: spec_fn(Seq<u8>) -> bool, x: Seq<u8>)
    ensures
        s.filter(p).contains(x) <==> (s.contains(x) && p(x)),
    decreases s.len(),
{
    reveal_with_fuel(Seq::<_>::filter, 2);
    if s.len() > 0 {
        let d = s.drop_last();
        lemma_filter_contains(d, p, x);
        lemma_push_contains(d, s.last(), x);
        assert(d.push(s.last()) =~= s);
        if p(s.last()) {
            lemma_push_contains(d.filter(p), s.last(), x);
        }
    }
}

/// Retaining from a duplicate-free sequence leaves it duplicate-free.
pub proof fn lemma_filter_no_duplicates(s: Seq<Seq<u8>>, p: spec_fn(Seq<u8>) -> bool)
    requires
        s.no_duplicates(),
    ensures
        s.filter(p).no_duplicates(),
    decreases s.len(),
{
    reveal_with_fuel(Seq::<_>::filter, 2);
    if s.len() > 0 {
        let d = s.drop_last();
        assert(d.no_duplicates()) by {
            assert(forall|i: int| 0 <= i < d.len() ==> d[i] == s[i]);
        }
        lemma_filter_no_duplicates(d, p);
        if p(s.last()) {
            assert(!d.contains(s.last())) by {
                assert(forall|i: int| 0 <= i < d.len() ==> #[trigger] d[i] != s[s.len() - 1]);
            }
            lemma_filter_contains(d, p, s.last());
            let out = d.filter(p).push(s.last());
            assert(out.no_duplicates()) by {
                let e = d.filter(p);
                assert(forall|i: int| 0 <= i < e.len() ==> out[i] == e[i]);
                assert(forall|i: int| 0 <= i < e.len() && out[i] == s.last()
                    ==> e.contains(s.last()));
            }
        }
    }
}

/// The position of the first occurrence of `x` in `s`.
pub open spec fn first_idx(s: Seq<Seq<u8>>, x: Seq<u8>) -> int
    decreases s.len(),
{
    if s.len() == 0 {
        0
    } else if s.first() == x {
        0
    } else {
        1 + first_idx(s.drop_first(), x)
    }
}

/// For a member of `s`, `first_idx` names a position holding `x` with no
/// earlier occurrence.
pub proof fn lemma_first_idx_props(s: Seq<Seq<u8>>, x: Seq<u8>)
    requires
        s.contains(x),
    ensures
        0 <= first_idx(s, x) < s.len(),
        s[first_idx(s, x)] == x,
        forall|k: int| 0 <= k < first_idx(s, x) ==> s[k] != x,
    decreases s.len(),
{
    if s.first() != x {
        let i = choose|i: int| 0 <= i < s.len() && s[i] == x;
        assert(s.drop_first()[i - 1] == x);
        lemma_first_idx_props(s.drop_first(), x);
        assert forall|k: int| 0 <= k < first_idx(s, x) implies s[k] != x by {
            if k > 0 {
                assert(s.drop_first()[k - 1] == s[k]);
            }
        }
    }
}

/// Dropping the final element does not move the first occurrence of a
/// member that survives.
pub proof fn lemma_first_idx_drop_last(s: Seq<Seq<u8>>, x: Seq<u8>)
    requires
        s.len() >= 1,
        s.drop_last().contains(x),
    ensures
        first_idx(s, x) == first_idx(s.drop_last(), x),
{
    let d = s.drop_last();
    assert(s.contains(x)) by {
        let i = choose|i: int| 0 <= i < d.len() && d[i] == x;
        assert(s[i] == x);
    }
    lemma_first_idx_props(s, x);
    lemma_first_idx_props(d, x);
    let f = first_idx(s, x);
    let fd = first_idx(d, x);
    if f < fd {
        assert(d[f] == s[f]);
    } else if fd < f {
        assert(s[fd] == d[fd]);
    }
}

/// Deduplication keeps the entries ordered by first occurrence in the
/// original sequence.
pub proof fn lemma_dedup_first_order(ls: Seq<Seq<u8>>)
    ensures
        forall|i: int, j: int| 0 <= i < j < dedup_first(ls).len()
            ==> first_idx(ls, dedup_first(ls)[i]) < first_idx(ls, dedup_first(ls)[j]),
    decreases ls.len(),
{
    if ls.len() > 0 {
        let d = ls.drop_last();
        let x = ls.last();
        lemma_dedup_first_order(d);
        let prev = dedup_first(d);
        let cur = dedup_first(ls);
        assert(ls.take(ls.len() - 1) =~= d);
        assert(insert_lines_spec(Seq::empty(), ls)
            == insert_line_spec(prev, x));
        assert forall|y: Seq<u8>| prev.contains(y) implies d.contains(y)
            && first_idx(ls, y) == first_idx(d, y) by {
            lemma_insert_lines_contains(Seq::empty(), d, y);
            lemma_first_idx_drop_last(ls, y);
        }
        if prev.contains(x) {
            assert(cur == prev);
        } else {
            assert(cur == prev.push(x));
            assert(!d.contains(x)) by {
                lemma_insert_lines_contains(Seq::empty(), d, x);
            }
            assert(ls.contains(x)) by {
                assert(ls[ls.len() - 1] == x);
            }
            lemma_first_idx_props(ls, x);
            assert(first_idx(ls, x) == ls.len() - 1) by {
                if first_idx(ls, x) < ls.len() - 1 {
                    assert(d[first_idx(ls, x)] == x);
                    assert(d.contains(x));
                }
            }
            assert forall|i: int, j: int| 0 <= i < j < cur.len()
                implies first_idx(ls, cur[i]) < first_idx(ls, cur[j]) by {
                assert(forall|k: int| 0 <= k < prev.len() ==> cur[k] == prev[k]);
                if j < prev.len() {
                    assert(first_idx(ls, prev[i]) < first_idx(ls, prev[j]));
                } else {
                    assert(cur[j] == x);
                    assert(prev.contains(prev[i]));
                    lemma_first_idx_props(d, cur[i]);
                }
            }
        }
    }
}

/// The deduplicated sequence has no duplicates and exactly the members of
/// the original.
pub proof fn lemma_dedup_first_basic(ls: Seq<Seq<u8>>)
    ensures
        dedup_first(ls).no_duplicates(),
        forall|x: Seq<u8>| dedup_first(ls).contains(x) <==> ls.contains(x),
{
    lemma_insert_lines_no_duplicates(Seq::empty(), ls);
    assert forall|x: Seq<u8>| dedup_first(ls).contains(x) <==> ls.contains(x) by {
        lemma_insert_lines_contains(Seq::empty(), ls, x);
    }
}

} // verus!
