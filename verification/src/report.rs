//! Sorting and selection of the aggregated results.
//!
//! Entries are ordered by collision count first and by the length of
//! their first sequence second, both ascending, so the states reached by
//! the fewest sequences come first and, among those, the ones reached by
//! the shortest combination. The sort is stable, so entries tied on both
//! keys keep their lock-state order, and the whole report is a pure
//! function of the aggregation table.

use vstd::prelude::*;
use crate::agg::Target;
use crate::agg::TargetModel;
use crate::agg::pairs_view;
use crate::lock::Lock;

verus! {

/// The report order: fewer collisions first, then shorter first
/// sequences.
pub open spec fn le_entry(a: (Seq<int>, TargetModel), b: (Seq<int>, TargetModel)) -> bool {
    a.1.count < b.1.count || (a.1.count == b.1.count && a.1.first.len() <= b.1.first.len())
}

/// Where a stable insertion places one entry in an ordered list: after
/// every entry that does not exceed it.
pub open spec fn insert_model(x: (Seq<int>, TargetModel), s: Seq<(Seq<int>, TargetModel)>) -> Seq<
    (Seq<int>, TargetModel),
>
    decreases s.len(),
{
    if s.len() == 0 {
        seq![x]
    } else if le_entry(s.last(), x) {
        s.push(x)
    } else {
        insert_model(x, s.drop_last()).push(s.last())
    }
}

/// The stable sort of a list of entries under the report order.
pub open spec fn sort_model(s: Seq<(Seq<int>, TargetModel)>) -> Seq<(Seq<int>, TargetModel)>
    decreases s.len(),
{
    if s.len() == 0 {
        Seq::empty()
    } else {
        insert_model(s.last(), sort_model(s.drop_last()))
    }
}

/// A list ordered under the report order.
pub open spec fn sorted_by_le(s: Seq<(Seq<int>, TargetModel)>) -> bool {
    forall|i: int, j: int| 0 <= i < j < s.len() ==> le_entry(#[trigger] s[i], #[trigger] s[j])
}

/// Insertion keeps exactly the old entries plus the new one.
pub proof fn lemma_insert_model_elems(x: (Seq<int>, TargetModel), s: Seq<(Seq<int>, TargetModel)>)
    ensures
        insert_model(x, s).len() == s.len() + 1,
        forall|e: (Seq<int>, TargetModel)|
            #[trigger] insert_model(x, s).contains(e) <==> (s.contains(e) || e == x),
    decreases s.len(),
{
    let r = insert_model(x, s);
    if s.len() == 0 {
        assert forall|e: (Seq<int>, TargetModel)| #[trigger]
            r.contains(e) <==> (s.contains(e) || e == x) by {
            assert(r[0] == x);
            if e == x {
                assert(r.contains(e));
            }
        }
    } else if le_entry(s.last(), x) {
        assert forall|e: (Seq<int>, TargetModel)| #[trigger]
            r.contains(e) <==> (s.contains(e) || e == x) by {
            if r.contains(e) {
                let i = choose|i: int| 0 <= i < r.len() && r[i] == e;
                if i < s.len() {
                    assert(s[i] == e);
                }
            }
            if s.contains(e) {
                let i = choose|i: int| 0 <= i < s.len() && s[i] == e;
                assert(r[i] == e);
            }
            if e == x {
                assert(r[s.len() as int] == e);
            }
        }
    } else {
        lemma_insert_model_elems(x, s.drop_last());
        let rr = insert_model(x, s.drop_last());
        assert forall|e: (Seq<int>, TargetModel)| #[trigger]
            r.contains(e) <==> (s.contains(e) || e == x) by {
            if r.contains(e) {
                let i = choose|i: int| 0 <= i < r.len() && r[i] == e;
                if i < rr.len() {
                    assert(rr.contains(e));
                    if s.drop_last().contains(e) {
                        let j = choose|j: int|
                            0 <= j < s.drop_last().len() && s.drop_last()[j] == e;
                        assert(s[j] == e);
                    }
                } else {
                    assert(e == s.last());
                    assert(s[s.len() - 1] == e);
                }
            }
            if s.contains(e) {
                let i = choose|i: int| 0 <= i < s.len() && s[i] == e;
                if i < s.len() - 1 {
                    assert(s.drop_last()[i] == e);
                    assert(rr.contains(e));
                    let j = choose|j: int| 0 <= j < rr.len() && rr[j] == e;
                    assert(r[j] == e);
                } else {
                    assert(r.last() == e);
                }
            }
            if e == x {
                assert(rr.contains(e));
                let j = choose|j: int| 0 <= j < rr.len() && rr[j] == e;
                assert(r[j] == e);
            }
        }
    }
}

/// Inserting into an ordered list keeps it ordered.
pub proof fn lemma_insert_model_sorted(x: (Seq<int>, TargetModel), s: Seq<(Seq<int>, TargetModel)>)
    requires
        sorted_by_le(s),
    ensures
        sorted_by_le(insert_model(x, s)),
    decreases s.len(),
{
    let r = insert_model(x, s);
    if s.len() == 0 {
    } else if le_entry(s.last(), x) {
    } else {
        assert(sorted_by_le(s.drop_last()));
        lemma_insert_model_sorted(x, s.drop_last());
        lemma_insert_model_elems(x, s.drop_last());
        let rr = insert_model(x, s.drop_last());
        assert forall|i: int, j: int| 0 <= i < j < r.len() implies le_entry(
            #[trigger] r[i],
            #[trigger] r[j],
        ) by {
            if j < r.len() - 1 {
                assert(le_entry(rr[i], rr[j]));
            } else {
                assert(r[j] == s.last());
                assert(rr.contains(rr[i]));
                if s.drop_last().contains(rr[i]) {
                    let m = choose|m: int|
                        0 <= m < s.drop_last().len() && s.drop_last()[m] == rr[i];
                    assert(le_entry(s[m], s.last()));
                } else {
                    assert(rr[i] == x);
                    assert(le_entry(x, s.last()));
                }
            }
        }
    }
}

/// The sorted list is ordered and holds exactly the entries it was
/// given.
pub proof fn lemma_sort_model_props(s: Seq<(Seq<int>, TargetModel)>)
    ensures
        sorted_by_le(sort_model(s)),
        sort_model(s).len() == s.len(),
        forall|e: (Seq<int>, TargetModel)|
            #[trigger] sort_model(s).contains(e) <==> s.contains(e),
    decreases s.len(),
{
    if s.len() > 0 {
        lemma_sort_model_props(s.drop_last());
        lemma_insert_model_sorted(s.last(), sort_model(s.drop_last()));
        lemma_insert_model_elems(s.last(), sort_model(s.drop_last()));
        let r = sort_model(s);
        assert forall|e: (Seq<int>, TargetModel)| #[trigger]
            r.contains(e) <==> s.contains(e) by {
            if r.contains(e) {
                if sort_model(s.drop_last()).contains(e) {
                    assert(s.drop_last().contains(e));
                    let i = choose|i: int| 0 <= i < s.drop_last().len() && s.drop_last()[i] == e;
                    assert(s[i] == e);
                } else {
                    assert(s[s.len() - 1] == e);
                }
            }
            if s.contains(e) {
                let i = choose|i: int| 0 <= i < s.len() && s[i] == e;
                if i < s.len() - 1 {
                    assert(s.drop_last()[i] == e);
                    assert(sort_model(s.drop_last()).contains(e));
                }
            }
        }
    }
}

/// The first entry of the sorted report is a best one: no entry it was
/// built from has a smaller collision count, nor, at equal count, a
/// shorter first sequence.
pub proof fn lemma_front_is_best(s: Seq<(Seq<int>, TargetModel)>)
    requires
        s.len() > 0,
    ensures
        sort_model(s).len() == s.len(),
        s.contains(sort_model(s)[0]),
        forall|i: int| 0 <= i < s.len() ==> le_entry(sort_model(s)[0], #[trigger] s[i]),
{
    lemma_sort_model_props(s);
    let r = sort_model(s);
    assert(r.contains(r[0]));
    assert forall|i: int| 0 <= i < s.len() implies le_entry(r[0], #[trigger] s[i]) by {
        assert(s.contains(s[i]));
        assert(r.contains(s[i]));
        let j = choose|j: int| 0 <= j < r.len() && r[j] == s[i];
        if j > 0 {
            assert(le_entry(r[0], r[j]));
        }
    }
}

/// The report comparison on entries.
fn entry_le(a: &(Lock, Target), b: &(Lock, Target)) -> (r: bool)
    ensures
        r == le_entry(a@, b@),
{
    a.1.count < b.1.count || (a.1.count == b.1.count && a.1.seq.len() <= b.1.seq.len())
}

/// Insert one entry into an already sorted list, after every entry that
/// does not exceed it.
fn insert_sorted(s: Vec<(Lock, Target)>, x: (Lock, Target)) -> (r: Vec<(Lock, Target)>)
    ensures
        pairs_view(r@) == insert_model(x@, pairs_view(s@)),
    decreases s@.len(),
{
    let ghost sm = pairs_view(s@);
    if s.len() == 0 {
        let mut r = s;
        r.push(x);
        proof {
            assert(pairs_view(r@) =~= insert_model(x@, sm));
        }
        r
    } else {
        let fits = entry_le(&s[s.len() - 1], &x);
        proof {
            assert(sm.last() == s@.last()@);
        }
        if fits {
            let mut r = s;
            r.push(x);
            proof {
                assert(pairs_view(r@) =~= sm.push(x@));
            }
            r
        } else {
            let mut s2 = s;
            let last = s2.pop().unwrap();
            proof {
                assert(pairs_view(s2@) =~= sm.drop_last());
            }
            let mut r = insert_sorted(s2, x);
            r.push(last);
            proof {
                assert(pairs_view(r@) =~= insert_model(x@, sm.drop_last()).push(sm.last()));
            }
            r
        }
    }
}

/// Sort the entries by collision count, then by the length of the first
/// sequence, keeping lock-state order among full ties.
pub fn sort_entries(input: Vec<(Lock, Target)>) -> (r: Vec<(Lock, Target)>)
    ensures
        pairs_view(r@) == sort_model(pairs_view(input@)),
    decreases input@.len(),
{
    let ghost im = pairs_view(input@);
    if input.len() == 0 {
        proof {
            assert(pairs_view(input@) =~= sort_model(im));
        }
        input
    } else {
        let mut input2 = input;
        let x = input2.pop().unwrap();
        proof {
            assert(pairs_view(input2@) =~= im.drop_last());
            assert(x@ == im.last());
        }
        let sorted = sort_entries(input2);
        insert_sorted(sorted, x)
    }
}

/// How many leading entries of the sorted report tie the lowest
/// collision count: the "best" states. Zero only for an empty report.
pub fn best_span(sorted: &Vec<(Lock, Target)>) -> (n: usize)
    ensures
        sorted@.len() == 0 ==> n == 0,
        sorted@.len() > 0 ==> 1 <= n <= sorted@.len(),
        forall|i: int|
            0 <= i < n ==> (#[trigger] pairs_view(sorted@)[i]).1.count == pairs_view(
                sorted@,
            )[0].1.count,
        n < sorted@.len() ==> pairs_view(sorted@)[n as int].1.count != pairs_view(
            sorted@,
        )[0].1.count,
{
    if sorted.len() == 0 {
        return 0;
    }
    let best = sorted[0].1.count;
    let mut n: usize = 1;
    while n < sorted.len() && sorted[n].1.count == best
        invariant
            1 <= n <= sorted@.len(),
            best == sorted@[0].1.count,
            forall|i: int| 0 <= i < n ==> sorted@[i].1.count == best,
        decreases sorted@.len() - n,
    {
        n = n + 1;
    }
    n
}

} // verus!
