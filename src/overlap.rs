//! The two overlap statistics between interval collections.
use crate::intervals::{hits, set_items, IntervalSet, Iv};
use vstd::prelude::*;

verus! {

/// Sum over the intervals of `a` of the number of intervals of `b` each one hits.
pub open spec fn count_all_spec(a: Seq<Iv>, b: Seq<Iv>) -> nat
    decreases a.len(),
{
    if a.len() == 0 {
        0
    } else {
        count_all_spec(a.drop_last(), b) + hits(b, a.last().0, a.last().1).len()
    }
}

/// Number of intervals of `a` that hit at least one interval of `b`.
pub open spec fn count_any_spec(a: Seq<Iv>, b: Seq<Iv>) -> nat
    decreases a.len(),
{
    if a.len() == 0 {
        0
    } else {
        count_any_spec(a.drop_last(), b) + if hits(b, a.last().0, a.last().1).len() > 0 {
            1nat
        } else {
            0nat
        }
    }
}

/// Every interval of `a` hits at most one interval of `b`.
pub open spec fn hits_at_most_one(a: Seq<Iv>, b: Seq<Iv>) -> bool {
    forall|i: int| 0 <= i < a.len() ==> hits(b, (#[trigger] a[i]).0, a[i].1).len() <= 1
}

proof fn lemma_hits_len(b: Seq<Iv>, lo: u64, hi: u64)
    ensures
        hits(b, lo, hi).len() <= b.len(),
{
    broadcast use vstd::seq_lib::group_filter_ensures;


}

proof fn lemma_count_all_bound(a: Seq<Iv>, b: Seq<Iv>)
    ensures
        count_all_spec(a, b) <= a.len() * b.len(),
    decreases a.len(),
{
    if a.len() > 0 {
        lemma_count_all_bound(a.drop_last(), b);
        lemma_hits_len(b, a.last().0, a.last().1);
        let n = a.len() - 1;
        assert(n * b.len() + b.len() == a.len() * b.len()) by (nonlinear_arith)
            requires n == a.len() - 1;
    }
}

/// Counting any hit never exceeds counting every hit, and the two agree when
/// no interval of `a` hits more than one interval of `b`.
pub proof fn lemma_any_le_all(a: Seq<Iv>, b: Seq<Iv>)
    ensures
        count_any_spec(a, b) <= count_all_spec(a, b),
        hits_at_most_one(a, b) ==> count_any_spec(a, b) == count_all_spec(a, b),
    decreases a.len(),
{
    if a.len() > 0 {
        lemma_any_le_all(a.drop_last(), b);
        if hits_at_most_one(a, b) {
            assert(hits_at_most_one(a.drop_last(), b)) by {
                assert forall|i: int| 0 <= i < a.drop_last().len() implies hits(
                    b,
                    (#[trigger] a.drop_last()[i]).0,
                    a.drop_last()[i].1,
                ).len() <= 1 by {
                    assert(a.drop_last()[i] == a[i]);
                }
            }
            assert(a.last() == a[a.len() - 1]);
        }
    }
}

/// Number of B-intervals hit by each A-interval, summed over A.
pub fn get_num_overlap_count(a_lap: &IntervalSet, b_lap: &IntervalSet) -> (r: u64)
    requires
        set_items(*a_lap).len() * set_items(*b_lap).len() <= u64::MAX,
    ensures
        r == count_all_spec(set_items(*a_lap), set_items(*b_lap)),
{
    let a = a_lap.items();
    let ghost b = set_items(*b_lap);
    let mut total: u64 = 0;
    let mut i: usize = 0;
    while i < a.len()
        invariant
            a@ == set_items(*a_lap),
            b == set_items(*b_lap),
            a@.len() * b.len() <= u64::MAX,
            0 <= i <= a@.len(),
            total == count_all_spec(a@.take(i as int), b),
        decreases a@.len() - i,
    {
        let found = b_lap.find(a[i].0, a[i].1);
        proof {
            let t = a@.take(i as int + 1);
            assert(t.drop_last() =~= a@.take(i as int));
            assert(t.last() == a@[i as int]);
            lemma_count_all_bound(t, b);
            assert(t.len() * b.len() <= a@.len() * b.len()) by (nonlinear_arith)
                requires t.len() <= a@.len();
        }
        total = total + found.len() as u64;
        i = i + 1;
    }
    assert(a@.take(a@.len() as int) =~= a@);
    total
}

/// Number of A-intervals that hit at least one B-interval.
pub fn get_any_overlap_count(a_lap: &IntervalSet, b_lap: &IntervalSet) -> (r: u64)
    ensures
        r == count_any_spec(set_items(*a_lap), set_items(*b_lap)),
{
    let a = a_lap.items();
    let ghost b = set_items(*b_lap);
    let mut total: u64 = 0;
    let mut i: usize = 0;
    while i < a.len()
        invariant
            a@ == set_items(*a_lap),
            b == set_items(*b_lap),
            0 <= i <= a@.len(),
            total == count_any_spec(a@.take(i as int), b),
            total <= i,
        decreases a@.len() - i,
    {
        let found = b_lap.find(a[i].0, a[i].1);
        proof {
            let t = a@.take(i as int + 1);
            assert(t.drop_last() =~= a@.take(i as int));
            assert(t.last() == a@[i as int]);
        }
        if found.len() > 0 {
            total = total + 1;
        }
        i = i + 1;
    }
    assert(a@.take(a@.len() as int) =~= a@);
    total
}

} // verus!
