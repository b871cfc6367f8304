//! Facts about sequences that hold the same items in another order.
use vstd::multiset::Multiset;
use vstd::prelude::*;

verus! {

broadcast use {vstd::seq_lib::group_to_multiset_ensures, vstd::multiset::group_multiset_axioms};

/// Mapping a function over two sequences with the same items gives two
/// sequences with the same items.
pub proof fn lemma_map_perm<A, B>(s1: Seq<A>, s2: Seq<A>, f: spec_fn(A) -> B)
    requires
        s1.to_multiset() == s2.to_multiset(),
    ensures
        s1.map_values(f).to_multiset() == s2.map_values(f).to_multiset(),
    decreases s1.len(),
{
    if s1.len() == 0 {
        vstd::seq_lib::to_multiset_len(s1);
        vstd::seq_lib::to_multiset_len(s2);
        assert(s2.len() == 0);
        assert(s1.map_values(f) =~= s2.map_values(f));
    } else {
        let x = s1.last();
        let rest = s1.drop_last();
        assert(s1 =~= rest.push(x));
        assert(s2.to_multiset().count(x) > 0);
        assert(s2.contains(x));
        let j = choose|j: int| 0 <= j < s2.len() && s2[j] == x;
        let s2r = s2.remove(j);
        assert(s2r.to_multiset() =~= rest.to_multiset());
        lemma_map_perm(rest, s2r, f);
        let m2 = s2.map_values(f);
        assert(s1.map_values(f) =~= rest.map_values(f).push(f(x)));
        assert(m2.remove(j) =~= s2r.map_values(f));
        assert(m2[j] == f(x));
        assert(m2.to_multiset().count(f(x)) > 0) by {
            assert(m2.contains(f(x)));
        }
        assert(m2.remove(j).to_multiset() == m2.to_multiset().remove(f(x)));
        assert(m2.to_multiset() =~= m2.to_multiset().remove(f(x)).insert(f(x)));
    }
}

} // verus!

verus! {

/// Sum of `f` over a sequence.
pub open spec fn sum_of<A>(s: Seq<A>, f: spec_fn(A) -> int) -> int
    decreases s.len(),
{
    if s.len() == 0 {
        0
    } else {
        sum_of(s.drop_last(), f) + f(s.last())
    }
}

/// Union of the multisets `f` gives for each item of a sequence.
pub open spec fn bag_of<A, B>(s: Seq<A>, f: spec_fn(A) -> Multiset<B>) -> Multiset<B>
    decreases s.len(),
{
    if s.len() == 0 {
        Multiset::empty()
    } else {
        bag_of(s.drop_last(), f).add(f(s.last()))
    }
}

proof fn lemma_sum_remove<A>(s: Seq<A>, j: int, f: spec_fn(A) -> int)
    requires
        0 <= j < s.len(),
    ensures
        sum_of(s, f) == sum_of(s.remove(j), f) + f(s[j]),
    decreases s.len(),
{
    if j == s.len() - 1 {
        assert(s.remove(j) =~= s.drop_last());
    } else {
        lemma_sum_remove(s.drop_last(), j, f);
        assert(s.remove(j).drop_last() =~= s.drop_last().remove(j));
        assert(s.remove(j).last() == s.last());
    }
}

proof fn lemma_bag_remove<A, B>(s: Seq<A>, j: int, f: spec_fn(A) -> Multiset<B>)
    requires
        0 <= j < s.len(),
    ensures
        bag_of(s, f) == bag_of(s.remove(j), f).add(f(s[j])),
    decreases s.len(),
{
    if j == s.len() - 1 {
        assert(s.remove(j) =~= s.drop_last());
    } else {
        lemma_bag_remove(s.drop_last(), j, f);
        assert(s.remove(j).drop_last() =~= s.drop_last().remove(j));
        assert(s.remove(j).last() == s.last());
        assert(bag_of(s, f) =~= bag_of(s.remove(j), f).add(f(s[j])));
    }
}

/// The last item of `s1` stands somewhere in `s2`, and removing it there
/// leaves the items of `s1` but its last.
proof fn lemma_match_last<A>(s1: Seq<A>, s2: Seq<A>) -> (j: int)
    requires
        s1.to_multiset() == s2.to_multiset(),
        s1.len() > 0,
    ensures
        0 <= j < s2.len(),
        s2[j] == s1.last(),
        s2.remove(j).to_multiset() == s1.drop_last().to_multiset(),
{
    let x = s1.last();
    assert(s1 =~= s1.drop_last().push(x));
    assert(s2.to_multiset().count(x) > 0);
    assert(s2.contains(x));
    let j = choose|j: int| 0 <= j < s2.len() && s2[j] == x;
    assert(s2.remove(j).to_multiset() =~= s1.drop_last().to_multiset());
    j
}

/// A sum does not depend on the order of the items.
pub proof fn lemma_sum_perm<A>(s1: Seq<A>, s2: Seq<A>, f: spec_fn(A) -> int)
    requires
        s1.to_multiset() == s2.to_multiset(),
    ensures
        sum_of(s1, f) == sum_of(s2, f),
    decreases s1.len(),
{
    if s1.len() == 0 {
        vstd::seq_lib::to_multiset_len(s1);
        vstd::seq_lib::to_multiset_len(s2);
    } else {
        let j = lemma_match_last(s1, s2);
        lemma_sum_perm(s1.drop_last(), s2.remove(j), f);
        lemma_sum_remove(s2, j, f);
    }
}

/// A union of multisets does not depend on the order of the items.
pub proof fn lemma_bag_perm<A, B>(s1: Seq<A>, s2: Seq<A>, f: spec_fn(A) -> Multiset<B>)
    requires
        s1.to_multiset() == s2.to_multiset(),
    ensures
        bag_of(s1, f) == bag_of(s2, f),
    decreases s1.len(),
{
    if s1.len() == 0 {
        vstd::seq_lib::to_multiset_len(s1);
        vstd::seq_lib::to_multiset_len(s2);
        assert(s2.len() == 0);
    } else {
        let j = lemma_match_last(s1, s2);
        lemma_bag_perm(s1.drop_last(), s2.remove(j), f);
        lemma_bag_remove(s2, j, f);
    }
}

} // verus!
