//! Interval collections, held in a `rust_lapper::Lapper`, and the facts about
//! them that the rest of the library relies on.
use rust_lapper::{Interval, Lapper};
use vstd::prelude::*;

verus! {

/// An interval as plain values: `(start, stop, val)`, half-open `[start, stop)`.
pub type Iv = (u64, u64, u64);

/// Does `iv` intersect the half-open range `[lo, hi)`?
pub open spec fn overlaps(iv: Iv, lo: u64, hi: u64) -> bool {
    iv.0 < hi && iv.1 > lo
}

/// Length of an interval.
pub open spec fn iv_len(iv: Iv) -> int {
    iv.1 - iv.0
}

/// Every interval is non-empty.
pub open spec fn all_valid(s: Seq<Iv>) -> bool {
    forall|i: int| 0 <= i < s.len() ==> (#[trigger] s[i]).0 < s[i].1
}

/// Intervals come in ascending order of start.
pub open spec fn sorted_by_start(s: Seq<Iv>) -> bool {
    forall|i: int, j: int| 0 <= i < j < s.len() ==> (#[trigger] s[i]).0 <= (#[trigger] s[j]).0
}

/// Consecutive intervals neither overlap nor touch.
pub open spec fn separated(s: Seq<Iv>) -> bool {
    forall|i: int| 0 <= i < s.len() - 1 ==> (#[trigger] s[i]).1 < s[i + 1].0
}

/// The positions covered by at least one interval.
pub open spec fn covered(s: Seq<Iv>) -> Set<int> {
    Set::new(|p: int| exists|i: int| 0 <= i < s.len() && (#[trigger] s[i]).0 <= p < s[i].1)
}

/// The intervals of `s` that intersect `[lo, hi)`, in the order of `s`.
pub open spec fn hits(s: Seq<Iv>, lo: u64, hi: u64) -> Seq<Iv> {
    s.filter(|iv: Iv| overlaps(iv, lo, hi))
}

/// The intervals a collection holds, in its iteration order.
pub uninterp spec fn set_items(s: IntervalSet) -> Seq<Iv>;

/// A queryable collection of intervals.
#[verifier::external_body]
pub struct IntervalSet {
    inner: Lapper<u64, u64>,
}

impl IntervalSet {
    /// Relies on `Lapper::new`: it keeps every interval it is given and sorts
    /// them by start.
    #[verifier::external_body]
    pub fn from_intervals(v: Vec<Iv>) -> (r: IntervalSet)
        ensures
            set_items(r).to_multiset() =~= v@.to_multiset(),
            sorted_by_start(set_items(r)),
    {
        IntervalSet {
            inner: Lapper::new(
                v.into_iter().map(|(start, stop, val)| Interval { start, stop, val }).collect(),
            ),
        }
    }

    /// Relies on `Lapper::iter`: it walks the stored intervals in order.
    #[verifier::external_body]
    pub fn items(&self) -> (r: Vec<Iv>)
        ensures
            r@ == set_items(*self),
    {
        self.inner.iter().map(|i| (i.start, i.stop, i.val)).collect()
    }

    /// Relies on `Lapper::len`: the number of stored intervals.
    #[verifier::external_body]
    pub fn len(&self) -> (r: usize)
        ensures
            r == set_items(*self).len(),
    {
        self.inner.len()
    }

    /// Relies on `Lapper::find`: on intervals sorted by start it yields, in
    /// order, exactly those that intersect `[lo, hi)`.
    #[verifier::external_body]
    pub(crate) fn find(&self, lo: u64, hi: u64) -> (r: Vec<Iv>)
        ensures
            r@ == hits(set_items(*self), lo, hi),
    {
        self.inner.find(lo, hi).map(|i| (i.start, i.stop, i.val)).collect()
    }

    /// Relies on `Lapper::cov`: the number of positions that some interval covers.
    #[verifier::external_body]
    pub(crate) fn cov(&self) -> (r: u64)
        requires
            all_valid(set_items(*self)),
        ensures
            r == covered(set_items(*self)).len(),
    {
        self.inner.cov()
    }

    /// Relies on `Lapper::merge_overlaps`: overlapping or touching intervals are
    /// joined into maximal spans, which keeps the covered positions.
    #[verifier::external_body]
    pub(crate) fn merge_overlaps(&mut self)
        requires
            all_valid(set_items(*old(self))),
        ensures
            covered(set_items(*final(self))) == covered(set_items(*old(self))),
            all_valid(set_items(*final(self))),
            separated(set_items(*final(self))),
            set_items(*final(self)).len() <= set_items(*old(self)).len(),
    {
        self.inner.merge_overlaps()
    }

    /// Relies on `Lapper`'s `Clone`: the copy holds the same intervals.
    #[verifier::external_body]
    pub fn duplicate(&self) -> (r: IntervalSet)
        ensures
            set_items(r) == set_items(*self),
    {
        IntervalSet { inner: self.inner.clone() }
    }
}

} // verus!
