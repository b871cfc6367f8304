//! Non-overlapping relocation: each region's uncovered length is cut into
//! random gap pieces, shuffled together with the interval lengths, and laid
//! out end to end.
use crate::bag::{bag_of, lemma_bag_perm, lemma_sum_perm, sum_of};
use crate::intervals::{hits, iv_len, set_items, IntervalSet, Iv};
use crate::randomize::{inside, len_bag, Genome, RandomizeError};
use std::collections::HashMap;
use crate::rng::{draw_range, shuffle_pieces};
use tinyrand::Wyrand;
use vstd::multiset::Multiset;
use vstd::prelude::*;

verus! {

broadcast use {vstd::seq_lib::group_to_multiset_ensures, vstd::multiset::group_multiset_axioms};

/// Gap pieces are drawn no longer than the remaining budget divided by this,
/// which keeps them small and many.
pub const GAP_DIVISOR: u64 = 10000;

/// A piece of a region: `(true, len)` is an interval, `(false, len)` a gap.
pub type Piece = (bool, u64);

pub open spec fn piece_len() -> spec_fn(Piece) -> int {
    |p: Piece| p.1 as int
}

pub open spec fn piece_real() -> spec_fn(Piece) -> Multiset<int> {
    |p: Piece|
        if p.0 {
            Multiset::singleton(p.1 as int)
        } else {
            Multiset::empty()
        }
}

/// Total length of some pieces.
pub open spec fn total(s: Seq<Piece>) -> int {
    sum_of(s, piece_len())
}

/// Multiset of the lengths of the interval pieces.
pub open spec fn real_lens(s: Seq<Piece>) -> Multiset<int> {
    bag_of(s, piece_real())
}

pub open spec fn iv_len_fn() -> spec_fn(Iv) -> int {
    |iv: Iv| iv_len(iv)
}

/// The intervals that laying `s` end to end from `lo` produces.
pub open spec fn laid_out(s: Seq<Piece>, lo: int) -> Seq<Iv>
    decreases s.len(),
{
    if s.len() == 0 {
        Seq::empty()
    } else {
        let prev = laid_out(s.drop_last(), lo);
        let c = lo + total(s.drop_last());
        if s.last().0 {
            prev.push((c as u64, (c + s.last().1) as u64, 0u64))
        } else {
            prev
        }
    }
}

proof fn lemma_total_push(s: Seq<Piece>, x: Piece)
    ensures
        total(s.push(x)) == total(s) + x.1,
        real_lens(s.push(x)) == real_lens(s).add(piece_real()(x)),
{
    assert(s.push(x).drop_last() =~= s);
}

proof fn lemma_total_prefix(s: Seq<Piece>, k: int)
    requires
        0 <= k <= s.len(),
    ensures
        0 <= total(s.take(k)) <= total(s),
    decreases s.len(),
{
    if k == s.len() {
        assert(s.take(k) =~= s);
        if s.len() > 0 {
            lemma_total_prefix(s.drop_last(), k - 1);
            assert(s.drop_last().take(k - 1) =~= s.drop_last());
        }
    } else {
        lemma_total_prefix(s.drop_last(), k);
        assert(s.drop_last().take(k) =~= s.take(k));
    }
}

pub proof fn lemma_len_bag_push(s: Seq<Iv>, x: Iv)
    ensures
        len_bag(s.push(x)) == len_bag(s).insert(iv_len(x)),
{
    assert(s.push(x).map_values(|iv: Iv| iv_len(iv)) =~= s.map_values(|iv: Iv| iv_len(iv)).push(iv_len(x)));
}

/// Laying pieces end to end from `lo` gives intervals that follow one another
/// without overlapping, that stay inside `[lo, lo + total)`, and whose lengths
/// are those of the interval pieces.
pub proof fn lemma_laid_out(s: Seq<Piece>, lo: int)
    requires
        0 <= lo,
        lo + total(s) <= u64::MAX,
    ensures
        total(s) >= 0,
        forall|i: int| 0 <= i < laid_out(s, lo).len() ==> lo <= (#[trigger] laid_out(s, lo)[i]).0 <= laid_out(s, lo)[i].1 <= lo + total(s),
        forall|i: int, j: int| 0 <= i < j < laid_out(s, lo).len() ==> (#[trigger] laid_out(s, lo)[i]).1 <= (#[trigger] laid_out(s, lo)[j]).0,
        len_bag(laid_out(s, lo)) == real_lens(s),
    decreases s.len(),
{
    if s.len() == 0 {
        assert(len_bag(laid_out(s, lo)) =~= Multiset::empty());
    } else {
        let p = s.drop_last();
        lemma_total_prefix(s, s.len() - 1);
        assert(s.take(s.len() - 1) =~= p);
        lemma_laid_out(p, lo);
        let c = lo + total(p);
        let prev = laid_out(p, lo);
        if s.last().0 {
            let x = (c as u64, (c + s.last().1) as u64, 0u64);
            lemma_len_bag_push(prev, x);
            assert(len_bag(laid_out(s, lo)) =~= real_lens(s));
        } else {
            assert(len_bag(laid_out(s, lo)) =~= real_lens(s));
        }
    }
}

/// Lays the pieces end to end from `lo`; nothing when they run past `hi`.
pub fn lay_out(pieces: &Vec<Piece>, lo: u64, hi: u64) -> (r: Option<Vec<Iv>>)
    ensures
        r is Some <==> lo + total(pieces@) <= hi,
        r matches Some(v) ==> v@ == laid_out(pieces@, lo as int),
{
    if lo > hi {
        proof {
            lemma_total_prefix(pieces@, 0);
        }
        return None;
    }
    let mut cur = lo;
    let mut out: Vec<Iv> = Vec::new();
    let mut i: usize = 0;
    proof {
        assert(pieces@.take(0) =~= Seq::<Piece>::empty());
    }
    while i < pieces.len()
        invariant
            0 <= i <= pieces@.len(),
            cur == lo + total(pieces@.take(i as int)),
            cur <= hi,
            out@ == laid_out(pieces@.take(i as int), lo as int),
        decreases pieces@.len() - i,
    {
        let (is_real, len) = pieces[i];
        proof {
            let t = pieces@.take(i as int + 1);
            assert(t.drop_last() =~= pieces@.take(i as int));
            assert(t.last() == pieces@[i as int]);
            lemma_total_push(pieces@.take(i as int), pieces@[i as int]);
            assert(t =~= pieces@.take(i as int).push(pieces@[i as int]));
        }
        if len > hi - cur {
            proof {
                lemma_total_prefix(pieces@, i as int + 1);
            }
            return None;
        }
        if is_real {
            out.push((cur, cur + len, 0));
        }
        cur = cur + len;
        i = i + 1;
    }
    assert(pieces@.take(pieces@.len() as int) =~= pieces@);
    Some(out)
}

/// Gap pieces are shorter than the larger of 2 and the budget divided by
/// `GAP_DIVISOR`.
pub open spec fn gap_cap(m_gap: u64) -> int {
    if m_gap / GAP_DIVISOR > 2 {
        (m_gap / GAP_DIVISOR) as int
    } else {
        2
    }
}

/// Cuts a gap budget into random gap pieces of length at least one.
pub fn draw_gaps(m_gap: u64, rng: &mut Wyrand) -> (r: Vec<Piece>)
    ensures
        total(r@) == m_gap,
        real_lens(r@) == Multiset::<int>::empty(),
        forall|i: int| 0 <= i < r@.len() ==> !(#[trigger] r@[i]).0 && r@[i].1 >= 1,
        forall|i: int| 0 <= i < r@.len() ==> (#[trigger] r@[i]).1 < gap_cap(m_gap),
{
    let mut left = m_gap;
    let mut out: Vec<Piece> = Vec::new();
    proof {
        assert(real_lens(out@) =~= Multiset::<int>::empty());
    }
    while left > 0
        invariant
            total(out@) + left == m_gap,
            real_lens(out@) == Multiset::<int>::empty(),
            forall|i: int| 0 <= i < out@.len() ==> !(#[trigger] out@[i]).0 && out@[i].1 >= 1,
            forall|i: int| 0 <= i < out@.len() ==> (#[trigger] out@[i]).1 < gap_cap(m_gap),
            left <= m_gap,
        decreases left,
    {
        let cap = if left / GAP_DIVISOR > 2 { left / GAP_DIVISOR } else { 2 };
        let g = draw_range(rng, 1, cap);
        assert(cap <= gap_cap(m_gap)) by {
            assert(left / 10000 <= m_gap / 10000) by (nonlinear_arith)
                requires
                    left <= m_gap,
            ;
        }
        assert(g <= left) by (nonlinear_arith)
            requires
                1 <= g < cap,
                cap == 2 || cap == left / 10000,
                left >= 1,
        ;
        proof {
            lemma_total_push(out@, (false, g));
            assert(real_lens(out@).add(piece_real()((false, g))) =~= Multiset::<int>::empty());
        }
        out.push((false, g));
        left = left - g;
    }
    out
}

} // verus!

verus! {

proof fn lemma_hits_valid(s: Seq<Iv>, lo: u64, hi: u64)
    requires
        crate::intervals::all_valid(s),
    ensures
        crate::intervals::all_valid(hits(s, lo, hi)),
{
    assert forall|i: int| 0 <= i < hits(s, lo, hi).len() implies (#[trigger] hits(s, lo, hi)[i]).0 < hits(s, lo, hi)[i].1 by {
        let h = hits(s, lo, hi);
        assert(h.contains(h[i]));
        s.lemma_filter_contains_rev(|iv: Iv| crate::intervals::overlaps(iv, lo, hi), h[i]);
    }
}

/// `v` is what relocation inside region `r` with gap budget `m` may give:
/// it follows one another from the region start, ends by
/// `r.0 + m + (lengths of the intervals that hit r)`, and is the interval
/// pieces of some pieces laid end to end from `r.0`, whose gaps are non-empty,
/// whose interval lengths are those of the intervals that hit `r`, and whose
/// total is the budget plus those lengths.
pub open spec fn region_block(items: Seq<Iv>, r: Iv, m: u64, v: Seq<Iv>) -> bool {
    let h = hits(items, r.0, r.1);
    &&& len_bag(v) == len_bag(h)
    &&& forall|i: int| 0 <= i < v.len() ==> r.0 <= (#[trigger] v[i]).0 && v[i].1 <= r.0 + m + sum_of(h, iv_len_fn())
    &&& forall|i: int, j: int| 0 <= i < j < v.len() ==> (#[trigger] v[i]).1 <= (#[trigger] v[j]).0
    &&& exists|p: Seq<Piece>| #[trigger] laid_out(p, r.0 as int) == v && real_lens(p) == len_bag(h)
        && total(p) == m + sum_of(h, iv_len_fn())
        && forall|i: int| 0 <= i < p.len() ==> (#[trigger] p[i]).0 || p[i].1 >= 1
}

/// Relocates, inside `region`, the intervals of `intv` that hit it, between
/// `m_gap` bases of random gaps; nothing when they do not fit.
pub fn novl_region(intv: &IntervalSet, region: Iv, m_gap: u64, rng: &mut Wyrand) -> (r: Option<Vec<Iv>>)
    requires
        crate::intervals::all_valid(set_items(*intv)),
    ensures
        r is Some <==> region.0 + m_gap + sum_of(hits(set_items(*intv), region.0, region.1), iv_len_fn()) <= region.1,
        r matches Some(v) ==> forall|i: int| 0 <= i < v@.len() ==> inside(#[trigger] v@[i], (region.0, region.1)),
        r matches Some(v) ==> forall|i: int, j: int| 0 <= i < j < v@.len() ==> (#[trigger] v@[i]).1 <= (#[trigger] v@[j]).0,
        r matches Some(v) ==> len_bag(v@) == len_bag(hits(set_items(*intv), region.0, region.1)),
        r matches Some(v) ==> region_block(set_items(*intv), region, m_gap, v@),
{
    let mut pieces = draw_gaps(m_gap, rng);
    let found = intv.find(region.0, region.1);
    let ghost h = hits(set_items(*intv), region.0, region.1);
    proof {
        lemma_hits_valid(set_items(*intv), region.0, region.1);
        assert(found@.take(0) =~= Seq::<Iv>::empty());
        assert(len_bag(Seq::<Iv>::empty()) =~= Multiset::empty());
    }
    let mut k: usize = 0;
    while k < found.len()
        invariant
            found@ == h,
            crate::intervals::all_valid(h),
            0 <= k <= h.len(),
            total(pieces@) == m_gap + sum_of(h.take(k as int), iv_len_fn()),
            real_lens(pieces@) == len_bag(h.take(k as int)),
            forall|i: int| 0 <= i < pieces@.len() ==> (#[trigger] pieces@[i]).0 || pieces@[i].1 >= 1,
        decreases h.len() - k,
    {
        let x = found[k];
        assert(x.0 < x.1);
        let t = (true, x.1 - x.0);
        proof {
            lemma_total_push(pieces@, t);
            let nt = h.take(k as int + 1);
            assert(nt.drop_last() =~= h.take(k as int));
            assert(nt =~= h.take(k as int).push(x));
            lemma_len_bag_push(h.take(k as int), x);
            assert(real_lens(pieces@).add(piece_real()(t)) =~= len_bag(h.take(k as int)).insert(iv_len(x)));
        }
        pieces.push(t);
        k = k + 1;
    }
    proof {
        assert(h.take(h.len() as int) =~= h);
    }
    let ghost before = pieces@;
    shuffle_pieces(&mut pieces);
    proof {
        lemma_sum_perm(pieces@, before, piece_len());
        lemma_bag_perm(pieces@, before, piece_real());
        assert forall|i: int| 0 <= i < pieces@.len() implies (#[trigger] pieces@[i]).0 || pieces@[i].1 >= 1 by {
            let x = pieces@[i];
            assert(pieces@.contains(x));
            vstd::seq_lib::to_multiset_contains(pieces@, x);
            vstd::seq_lib::to_multiset_contains(before, x);
            assert(before.contains(x));
        }
    }
    let laid = lay_out(&pieces, region.0, region.1);
    match laid {
        None => None,
        Some(v) => {
            proof {
                lemma_laid_out(pieces@, region.0 as int);
            }
            Some(v)
        },
    }
}

} // verus!

verus! {

/// Neither interval reaches into the other.
pub open spec fn apart(x: Iv, y: Iv) -> bool {
    x.1 <= y.0 || y.1 <= x.0
}

/// Any two intervals at different positions of `s` are apart.
pub open spec fn pairwise_apart(s: Seq<Iv>) -> bool {
    forall|j: int, k: int| 0 <= j < s.len() && 0 <= k < s.len() && j != k ==> apart(#[trigger] s[j], #[trigger] s[k])
}

/// Two different intervals of the multiset are apart, and only an empty
/// interval occurs more than once.
pub open spec fn apart_bag(m: Multiset<Iv>) -> bool {
    &&& forall|x: Iv, y: Iv| #[trigger] m.count(x) > 0 && #[trigger] m.count(y) > 0 && x != y ==> apart(x, y)
    &&& forall|x: Iv| #[trigger] m.count(x) > 1 ==> x.1 <= x.0
}

/// The regions the relocation fills: the chromosomes, or the whole genome.
pub open spec fn regions(chroms: Seq<Iv>, per_chrom: bool, span: u64) -> Seq<Iv> {
    if per_chrom {
        chroms
    } else {
        seq![(0u64, span, 0u64)]
    }
}

/// No two regions share a position.
pub open spec fn regions_disjoint(rs: Seq<Iv>) -> bool {
    forall|a: int, b: int| 0 <= a < rs.len() && 0 <= b < rs.len() && a != b ==> apart(#[trigger] rs[a], #[trigger] rs[b])
}

/// The region's gap budget exists and its pieces fit inside it.
pub open spec fn region_fits(budget: Option<Map<u64, u64>>, items: Seq<Iv>, r: Iv) -> bool {
    &&& budget is Some
    &&& budget->Some_0.contains_key(r.0)
    &&& r.0 + budget->Some_0[r.0] + sum_of(hits(items, r.0, r.1), iv_len_fn()) <= r.1
}

/// The error reported for a region that does not fit.
pub open spec fn region_error(budget: Option<Map<u64, u64>>, r: Iv) -> crate::randomize::RandomizeError {
    if budget is Some && budget->Some_0.contains_key(r.0) {
        crate::randomize::RandomizeError::Overrun { region_start: r.0 }
    } else {
        crate::randomize::RandomizeError::NoGapBudget { region_start: r.0 }
    }
}

/// The lengths of the intervals that hit each region, over all regions.
pub open spec fn region_bag(items: Seq<Iv>) -> spec_fn(Iv) -> Multiset<int> {
    |r: Iv| len_bag(hits(items, r.0, r.1))
}

proof fn lemma_second_index(s: Seq<Iv>, x: Iv, j: int) -> (k: int)
    requires
        s.to_multiset().count(x) > 1,
        0 <= j < s.len(),
        s[j] == x,
    ensures
        0 <= k < s.len(),
        k != j,
        s[k] == x,
{
    let t = s.remove(j);
    assert(t.to_multiset().count(x) > 0);
    assert(t.contains(x));
    let k2 = choose|k2: int| 0 <= k2 < t.len() && t[k2] == x;
    if k2 < j {
        k2
    } else {
        k2 + 1
    }
}

/// Intervals that are pairwise apart stay so in any order.
pub proof fn lemma_apart_bag(s: Seq<Iv>)
    requires
        pairwise_apart(s),
    ensures
        apart_bag(s.to_multiset()),
{
    let m = s.to_multiset();
    assert forall|x: Iv, y: Iv| #[trigger] m.count(x) > 0 && #[trigger] m.count(y) > 0 && x != y implies apart(x, y) by {
        assert(s.contains(x));
        assert(s.contains(y));
        let j = choose|j: int| 0 <= j < s.len() && s[j] == x;
        let k = choose|k: int| 0 <= k < s.len() && s[k] == y;
        assert(apart(s[j], s[k]));
    }
    assert forall|x: Iv| #[trigger] m.count(x) > 1 implies x.1 <= x.0 by {
        assert(s.contains(x));
        let j = choose|j: int| 0 <= j < s.len() && s[j] == x;
        let k = lemma_second_index(s, x, j);
        assert(apart(s[j], s[k]));
    }
}

} // verus!

verus! {

/// The gap budget as a map, when there is one.
pub open spec fn budget_view(g: Option<HashMap<u64, u64>>) -> Option<Map<u64, u64>> {
    match g {
        Some(h) => Some(h@),
        None => None,
    }
}

/// `x` lies inside one of the regions.
pub open spec fn in_some_region(rs: Seq<Iv>, x: Iv) -> bool {
    exists|k: int| 0 <= k < rs.len() && inside(x, (#[trigger] rs[k].0, rs[k].1))
}

/// `k` is the first region that does not fit.
pub open spec fn first_unfit(budget: Option<Map<u64, u64>>, items: Seq<Iv>, rs: Seq<Iv>, k: int) -> bool {
    &&& 0 <= k < rs.len()
    &&& !region_fits(budget, items, rs[k])
    &&& forall|j: int| 0 <= j < k ==> region_fits(budget, items, #[trigger] rs[j])
}

fn append_all(out: &mut Vec<Iv>, v: &Vec<Iv>)
    ensures
        final(out)@ == old(out)@ + v@,
{
    let mut k: usize = 0;
    let ghost start = out@;
    while k < v.len()
        invariant
            0 <= k <= v@.len(),
            out@ == start + v@.take(k as int),
        decreases v@.len() - k,
    {
        out.push(v[k]);
        k = k + 1;
        assert(start + v@.take(k as int) =~= (start + v@.take(k - 1)).push(v@[k - 1]));
    }
    assert(v@.take(v@.len() as int) =~= v@);
}

/// The blocks one after another.
pub open spec fn concat_blocks(b: Seq<Seq<Iv>>) -> Seq<Iv>
    decreases b.len(),
{
    if b.len() == 0 {
        Seq::empty()
    } else {
        concat_blocks(b.drop_last()) + b.last()
    }
}

/// `t` is what relocation of `items` over the regions `rs` may give: sorted
/// by start, and, up to order, one block per region, each laid out inside
/// its region from its own budget and the intervals that hit it.
pub open spec fn novl_outcome(budget: Option<Map<u64, u64>>, items: Seq<Iv>, rs: Seq<Iv>, t: Seq<Iv>) -> bool {
    &&& crate::intervals::sorted_by_start(t)
    &&& exists|b: Seq<Seq<Iv>>| b.len() == rs.len() && #[trigger] concat_blocks(b).to_multiset() == t.to_multiset()
        && forall|k: int| 0 <= k < rs.len() ==> region_block(items, rs[k], budget->Some_0[rs[k].0], #[trigger] b[k])
}

/// Non-overlapping relocation: each region (a chromosome, or the whole
/// genome) is filled anew with its intervals and random gaps.
///
/// A region whose budget plus the summed lengths of the intervals that hit it
/// exceeds its length gives `Overrun`. Over the whole genome the budget from
/// `make_gap_budget` is the span less the covered positions, so unmerged
/// overlapping intervals, whose lengths count in full, always overrun.
pub fn novl_intervals(intv: &IntervalSet, genome: &Genome, per_chrom: bool, rng: &mut Wyrand) -> (r: Result<IntervalSet, RandomizeError>)
    requires
        crate::intervals::all_valid(set_items(*intv)),
    ensures
        r is Ok <==> forall|k: int| 0 <= k < regions(set_items(genome.chrom), per_chrom, genome.span).len()
            ==> region_fits(budget_view(genome.gap_budget), set_items(*intv), #[trigger] regions(set_items(genome.chrom), per_chrom, genome.span)[k]),
        r matches Err(e) ==> exists|k: int| first_unfit(budget_view(genome.gap_budget), set_items(*intv), regions(set_items(genome.chrom), per_chrom, genome.span), k)
            && e == region_error(budget_view(genome.gap_budget), regions(set_items(genome.chrom), per_chrom, genome.span)[k]),
        r matches Ok(s) ==> forall|j: int| 0 <= j < set_items(s).len()
            ==> in_some_region(regions(set_items(genome.chrom), per_chrom, genome.span), #[trigger] set_items(s)[j]),
        r matches Ok(s) ==> len_bag(set_items(s)) == bag_of(regions(set_items(genome.chrom), per_chrom, genome.span), region_bag(set_items(*intv))),
        r matches Ok(s) ==> (regions_disjoint(regions(set_items(genome.chrom), per_chrom, genome.span)) ==> apart_bag(set_items(s).to_multiset())),
        r matches Ok(s) ==> novl_outcome(budget_view(genome.gap_budget), set_items(*intv), regions(set_items(genome.chrom), per_chrom, genome.span), set_items(s)),
{
    broadcast use vstd::std_specs::hash::group_hash_axioms;

    let rs = if per_chrom {
        genome.chrom.items()
    } else {
        vec![(0, genome.span, 0)]
    };
    let ghost items = set_items(*intv);
    let ghost bv = budget_view(genome.gap_budget);
    proof {
        assert(rs@ =~= regions(set_items(genome.chrom), per_chrom, genome.span));
        assert(rs@.take(0) =~= Seq::<Iv>::empty());
        assert(len_bag(Seq::<Iv>::empty()) =~= Multiset::empty());
    }
    let mut out: Vec<Iv> = Vec::new();
    let ghost mut origin: Seq<int> = Seq::empty();
    let ghost mut blocks: Seq<Seq<Iv>> = Seq::empty();
    let mut i: usize = 0;
    while i < rs.len()
        invariant
            rs@ == regions(set_items(genome.chrom), per_chrom, genome.span),
            items == set_items(*intv),
            bv == budget_view(genome.gap_budget),
            crate::intervals::all_valid(items),
            0 <= i <= rs@.len(),
            forall|k: int| 0 <= k < i ==> region_fits(bv, items, #[trigger] rs@[k]),
            origin.len() == out@.len(),
            forall|j: int| 0 <= j < out@.len() ==> 0 <= #[trigger] origin[j] < i && inside(out@[j], (rs@[origin[j]].0, rs@[origin[j]].1)),
            forall|j1: int, j2: int| 0 <= j1 < j2 < out@.len() && origin[j1] == origin[j2] ==> (#[trigger] out@[j1]).1 <= (#[trigger] out@[j2]).0,
            len_bag(out@) == bag_of(rs@.take(i as int), region_bag(items)),
            blocks.len() == i,
            out@ == concat_blocks(blocks),
            forall|k: int| 0 <= k < i ==> region_block(items, rs@[k], bv->Some_0[rs@[k].0], #[trigger] blocks[k]),
        decreases rs@.len() - i,
    {
        let region = rs[i];
        let budget = match &genome.gap_budget {
            Some(g) => g.get(&region.0),
            None => None,
        };
        let m_gap = match budget {
            Some(m) => *m,
            None => {
                assert(first_unfit(bv, items, rs@, i as int));
                return Err(RandomizeError::NoGapBudget { region_start: region.0 });
            },
        };
        match novl_region(intv, region, m_gap, rng) {
            None => {
                assert(first_unfit(bv, items, rs@, i as int));
                return Err(RandomizeError::Overrun { region_start: region.0 });
            },
            Some(v) => {
                let ghost old_out = out@;
                let ghost old_origin = origin;
                append_all(&mut out, &v);
                proof {
                    assert(m_gap == bv->Some_0[region.0]);
                    let nb = blocks.push(v@);
                    assert(nb.drop_last() =~= blocks);
                    assert(out@ == concat_blocks(nb));
                    assert forall|k: int| 0 <= k < i + 1 implies region_block(items, rs@[k], bv->Some_0[rs@[k].0], #[trigger] nb[k]) by {
                        if k < i {
                            assert(nb[k] == blocks[k]);
                        }
                    }
                    blocks = nb;
                }
                proof {
                    origin = old_origin + Seq::new(v@.len(), |_j: int| i as int);
                    assert forall|j: int| 0 <= j < out@.len() implies 0 <= #[trigger] origin[j] < i + 1 && inside(out@[j], (rs@[origin[j]].0, rs@[origin[j]].1)) by {
                        if j >= old_out.len() {
                            assert(out@[j] == v@[j - old_out.len()]);
                        } else {
                            assert(out@[j] == old_out[j]);
                        }
                    }
                    assert forall|j1: int, j2: int| 0 <= j1 < j2 < out@.len() && origin[j1] == origin[j2] implies (#[trigger] out@[j1]).1 <= (#[trigger] out@[j2]).0 by {
                        if j1 >= old_out.len() {
                            assert(out@[j1] == v@[j1 - old_out.len()]);
                            assert(out@[j2] == v@[j2 - old_out.len()]);
                        } else if j2 < old_out.len() {
                            assert(out@[j1] == old_out[j1]);
                            assert(out@[j2] == old_out[j2]);
                        } else {
                            assert(origin[j1] < i);
                        }
                    }
                    let f = |iv: Iv| iv_len(iv);
                    assert(out@.map_values(f) =~= old_out.map_values(f) + v@.map_values(f));
                    vstd::seq_lib::lemma_multiset_commutative(old_out.map_values(f), v@.map_values(f));
                    let t = rs@.take(i as int + 1);
                    assert(t.drop_last() =~= rs@.take(i as int));
                    assert(t.last() == region);
                    assert(len_bag(out@) == len_bag(old_out).add(len_bag(v@)));
                }
            },
        }
        i = i + 1;
    }
    proof {
        assert(rs@.take(rs@.len() as int) =~= rs@);
        if regions_disjoint(rs@) {
            assert forall|j: int, k: int| 0 <= j < out@.len() && 0 <= k < out@.len() && j != k implies apart(#[trigger] out@[j], #[trigger] out@[k]) by {
                if origin[j] == origin[k] {
                    if j < k {
                        assert(out@[j].1 <= out@[k].0);
                    } else {
                        assert(out@[k].1 <= out@[j].0);
                    }
                } else {
                    assert(apart(rs@[origin[j]], rs@[origin[k]]));
                }
            }
            lemma_apart_bag(out@);
        }
    }
    let ghost outs = out@;
    assert(blocks.len() == rs@.len());
    let s = IntervalSet::from_intervals(out);
    proof {
        crate::bag::lemma_map_perm(set_items(s), outs, |iv: Iv| iv_len(iv));
        assert forall|j: int| 0 <= j < set_items(s).len() implies in_some_region(rs@, #[trigger] set_items(s)[j]) by {
            let x = set_items(s)[j];
            assert(set_items(s).contains(x));
            vstd::seq_lib::to_multiset_contains(set_items(s), x);
            vstd::seq_lib::to_multiset_contains(outs, x);
            assert(outs.contains(x));
            let m = choose|m: int| 0 <= m < outs.len() && outs[m] == x;
            assert(inside(outs[m], (rs@[origin[m]].0, rs@[origin[m]].1)));
        }
    }
    Ok(s)
}

} // verus!

verus! {

/// What is left of `w` bases once `used` are taken, never below zero.
pub open spec fn gap_left(w: int, used: int) -> int {
    if used >= w {
        0
    } else {
        w - used
    }
}

/// The gap budget of a chromosome: its length less the lengths of the
/// intervals that hit it.
pub open spec fn chrom_gap(items: Seq<Iv>, c: Iv) -> int {
    gap_left(c.1 - c.0, sum_of(hits(items, c.0, c.1), iv_len_fn()))
}

/// No later chromosome starts where the `k`-th one does.
pub open spec fn last_with_start(chroms: Seq<Iv>, k: int) -> bool {
    forall|j: int| k < j < chroms.len() ==> (#[trigger] chroms[j]).0 != chroms[k].0
}

/// Some chromosome among the first `n` starts at `x`.
pub open spec fn starts_before(chroms: Seq<Iv>, n: int, x: u64) -> bool {
    exists|k: int| 0 <= k < n && (#[trigger] chroms[k]).0 == x
}

/// The gap budget of one chromosome.
fn chrom_gap_of(intervals: &IntervalSet, c: Iv) -> (r: u64)
    requires
        crate::intervals::all_valid(set_items(*intervals)),
    ensures
        r == chrom_gap(set_items(*intervals), c),
{
    let found = intervals.find(c.0, c.1);
    let ghost items = set_items(*intervals);
    let width: u64 = if c.1 >= c.0 { c.1 - c.0 } else { 0 };
    let mut left: u64 = width;
    let mut k: usize = 0;
    proof {
        lemma_hits_valid(items, c.0, c.1);
        assert(found@.take(0) =~= Seq::<Iv>::empty());
    }
    while k < found.len()
        invariant
            found@ == hits(items, c.0, c.1),
            crate::intervals::all_valid(found@),
            0 <= k <= found@.len(),
            left == gap_left(width as int, sum_of(found@.take(k as int), iv_len_fn())),
            sum_of(found@.take(k as int), iv_len_fn()) >= 0,
        decreases found@.len() - k,
    {
        let x = found[k];
        assert(x.0 < x.1);
        proof {
            let t = found@.take(k as int + 1);
            assert(t.drop_last() =~= found@.take(k as int));
            assert(t.last() == x);
        }
        left = if x.1 - x.0 >= left { 0 } else { left - (x.1 - x.0) };
        k = k + 1;
    }
    assert(found@.take(found@.len() as int) =~= found@);
    left
}

/// Builds the gap budget of each region from the intervals that will be
/// relocated: for the whole genome, its span less the positions they cover;
/// per chromosome, its length less the lengths of the intervals that hit it.
pub fn make_gap_budget(genome: &Genome, intervals: &IntervalSet, per_chrom: bool) -> (r: HashMap<u64, u64>)
    requires
        crate::intervals::all_valid(set_items(*intervals)),
    ensures
        !per_chrom ==> r@ == map![0u64 => gap_left(genome.span as int, crate::intervals::covered(set_items(*intervals)).len() as int) as u64],
        per_chrom ==> forall|x: u64| r@.contains_key(x) <==> starts_before(set_items(genome.chrom), set_items(genome.chrom).len() as int, x),
        per_chrom ==> forall|k: int| 0 <= k < set_items(genome.chrom).len() && last_with_start(set_items(genome.chrom), k)
            ==> r@[#[trigger] set_items(genome.chrom)[k].0] == chrom_gap(set_items(*intervals), set_items(genome.chrom)[k]),
{
    broadcast use vstd::std_specs::hash::group_hash_axioms;

    let mut ret: HashMap<u64, u64> = HashMap::new();
    if !per_chrom {
        let cov = intervals.cov();
        let left = if cov >= genome.span { 0 } else { genome.span - cov };
        ret.insert(0, left);
        assert(ret@ =~= map![0u64 => left]);
        return ret;
    }
    let chroms = genome.chrom.items();
    let ghost items = set_items(*intervals);
    let mut i: usize = 0;
    while i < chroms.len()
        invariant
            chroms@ == set_items(genome.chrom),
            items == set_items(*intervals),
            crate::intervals::all_valid(items),
            0 <= i <= chroms@.len(),
            forall|x: u64| ret@.contains_key(x) <==> starts_before(chroms@, i as int, x),
            forall|k: int| 0 <= k < i && (forall|j: int| k < j < i ==> (#[trigger] chroms@[j]).0 != chroms@[k].0)
                ==> ret@[#[trigger] chroms@[k].0] == chrom_gap(items, chroms@[k]),
        decreases chroms@.len() - i,
    {
        let c = chroms[i];
        let left = chrom_gap_of(intervals, c);
        ret.insert(c.0, left);
        proof {
            assert forall|x: u64| ret@.contains_key(x) <==> starts_before(chroms@, i + 1, x) by {
                if x == c.0 {
                    assert(chroms@[i as int].0 == x);
                }
                if starts_before(chroms@, i + 1, x) && x != c.0 {
                    let k = choose|k: int| 0 <= k < i + 1 && (#[trigger] chroms@[k]).0 == x;
                    assert(k < i);
                }
            }
        }
        i = i + 1;
    }
    ret
}

proof fn lemma_filter_all(s: Seq<Iv>, lo: u64, hi: u64)
    requires
        forall|i: int| 0 <= i < s.len() ==> crate::intervals::overlaps(#[trigger] s[i], lo, hi),
    ensures
        hits(s, lo, hi) == s,
    decreases s.len(),
{
    reveal(Seq::filter);
    if s.len() > 0 {
        lemma_filter_all(s.drop_last(), lo, hi);
        assert(s.drop_last().push(s.last()) =~= s);
    }
}

/// Over the whole genome, relocation keeps the multiset of lengths of
/// intervals that lie on the genome.
pub proof fn lemma_whole_genome_lengths(items: Seq<Iv>, chroms: Seq<Iv>, span: u64)
    requires
        forall|i: int| 0 <= i < items.len() ==> (#[trigger] items[i]).0 < items[i].1 && items[i].0 < span,
    ensures
        bag_of(regions(chroms, false, span), region_bag(items)) == len_bag(items),
{
    let rs = regions(chroms, false, span);
    lemma_filter_all(items, 0, span);
    assert(rs.drop_last() =~= Seq::<Iv>::empty());
    assert(rs.last() == (0u64, span, 0u64));
    assert(bag_of(rs.drop_last(), region_bag(items)) == Multiset::<int>::empty());
    assert(region_bag(items)(rs.last()) == len_bag(items));
    assert(bag_of(rs, region_bag(items)) == Multiset::<int>::empty().add(len_bag(items)));
    assert(Multiset::<int>::empty().add(len_bag(items)) =~= len_bag(items));
}

/// The whole genome is a single region, so relocated intervals never
/// overlap there.
pub proof fn lemma_whole_genome_disjoint(chroms: Seq<Iv>, span: u64)
    ensures
        regions_disjoint(regions(chroms, false, span)),
{
}

} // verus!
