//! The three null models: position shuffle, circular rotation and
//! non-overlapping relocation.
use crate::bag::lemma_map_perm;
use crate::intervals::{all_valid, hits, iv_len, set_items, IntervalSet, Iv};
use crate::rng::{draw_range, shuffle_pieces};
use std::collections::HashMap;
use tinyrand::Wyrand;
use vstd::multiset::Multiset;
use vstd::prelude::*;

verus! {

/// The genome that intervals are placed on.
pub struct Genome {
    /// Total addressable length.
    pub span: u64,
    /// One interval per chromosome.
    pub chrom: IntervalSet,
    /// Region start to the number of bases that relocation spreads as gaps.
    pub gap_budget: Option<HashMap<u64, u64>>,
}

/// Why a randomization could not be carried out.
#[derive(Debug, Clone, Copy, PartialEq, Eq)]
pub enum RandomizeError {
    /// The interval hits no chromosome.
    OffGenome { start: u64, stop: u64 },
    /// The interval does not fit inside the window it must stay in.
    DoesNotFit { start: u64, stop: u64 },
    /// No gap budget was made for the region that starts here.
    NoGapBudget { region_start: u64 },
    /// The gaps and intervals of the region that starts here run past its end.
    Overrun { region_start: u64 },
    /// The number of interval pairs to count does not fit in 64 bits.
    TooManyPairs,
}

/// Multiset of the lengths of some intervals.
pub open spec fn len_bag(s: Seq<Iv>) -> Multiset<int> {
    s.map_values(|iv: Iv| iv_len(iv)).to_multiset()
}

/// The window an interval must stay in: the first chromosome it hits, or the
/// whole genome.
pub open spec fn window(chroms: Seq<Iv>, per_chrom: bool, span: u64, iv: Iv) -> Option<(u64, u64)> {
    if per_chrom {
        let h = hits(chroms, iv.0, iv.1);
        if h.len() > 0 {
            Some((h[0].0, h[0].1))
        } else {
            None
        }
    } else {
        Some((0, span))
    }
}

/// `iv` lies inside the window `w`.
pub open spec fn inside(iv: Iv, w: (u64, u64)) -> bool {
    w.0 <= iv.0 && iv.1 <= w.1
}

/// The interval has a window and is no longer than it.
pub open spec fn placeable(chroms: Seq<Iv>, per_chrom: bool, span: u64, iv: Iv) -> bool {
    &&& window(chroms, per_chrom, span, iv) is Some
    &&& iv.0 < iv.1
    &&& window(chroms, per_chrom, span, iv)->Some_0.0 <= window(chroms, per_chrom, span, iv)->Some_0.1
    &&& iv.1 - iv.0 <= window(chroms, per_chrom, span, iv)->Some_0.1 - window(chroms, per_chrom, span, iv)->Some_0.0
}

/// The error reported for an interval that is not placeable.
pub open spec fn placement_error(chroms: Seq<Iv>, per_chrom: bool, span: u64, iv: Iv) -> RandomizeError {
    if window(chroms, per_chrom, span, iv) is None {
        RandomizeError::OffGenome { start: iv.0, stop: iv.1 }
    } else {
        RandomizeError::DoesNotFit { start: iv.0, stop: iv.1 }
    }
}

/// `k` is the first interval of `s` that is not placeable.
pub open spec fn first_unplaceable(chroms: Seq<Iv>, per_chrom: bool, span: u64, s: Seq<Iv>, k: int) -> bool {
    &&& 0 <= k < s.len()
    &&& !placeable(chroms, per_chrom, span, s[k])
    &&& forall|j: int| 0 <= j < k ==> placeable(chroms, per_chrom, span, #[trigger] s[j])
}

/// `x` lies inside the window of one of the intervals of `src`.
pub open spec fn in_some_window(chroms: Seq<Iv>, per_chrom: bool, span: u64, src: Seq<Iv>, x: Iv) -> bool {
    exists|i: int| 0 <= i < src.len() && inside(x, #[trigger] window(chroms, per_chrom, span, src[i])->Some_0)
}

/// Looks up the window of an interval.
pub fn find_window(genome: &Genome, per_chrom: bool, iv: Iv) -> (r: Option<(u64, u64)>)
    ensures
        r == window(set_items(genome.chrom), per_chrom, genome.span, iv),
{
    if per_chrom {
        let h = genome.chrom.find(iv.0, iv.1);
        if h.len() > 0 {
            Some((h[0].0, h[0].1))
        } else {
            None
        }
    } else {
        Some((0, genome.span))
    }
}

/// Moves each interval to a uniformly drawn position inside its window,
/// keeping its length; output `i` comes from input `i`.
pub fn shuffle_positions(items: &Vec<Iv>, genome: &Genome, per_chrom: bool, rng: &mut Wyrand) -> (r: Result<Vec<Iv>, RandomizeError>)
    ensures
        r is Ok <==> forall|i: int| 0 <= i < items@.len() ==> placeable(set_items(genome.chrom), per_chrom, genome.span, #[trigger] items@[i]),
        r matches Err(e) ==> exists|k: int| first_unplaceable(set_items(genome.chrom), per_chrom, genome.span, items@, k)
            && e == placement_error(set_items(genome.chrom), per_chrom, genome.span, items@[k]),
        r matches Ok(v) ==> v@.len() == items@.len() && forall|i: int| 0 <= i < v@.len() ==> {
            &&& iv_len(#[trigger] v@[i]) == iv_len(items@[i])
            &&& v@[i].2 == 0
            &&& inside(v@[i], window(set_items(genome.chrom), per_chrom, genome.span, items@[i])->Some_0)
        },
{
    let ghost chroms = set_items(genome.chrom);
    let mut out: Vec<Iv> = Vec::new();
    let mut i: usize = 0;
    while i < items.len()
        invariant
            chroms == set_items(genome.chrom),
            0 <= i <= items@.len(),
            out@.len() == i,
            forall|j: int| 0 <= j < i ==> placeable(chroms, per_chrom, genome.span, #[trigger] items@[j]),
            forall|j: int| 0 <= j < i ==> {
                &&& iv_len(#[trigger] out@[j]) == iv_len(items@[j])
                &&& out@[j].2 == 0
                &&& inside(out@[j], window(chroms, per_chrom, genome.span, items@[j])->Some_0)
            },
        decreases items@.len() - i,
    {
        let iv = items[i];
        let w = find_window(genome, per_chrom, iv);
        match w {
            None => {
                assert(first_unplaceable(chroms, per_chrom, genome.span, items@, i as int));
                return Err(RandomizeError::OffGenome { start: iv.0, stop: iv.1 });
            },
            Some((lower, upper)) => {
                if iv.1 <= iv.0 || upper < lower || iv.1 - iv.0 > upper - lower {
                    assert(first_unplaceable(chroms, per_chrom, genome.span, items@, i as int));
                    return Err(RandomizeError::DoesNotFit { start: iv.0, stop: iv.1 });
                }
                let len = iv.1 - iv.0;
                let start = draw_range(rng, lower, upper - len + 1);
                out.push((start, start + len, 0));
            },
        }
        i = i + 1;
    }
    Ok(out)
}

/// Output `i` of a shuffle: the length of input `i`, tag zero, inside the
/// window of input `i`.
pub open spec fn placed_from(chroms: Seq<Iv>, per_chrom: bool, span: u64, src: Iv, out: Iv) -> bool {
    &&& iv_len(out) == iv_len(src)
    &&& out.2 == 0
    &&& inside(out, window(chroms, per_chrom, span, src)->Some_0)
}

/// `t` is what a shuffle of `items` may give: sorted by start, and, up to
/// order, one interval per input placed from that input.
pub open spec fn shuffle_outcome(chroms: Seq<Iv>, per_chrom: bool, span: u64, items: Seq<Iv>, t: Seq<Iv>) -> bool {
    &&& crate::intervals::sorted_by_start(t)
    &&& exists|v: Seq<Iv>| #[trigger] v.to_multiset() == t.to_multiset() && v.len() == items.len()
        && forall|i: int| 0 <= i < v.len() ==> placed_from(chroms, per_chrom, span, items[i], #[trigger] v[i])
}

/// Position shuffle: every interval moves to a random place inside its window.
pub fn shuffle_intervals(intv: &IntervalSet, genome: &Genome, per_chrom: bool, rng: &mut Wyrand) -> (r: Result<IntervalSet, RandomizeError>)
    ensures
        r is Ok <==> forall|i: int| 0 <= i < set_items(*intv).len() ==> placeable(set_items(genome.chrom), per_chrom, genome.span, #[trigger] set_items(*intv)[i]),
        r matches Err(e) ==> exists|k: int| first_unplaceable(set_items(genome.chrom), per_chrom, genome.span, set_items(*intv), k)
            && e == placement_error(set_items(genome.chrom), per_chrom, genome.span, set_items(*intv)[k]),
        r matches Ok(s) ==> len_bag(set_items(s)) == len_bag(set_items(*intv)),
        r matches Ok(s) ==> forall|j: int| 0 <= j < set_items(s).len() ==> in_some_window(set_items(genome.chrom), per_chrom, genome.span, set_items(*intv), #[trigger] set_items(s)[j]),
        r matches Ok(s) ==> forall|j: int| 0 <= j < set_items(s).len() ==> (#[trigger] set_items(s)[j]).2 == 0 && set_items(s)[j].0 < set_items(s)[j].1,
        r matches Ok(s) ==> shuffle_outcome(set_items(genome.chrom), per_chrom, genome.span, set_items(*intv), set_items(s)),
{
    let items = intv.items();
    match shuffle_positions(&items, genome, per_chrom, rng) {
        Err(e) => Err(e),
        Ok(v) => {
            let ghost vs = v@;
            let s = IntervalSet::from_intervals(v);
            proof {
                let f = |iv: Iv| iv_len(iv);
                assert(vs.map_values(f) =~= items@.map_values(f));
                lemma_map_perm(set_items(s), vs, f);
                assert forall|j: int| 0 <= j < set_items(s).len() implies in_some_window(set_items(genome.chrom), per_chrom, genome.span, set_items(*intv), #[trigger] set_items(s)[j])
                    && set_items(s)[j].2 == 0 && set_items(s)[j].0 < set_items(s)[j].1 by {
                    let x = set_items(s)[j];
                    assert(set_items(s).contains(x));
                    vstd::seq_lib::to_multiset_contains(set_items(s), x);
                    vstd::seq_lib::to_multiset_contains(vs, x);
                    let i = choose|i: int| 0 <= i < vs.len() && vs[i] == x;
                    assert(vs.contains(x));
                    assert(0 <= i < vs.len() && vs[i] == x);
                    assert(inside(x, window(set_items(genome.chrom), per_chrom, genome.span, set_items(*intv)[i])->Some_0));
                    assert(placeable(set_items(genome.chrom), per_chrom, genome.span, items@[i]));
                    assert(x.2 == 0 && x.0 < x.1);
                }
                assert(vs.to_multiset() == set_items(s).to_multiset());
                assert(forall|i: int| 0 <= i < vs.len() ==> placed_from(set_items(genome.chrom), per_chrom, genome.span, items@[i], #[trigger] vs[i]));
            }
            Ok(s)
        },
    }
}

} // verus!

verus! {

/// The pieces that `iv` becomes when rotated by `s` inside the window
/// `[lo, hi)`: one piece, or two when it runs past the end and wraps round.
pub open spec fn rotated(iv: Iv, lo: u64, hi: u64, s: u64) -> Seq<Iv> {
    let w = hi - lo;
    let ns = iv.0 - lo + s;
    let ne = iv.1 - lo + s;
    if ns >= w {
        seq![((lo + ns - w) as u64, (lo + ne - w) as u64, 0u64)]
    } else if ne > w {
        seq![((lo + ns) as u64, hi, 0u64), (lo, (lo + ne - w) as u64, 0u64)]
    } else {
        seq![((lo + ns) as u64, (lo + ne) as u64, 0u64)]
    }
}

/// `iv` is non-empty and lies inside its window.
pub open spec fn rotatable(chroms: Seq<Iv>, per_chrom: bool, span: u64, iv: Iv) -> bool {
    &&& window(chroms, per_chrom, span, iv) is Some
    &&& iv.0 < iv.1
    &&& inside(iv, window(chroms, per_chrom, span, iv)->Some_0)
}

/// The error reported for an interval that is not rotatable.
pub open spec fn rotation_error(chroms: Seq<Iv>, per_chrom: bool, span: u64, iv: Iv) -> RandomizeError {
    if window(chroms, per_chrom, span, iv) is None {
        RandomizeError::OffGenome { start: iv.0, stop: iv.1 }
    } else {
        RandomizeError::DoesNotFit { start: iv.0, stop: iv.1 }
    }
}

/// `k` is the first interval of `s` that is not rotatable.
pub open spec fn first_unrotatable(chroms: Seq<Iv>, per_chrom: bool, span: u64, s: Seq<Iv>, k: int) -> bool {
    &&& 0 <= k < s.len()
    &&& !rotatable(chroms, per_chrom, span, s[k])
    &&& forall|j: int| 0 <= j < k ==> rotatable(chroms, per_chrom, span, #[trigger] s[j])
}

/// Every interval of `s` rotated by `shift` inside its own window, the
/// pieces in the order of `s`.
pub open spec fn rotate_all(chroms: Seq<Iv>, per_chrom: bool, span: u64, s: Seq<Iv>, shift: u64) -> Seq<Iv>
    decreases s.len(),
{
    if s.len() == 0 {
        Seq::empty()
    } else {
        let w = window(chroms, per_chrom, span, s.last())->Some_0;
        rotate_all(chroms, per_chrom, span, s.drop_last(), shift) + rotated(s.last(), w.0, w.1, (shift % ((w.1 - w.0) as u64)) as u64)
    }
}

/// Rotates one interval by `shift`, taken modulo the width of its window.
pub fn rotate_one(iv: Iv, lo: u64, hi: u64, shift: u64) -> (r: Vec<Iv>)
    requires
        lo <= iv.0 < iv.1 <= hi,
    ensures
        r@ == rotated(iv, lo, hi, (shift % ((hi - lo) as u64)) as u64),
{
    let s = shift % (hi - lo);
    let room = hi - iv.0;
    let len = iv.1 - iv.0;
    let mut r: Vec<Iv> = Vec::new();
    if s >= room {
        let start = lo + (s - room);
        r.push((start, start + len, 0));
    } else if len > room - s {
        r.push((iv.0 + s, hi, 0));
        r.push((lo, lo + (len - (room - s)), 0));
    } else {
        r.push((iv.0 + s, iv.1 + s, 0));
    }
    assert(r@ =~= rotated(iv, lo, hi, s));
    r
}

/// Rotates every interval by one shared `shift`, each inside its window.
pub fn circle_with_shift(items: &Vec<Iv>, genome: &Genome, per_chrom: bool, shift: u64) -> (r: Result<Vec<Iv>, RandomizeError>)
    ensures
        r is Ok <==> forall|i: int| 0 <= i < items@.len() ==> rotatable(set_items(genome.chrom), per_chrom, genome.span, #[trigger] items@[i]),
        r matches Err(e) ==> exists|k: int| first_unrotatable(set_items(genome.chrom), per_chrom, genome.span, items@, k)
            && e == rotation_error(set_items(genome.chrom), per_chrom, genome.span, items@[k]),
        r matches Ok(v) ==> v@ == rotate_all(set_items(genome.chrom), per_chrom, genome.span, items@, shift),
{
    let ghost chroms = set_items(genome.chrom);
    let mut out: Vec<Iv> = Vec::new();
    let mut i: usize = 0;
    while i < items.len()
        invariant
            chroms == set_items(genome.chrom),
            0 <= i <= items@.len(),
            forall|j: int| 0 <= j < i ==> rotatable(chroms, per_chrom, genome.span, #[trigger] items@[j]),
            out@ == rotate_all(chroms, per_chrom, genome.span, items@.take(i as int), shift),
        decreases items@.len() - i,
    {
        let iv = items[i];
        match find_window(genome, per_chrom, iv) {
            None => {
                assert(first_unrotatable(chroms, per_chrom, genome.span, items@, i as int));
                return Err(RandomizeError::OffGenome { start: iv.0, stop: iv.1 });
            },
            Some((lo, hi)) => {
                if iv.1 <= iv.0 || iv.0 < lo || hi < iv.1 {
                    assert(first_unrotatable(chroms, per_chrom, genome.span, items@, i as int));
                    return Err(RandomizeError::DoesNotFit { start: iv.0, stop: iv.1 });
                }
                let pieces = rotate_one(iv, lo, hi, shift);
                proof {
                    let t = items@.take(i as int + 1);
                    assert(t.drop_last() =~= items@.take(i as int));
                    assert(t.last() == items@[i as int]);
                }
                let mut k: usize = 0;
                let ghost before = out@;
                while k < pieces.len()
                    invariant
                        0 <= k <= pieces@.len(),
                        out@ == before + pieces@.take(k as int),
                    decreases pieces@.len() - k,
                {
                    out.push(pieces[k]);
                    k = k + 1;
                    assert(before + pieces@.take(k as int) =~= (before + pieces@.take(k - 1)).push(pieces@[k - 1]));
                }
                assert(pieces@.take(k as int) =~= pieces@);
            },
        }
        i = i + 1;
    }
    assert(items@.take(items@.len() as int) =~= items@);
    Ok(out)
}

/// `t` is what a rotation of `items` may give: sorted by start, and, up to
/// order, the pieces of every interval rotated by one shift below `span`.
pub open spec fn circle_outcome(chroms: Seq<Iv>, per_chrom: bool, span: u64, items: Seq<Iv>, t: Seq<Iv>) -> bool {
    &&& crate::intervals::sorted_by_start(t)
    &&& exists|shift: u64| shift < span && t.to_multiset() == #[trigger] rotate_all(chroms, per_chrom, span, items, shift).to_multiset()
}

/// Circular rotation: one shift drawn in `[0, span)` moves every interval,
/// wrapping round inside its window.
pub fn circle_intervals(intv: &IntervalSet, genome: &Genome, per_chrom: bool, rng: &mut Wyrand) -> (r: Result<IntervalSet, RandomizeError>)
    requires
        genome.span > 0,
    ensures
        r is Ok <==> forall|i: int| 0 <= i < set_items(*intv).len() ==> rotatable(set_items(genome.chrom), per_chrom, genome.span, #[trigger] set_items(*intv)[i]),
        r matches Err(e) ==> exists|k: int| first_unrotatable(set_items(genome.chrom), per_chrom, genome.span, set_items(*intv), k)
            && e == rotation_error(set_items(genome.chrom), per_chrom, genome.span, set_items(*intv)[k]),
        r matches Ok(s) ==> circle_outcome(set_items(genome.chrom), per_chrom, genome.span, set_items(*intv), set_items(s)),
{
    let items = intv.items();
    let shift = draw_range(rng, 0, genome.span);
    match circle_with_shift(&items, genome, per_chrom, shift) {
        Err(e) => Err(e),
        Ok(v) => {
            let s = IntervalSet::from_intervals(v);
            Ok(s)
        },
    }
}

} // verus!

verus! {

/// The positions that `[iv.0, iv.1)` is carried to by a rotation of `s`
/// modulo the width of the window `[lo, hi)`.
pub open spec fn rotated_positions(iv: Iv, lo: u64, hi: u64, s: u64) -> Set<int> {
    Set::new(|p: int| exists|q: int| iv.0 <= q < iv.1 && p == lo + #[trigger] ((q - lo + s) % ((hi - lo) as int)))
}

proof fn lemma_mod_once(x: int, s: int, w: int)
    requires
        0 <= x < w,
        0 <= s,
    ensures
        (x + s) % w == if x + s % w < w { x + s % w } else { x + s % w - w },
        0 <= s % w < w,
{
    vstd::arithmetic::div_mod::lemma_mod_bound(s, w);
    vstd::arithmetic::div_mod::lemma_add_mod_noop(x, s, w);
    vstd::arithmetic::div_mod::lemma_small_mod(x as nat, w as nat);
    let y = x + s % w;
    if y < w {
        vstd::arithmetic::div_mod::lemma_small_mod(y as nat, w as nat);
    } else {
        vstd::arithmetic::div_mod::lemma_mod_sub_multiples_vanish(y, w);
        vstd::arithmetic::div_mod::lemma_small_mod((y - w) as nat, w as nat);
    }
}

/// Rotating a non-empty interval inside its window by any shift gives one
/// piece, or two when it wraps round; each piece is non-empty and inside the
/// window, their lengths add up to the interval's length, and together they
/// cover exactly the positions the interval is carried to modulo the width.
pub proof fn lemma_rotation_wraps(iv: Iv, lo: u64, hi: u64, s: u64)
    requires
        lo <= iv.0 < iv.1 <= hi,
    ensures
        ({
            let r = rotated(iv, lo, hi, (s % ((hi - lo) as u64)) as u64);
            &&& 1 <= r.len() <= 2
            &&& forall|k: int| 0 <= k < r.len() ==> (#[trigger] r[k]).0 < r[k].1 && inside(r[k], (lo, hi))
            &&& (if r.len() == 1 { iv_len(r[0]) } else { iv_len(r[0]) + iv_len(r[1]) }) == iv_len(iv)
            &&& crate::intervals::covered(r) == rotated_positions(iv, lo, hi, s)
        }),
{
    let w: int = hi - lo;
    let t = (s % ((hi - lo) as u64)) as u64;
    lemma_mod_once(0, s as int, w);
    assert(t == s as int % w);
    let r = rotated(iv, lo, hi, t);
    let a: int = iv.0 - lo;
    let b: int = iv.1 - lo;
    assert forall|q: int| iv.0 <= q < iv.1 implies #[trigger] ((q - lo + s) % w) == if q - lo + t < w { q - lo + t } else { q - lo + t - w } by {
        lemma_mod_once(q - lo, s as int, w);
    }
    let cov = crate::intervals::covered(r);
    let pos = rotated_positions(iv, lo, hi, s);
    assert forall|p: int| cov.contains(p) <==> pos.contains(p) by {
        if cov.contains(p) {
            let k = choose|k: int| 0 <= k < r.len() && (#[trigger] r[k]).0 <= p < r[k].1;
            if a + t >= w {
                assert(r[0].0 == lo + a + t - w && r[0].1 == lo + b + t - w);
                assert(r.len() == 1 && k == 0);
                let q = p - t + w;
                assert(iv.0 <= q < iv.1);
                assert(p == lo + ((q - lo + s) % w));
            } else if b + t > w {
                assert(r[0].0 == lo + a + t && r[0].1 == hi);
                assert(r[1].0 == lo && r[1].1 == lo + b + t - w);
                if k == 0 {
                    let q = p - t;
                    assert(iv.0 <= q < iv.1);
                    assert(p == lo + ((q - lo + s) % w));
                } else {
                    let q = p - t + w;
                    assert(iv.0 <= q < iv.1);
                    assert(p == lo + ((q - lo + s) % w));
                }
            } else {
                assert(r[0].0 == lo + a + t && r[0].1 == lo + b + t);
                assert(r.len() == 1 && k == 0);
                let q = p - t;
                assert(iv.0 <= q < iv.1);
                assert(p == lo + ((q - lo + s) % w));
            }
        }
        if pos.contains(p) {
            let q = choose|q: int| iv.0 <= q < iv.1 && p == lo + #[trigger] ((q - lo + s) % w);
            if a + t >= w {
                assert(r[0].0 <= p < r[0].1);
            } else if b + t > w {
                if q - lo + t < w {
                    assert(r[0].0 <= p < r[0].1);
                } else {
                    assert(r[1].0 <= p < r[1].1);
                }
            } else {
                assert(r[0].0 <= p < r[0].1);
            }
        }
    }
    assert(cov =~= pos);
}

} // verus!

verus! {

proof fn lemma_sum_concat(a: Seq<Iv>, b: Seq<Iv>, f: spec_fn(Iv) -> int)
    ensures
        crate::bag::sum_of(a + b, f) == crate::bag::sum_of(a, f) + crate::bag::sum_of(b, f),
    decreases b.len(),
{
    if b.len() == 0 {
        assert(a + b =~= a);
    } else {
        lemma_sum_concat(a, b.drop_last(), f);
        assert((a + b).drop_last() =~= a + b.drop_last());
        assert((a + b).last() == b.last());
    }
}

/// Rotation keeps the total length: the pieces of all intervals add up to
/// the lengths of the intervals.
pub proof fn lemma_circle_total_length(chroms: Seq<Iv>, per_chrom: bool, span: u64, items: Seq<Iv>, shift: u64)
    requires
        forall|i: int| 0 <= i < items.len() ==> rotatable(chroms, per_chrom, span, #[trigger] items[i]),
    ensures
        crate::bag::sum_of(rotate_all(chroms, per_chrom, span, items, shift), crate::novl::iv_len_fn())
            == crate::bag::sum_of(items, crate::novl::iv_len_fn()),
    decreases items.len(),
{
    let f = crate::novl::iv_len_fn();
    if items.len() > 0 {
        let rest = items.drop_last();
        assert forall|i: int| 0 <= i < rest.len() implies rotatable(chroms, per_chrom, span, #[trigger] rest[i]) by {
            assert(rest[i] == items[i]);
        }
        lemma_circle_total_length(chroms, per_chrom, span, rest, shift);
        let x = items.last();
        assert(rotatable(chroms, per_chrom, span, items[items.len() - 1]));
        let w = window(chroms, per_chrom, span, x)->Some_0;
        lemma_rotation_wraps(x, w.0, w.1, shift);
        let r = rotated(x, w.0, w.1, (shift % ((w.1 - w.0) as u64)) as u64);
        lemma_sum_concat(rotate_all(chroms, per_chrom, span, rest, shift), r, f);
        if r.len() == 1 {
            assert(r.drop_last() =~= Seq::<Iv>::empty());
            assert(crate::bag::sum_of(r.drop_last(), f) == 0);
            assert(r.last() == r[0]);
            assert(crate::bag::sum_of(r, f) == f(r[0]));
        } else {
            assert(r.drop_last().drop_last() =~= Seq::<Iv>::empty());
            assert(r.drop_last().last() == r[0]);
            assert(crate::bag::sum_of(r.drop_last().drop_last(), f) == 0);
            assert(crate::bag::sum_of(r.drop_last(), f) == f(r[0]));
            assert(r.last() == r[1]);
            assert(crate::bag::sum_of(r, f) == f(r[0]) + f(r[1]));
        }
        assert(crate::bag::sum_of(r, f) == iv_len(x));
        assert(rotate_all(chroms, per_chrom, span, items, shift) == rotate_all(chroms, per_chrom, span, rest, shift) + r);
        assert(crate::bag::sum_of(items, f) == crate::bag::sum_of(rest, f) + iv_len(x));
    }
}

} // verus!

verus! {

/// Rotation maps each interval to its own group of one or two pieces: the
/// output is the groups one after another, and the lengths in each group
/// add up to the length of its interval.
pub proof fn lemma_circle_groups(chroms: Seq<Iv>, per_chrom: bool, span: u64, items: Seq<Iv>, shift: u64) -> (groups: Seq<Seq<Iv>>)
    requires
        forall|i: int| 0 <= i < items.len() ==> rotatable(chroms, per_chrom, span, #[trigger] items[i]),
    ensures
        groups.len() == items.len(),
        rotate_all(chroms, per_chrom, span, items, shift) == crate::novl::concat_blocks(groups),
        forall|i: int| 0 <= i < groups.len() ==> 1 <= (#[trigger] groups[i]).len() <= 2
            && crate::bag::sum_of(groups[i], crate::novl::iv_len_fn()) == iv_len(items[i]),
    decreases items.len(),
{
    let f = crate::novl::iv_len_fn();
    if items.len() == 0 {
        Seq::empty()
    } else {
        let rest = items.drop_last();
        assert forall|i: int| 0 <= i < rest.len() implies rotatable(chroms, per_chrom, span, #[trigger] rest[i]) by {
            assert(rest[i] == items[i]);
        }
        let g0 = lemma_circle_groups(chroms, per_chrom, span, rest, shift);
        let x = items.last();
        assert(rotatable(chroms, per_chrom, span, items[items.len() - 1]));
        let w = window(chroms, per_chrom, span, x)->Some_0;
        lemma_rotation_wraps(x, w.0, w.1, shift);
        let r = rotated(x, w.0, w.1, (shift % ((w.1 - w.0) as u64)) as u64);
        if r.len() == 1 {
            assert(r.drop_last() =~= Seq::<Iv>::empty());
            assert(crate::bag::sum_of(r.drop_last(), f) == 0);
            assert(r.last() == r[0]);
        } else {
            assert(r.drop_last().drop_last() =~= Seq::<Iv>::empty());
            assert(r.drop_last().last() == r[0]);
            assert(crate::bag::sum_of(r.drop_last().drop_last(), f) == 0);
            assert(crate::bag::sum_of(r.drop_last(), f) == f(r[0]));
            assert(r.last() == r[1]);
        }
        assert(crate::bag::sum_of(r, f) == iv_len(x));
        let groups = g0.push(r);
        assert(groups.drop_last() =~= g0);
        assert forall|i: int| 0 <= i < groups.len() implies 1 <= (#[trigger] groups[i]).len() <= 2
            && crate::bag::sum_of(groups[i], f) == iv_len(items[i]) by {
            if i < g0.len() {
                assert(groups[i] == g0[i]);
                assert(items[i] == rest[i]);
            }
        }
        groups
    }
}

} // verus!
