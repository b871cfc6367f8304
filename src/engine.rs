//! The permutation engine: setting the two collections up, splitting the
//! trials into chunks, and running a chunk of randomize-then-count trials.
use crate::intervals::{all_valid, covered, separated, set_items, IntervalSet, Iv};
use crate::bag::bag_of;
use crate::novl::{budget_view, novl_intervals, novl_outcome, region_bag, region_fits, regions};
use crate::overlap::{get_any_overlap_count, get_num_overlap_count};
use crate::randomize::{
    circle_intervals, circle_outcome, len_bag, placeable, placed_from, rotatable, shuffle_intervals, shuffle_outcome, Genome,
    RandomizeError,
};
use tinyrand::Wyrand;
use vstd::prelude::*;

verus! {

/// Which overlap statistic a run computes.
#[derive(Debug, Clone, Copy, PartialEq, Eq)]
pub enum Counter {
    /// Number of A-intervals that hit any B-interval.
    Any,
    /// Number of (A-interval, B-interval) pairs that hit.
    All,
}

/// Which null model a run randomizes under.
#[derive(Debug, Clone, Copy, PartialEq, Eq)]
pub enum Randomizer {
    /// Circular rotation by one shared shift.
    Circle,
    /// Independent uniform placement of each interval.
    Shuffle,
    /// Non-overlapping relocation among random gaps.
    Novl,
}

/// Trials per worker: `n` divided by `t`, rounded up.
pub open spec fn chunk_len(n: int, t: int) -> int {
    n / t + if n % t == 0 { 0int } else { 1int }
}

/// The half-open range of trial numbers that worker `i` of `t` runs.
pub open spec fn chunk_range(n: int, t: int, i: int) -> (int, int) {
    let c = chunk_len(n, t);
    let start = if i * c < n { i * c } else { n };
    let stop = if i * c + c < n { i * c + c } else { n };
    (start, stop)
}

/// Splits `n` trials among `t` workers: worker `i` runs the trials in the
/// returned half-open range.
pub fn chunk_bounds(n: u64, t: u64, i: u64) -> (r: (u64, u64))
    requires
        t >= 1,
    ensures
        r.0 == chunk_range(n as int, t as int, i as int).0,
        r.1 == chunk_range(n as int, t as int, i as int).1,
{
    let q = n / t;
    let c: u128 = q as u128 + if n % t == 0 { 0 } else { 1 };
    assert((i as int) * (c as int) <= (u64::MAX as int) * (u64::MAX as int + 1)) by (nonlinear_arith)
        requires
            i <= u64::MAX,
            c <= u64::MAX as int + 1,
            c >= 0,
    ;
    let first: u128 = i as u128 * c;
    let start: u64 = if first < n as u128 { first as u64 } else { n };
    let stop: u64 = if first < n as u128 && c < n as u128 - first { (first + c) as u64 } else { n };
    (start, stop)
}

/// The workers' ranges follow one another from `0` to `n`: together they
/// run every trial once.
pub proof fn lemma_chunks_partition(n: int, t: int, i: int)
    requires
        n >= 0,
        t >= 1,
        0 <= i < t,
    ensures
        chunk_range(n, t, 0).0 == 0,
        chunk_range(n, t, i).0 <= chunk_range(n, t, i).1,
        i + 1 < t ==> chunk_range(n, t, i).1 == chunk_range(n, t, i + 1).0,
        chunk_range(n, t, t - 1).1 == n,
{
    let c = chunk_len(n, t);
    vstd::arithmetic::div_mod::lemma_fundamental_div_mod(n, t);
    vstd::arithmetic::div_mod::lemma_mod_bound(n, t);
    assert(0 <= n / t) by {
        vstd::arithmetic::div_mod::lemma_div_pos_is_pos(n, t);
    }
    assert(t * c >= n) by (nonlinear_arith)
        requires
            n == t * (n / t) + n % t,
            0 <= n % t < t,
            c == n / t + if n % t == 0 { 0int } else { 1int },
    ;
    assert((t - 1) * c + c == t * c) by (nonlinear_arith);
    assert(i * c + c == (i + 1) * c) by (nonlinear_arith);
    assert(0 * c == 0);
    assert(i * c >= 0) by (nonlinear_arith)
        requires
            i >= 0,
            c >= 0,
    ;
}

/// Merges each collection unless told not to, then puts the shorter one
/// first unless told not to; says whether the two were swapped.
pub fn prepare_sets(a: IntervalSet, b: IntervalSet, no_merge: bool, no_swap: bool) -> (r: (IntervalSet, IntervalSet, bool))
    requires
        all_valid(set_items(a)),
        all_valid(set_items(b)),
    ensures
        ({
            let (x, y, swapped) = r;
            let (ma, mb) = if swapped { (y, x) } else { (x, y) };
            &&& covered(set_items(ma)) == covered(set_items(a))
            &&& covered(set_items(mb)) == covered(set_items(b))
            &&& all_valid(set_items(x))
            &&& all_valid(set_items(y))
            &&& no_merge ==> set_items(ma) == set_items(a) && set_items(mb) == set_items(b)
            &&& !no_merge ==> separated(set_items(ma)) && separated(set_items(mb))
            &&& swapped == (!no_swap && set_items(ma).len() > set_items(mb).len())
        }),
{
    let mut a = a;
    let mut b = b;
    if !no_merge {
        a.merge_overlaps();
        b.merge_overlaps();
    }
    if !no_swap && a.len() > b.len() {
        (b, a, true)
    } else {
        (a, b, false)
    }
}

/// The chosen null model can place every interval of `items`.
pub open spec fn randomizable(which: Randomizer, items: Seq<Iv>, genome: &Genome, per_chrom: bool) -> bool {
    match which {
        Randomizer::Shuffle => forall|i: int| 0 <= i < items.len()
            ==> placeable(set_items(genome.chrom), per_chrom, genome.span, #[trigger] items[i]),
        Randomizer::Circle => forall|i: int| 0 <= i < items.len()
            ==> rotatable(set_items(genome.chrom), per_chrom, genome.span, #[trigger] items[i]),
        Randomizer::Novl => forall|k: int| 0 <= k < regions(set_items(genome.chrom), per_chrom, genome.span).len()
            ==> region_fits(budget_view(genome.gap_budget), items, #[trigger] regions(set_items(genome.chrom), per_chrom, genome.span)[k]),
    }
}

/// `t` is what one run of the chosen null model on `items` may give.
pub open spec fn outcome(which: Randomizer, items: Seq<Iv>, genome: &Genome, per_chrom: bool, t: Seq<Iv>) -> bool {
    match which {
        Randomizer::Shuffle => shuffle_outcome(set_items(genome.chrom), per_chrom, genome.span, items, t),
        Randomizer::Circle => circle_outcome(set_items(genome.chrom), per_chrom, genome.span, items, t),
        Randomizer::Novl => novl_outcome(budget_view(genome.gap_budget), items, regions(set_items(genome.chrom), per_chrom, genome.span), t),
    }
}

/// The chosen overlap statistic of `a` against `b`.
pub open spec fn statistic(counter: Counter, a: Seq<Iv>, b: Seq<Iv>) -> int {
    match counter {
        Counter::Any => crate::overlap::count_any_spec(a, b) as int,
        Counter::All => crate::overlap::count_all_spec(a, b) as int,
    }
}

/// `x` is the statistic, against `b`, of some outcome of the null model on `items`.
pub open spec fn trial_value(counter: Counter, random: Randomizer, items: Seq<Iv>, genome: &Genome, per_chrom: bool, b: Seq<Iv>, x: u64) -> bool {
    exists|t: Seq<Iv>| #[trigger] outcome(random, items, genome, per_chrom, t) && x == statistic(counter, t, b)
}

/// Some outcome of the null model on `items` has too many pairs with `b` to count in 64 bits.
pub open spec fn may_overflow(random: Randomizer, items: Seq<Iv>, genome: &Genome, per_chrom: bool, b: Seq<Iv>) -> bool {
    exists|t: Seq<Iv>| #[trigger] outcome(random, items, genome, per_chrom, t) && t.len() * b.len() > u64::MAX
}

/// Runs the chosen null model once.
pub fn randomize_with(which: Randomizer, intv: &IntervalSet, genome: &Genome, per_chrom: bool, rng: &mut Wyrand) -> (r: Result<IntervalSet, RandomizeError>)
    requires
        all_valid(set_items(*intv)),
        genome.span > 0,
    ensures
        r is Ok <==> randomizable(which, set_items(*intv), genome, per_chrom),
        r matches Err(e) ==> e != RandomizeError::TooManyPairs,
        r matches Ok(s) ==> outcome(which, set_items(*intv), genome, per_chrom, set_items(s)),
        which != Randomizer::Circle ==> (r matches Ok(s) ==> len_bag(set_items(s)) == match which {
            Randomizer::Novl => bag_of(regions(set_items(genome.chrom), per_chrom, genome.span), region_bag(set_items(*intv))),
            _ => len_bag(set_items(*intv)),
        }),
{
    match which {
        Randomizer::Circle => circle_intervals(intv, genome, per_chrom, rng),
        Randomizer::Shuffle => shuffle_intervals(intv, genome, per_chrom, rng),
        Randomizer::Novl => novl_intervals(intv, genome, per_chrom, rng),
    }
}

/// Computes the chosen statistic; an error when the pairs to count could
/// overflow 64 bits.
pub fn count_with(which: Counter, a: &IntervalSet, b: &IntervalSet) -> (r: Result<u64, RandomizeError>)
    ensures
        r is Err <==> which == Counter::All && set_items(*a).len() * set_items(*b).len() > u64::MAX,
        r matches Err(e) ==> e == RandomizeError::TooManyPairs,
        r matches Ok(c) ==> c == statistic(which, set_items(*a), set_items(*b)),
{
    match which {
        Counter::Any => Ok(get_any_overlap_count(a, b)),
        Counter::All => {
            let la = a.len() as u128;
            let lb = b.len() as u128;
            assert(la * lb <= (usize::MAX as int) * (usize::MAX as int)) by (nonlinear_arith)
                requires
                    la <= usize::MAX,
                    lb <= usize::MAX,
            ;
            if la * lb > u64::MAX as u128 {
                Err(RandomizeError::TooManyPairs)
            } else {
                Ok(get_num_overlap_count(a, b))
            }
        },
    }
}

/// Runs `n_trials` trials one after another: randomize `a`, then count its
/// overlap with `b`. Gives one statistic per trial, or the first error.
pub fn run_trials(
    counter: Counter,
    random: Randomizer,
    a: &IntervalSet,
    b: &IntervalSet,
    genome: &Genome,
    per_chrom: bool,
    n_trials: u64,
    rng: &mut Wyrand,
) -> (r: Result<Vec<u64>, RandomizeError>)
    requires
        all_valid(set_items(*a)),
        genome.span > 0,
    ensures
        r matches Ok(v) ==> v@.len() == n_trials,
        n_trials == 0 ==> r is Ok,
        n_trials > 0 && !randomizable(random, set_items(*a), genome, per_chrom) ==> r is Err,
        r matches Err(e) ==> n_trials > 0 && (e == RandomizeError::TooManyPairs || !randomizable(random, set_items(*a), genome, per_chrom)),
        randomizable(random, set_items(*a), genome, per_chrom) && counter == Counter::Any ==> r is Ok,
        r matches Ok(v) ==> forall|k: int| 0 <= k < v@.len()
            ==> trial_value(counter, random, set_items(*a), genome, per_chrom, set_items(*b), #[trigger] v@[k]),
        r matches Err(e) ==> (e == RandomizeError::TooManyPairs
            ==> counter == Counter::All && may_overflow(random, set_items(*a), genome, per_chrom, set_items(*b))),
        random == Randomizer::Shuffle && randomizable(random, set_items(*a), genome, per_chrom)
            && (counter == Counter::Any || set_items(*a).len() * set_items(*b).len() <= u64::MAX) ==> r is Ok,
{
    let mut out: Vec<u64> = Vec::new();
    let mut k: u64 = 0;
    while k < n_trials
        invariant
            out@.len() == k,
            k <= n_trials,
            all_valid(set_items(*a)),
            genome.span > 0,
            k > 0 ==> randomizable(random, set_items(*a), genome, per_chrom),
            forall|j: int| 0 <= j < out@.len()
                ==> trial_value(counter, random, set_items(*a), genome, per_chrom, set_items(*b), #[trigger] out@[j]),
        decreases n_trials - k,
    {
        let shuffled = match randomize_with(random, a, genome, per_chrom, rng) {
            Ok(s) => s,
            Err(e) => return Err(e),
        };
        proof {
            if random == Randomizer::Shuffle {
                let t = set_items(shuffled);
                let v = choose|v: Seq<Iv>| #[trigger] v.to_multiset() == t.to_multiset() && v.len() == set_items(*a).len()
                    && forall|i: int| 0 <= i < v.len() ==> placed_from(set_items(genome.chrom), per_chrom, genome.span, set_items(*a)[i], #[trigger] v[i]);
                vstd::seq_lib::to_multiset_len(v);
                vstd::seq_lib::to_multiset_len(t);
            }
        }
        let c = match count_with(counter, &shuffled, b) {
            Ok(c) => c,
            Err(e) => {
                assert(outcome(random, set_items(*a), genome, per_chrom, set_items(shuffled)));
                return Err(e);
            },
        };
        assert(outcome(random, set_items(*a), genome, per_chrom, set_items(shuffled)));
        out.push(c);
        k = k + 1;
    }
    Ok(out)
}

} // verus!
