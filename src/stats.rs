//! Integer parts of the significance calculation: the direction of the
//! test, the number of trials at least as extreme as the observation, and
//! the add-one p-value as a fraction.
use vstd::prelude::*;

verus! {

/// Sum of the trial statistics.
pub open spec fn total_of(v: Seq<u64>) -> int
    decreases v.len(),
{
    if v.len() == 0 {
        0
    } else {
        total_of(v.drop_last()) + v.last()
    }
}

/// Number of trials counted as at least as extreme as `obs`: for `'l'`
/// those at or above it, for `'g'` those at or below it, else none.
pub open spec fn extreme_count(obs: u64, v: Seq<u64>, alt: char) -> int
    decreases v.len(),
{
    if v.len() == 0 {
        0
    } else {
        extreme_count(obs, v.drop_last(), alt) + if (alt == 'l' && v.last() >= obs) || (alt == 'g' && v.last() <= obs) {
            1int
        } else {
            0int
        }
    }
}

proof fn lemma_total_bound(v: Seq<u64>)
    ensures
        0 <= total_of(v) <= v.len() * (u64::MAX as int),
    decreases v.len(),
{
    if v.len() > 0 {
        lemma_total_bound(v.drop_last());
        assert((v.len() - 1) * (u64::MAX as int) + u64::MAX == v.len() * (u64::MAX as int)) by (nonlinear_arith);
    }
}

proof fn lemma_extreme_bound(obs: u64, v: Seq<u64>, alt: char)
    ensures
        0 <= extreme_count(obs, v, alt) <= v.len(),
    decreases v.len(),
{
    if v.len() > 0 {
        lemma_extreme_bound(obs, v.drop_last(), alt);
    }
}

/// Sum of the trial statistics, which cannot overflow.
pub fn sum_counts(v: &Vec<u64>) -> (r: u128)
    ensures
        r == total_of(v@),
{
    let mut s: u128 = 0;
    let mut i: usize = 0;
    while i < v.len()
        invariant
            0 <= i <= v@.len(),
            s == total_of(v@.take(i as int)),
        decreases v@.len() - i,
    {
        proof {
            let t = v@.take(i as int + 1);
            assert(t.drop_last() =~= v@.take(i as int));
            lemma_total_bound(t);
            assert(t.len() * (u64::MAX as int) <= (usize::MAX as int) * (u64::MAX as int)) by (nonlinear_arith)
                requires t.len() <= usize::MAX;
        }
        s = s + v[i] as u128;
        i = i + 1;
    }
    assert(v@.take(v@.len() as int) =~= v@);
    s
}

/// The direction of the test: `'l'` when the observation lies below the
/// mean of the trials, `'g'` otherwise.
pub fn choose_alt(obs: u64, trials: &Vec<u64>) -> (r: char)
    ensures
        r == if (obs as int) * trials@.len() < total_of(trials@) { 'l' } else { 'g' },
{
    let total = sum_counts(trials);
    let n = trials.len();
    assert((obs as int) * (trials@.len() as int) <= (u64::MAX as int) * (usize::MAX as int)) by (nonlinear_arith)
        requires
            obs <= u64::MAX,
            trials@.len() == n,
            n <= usize::MAX,
    ;
    let scaled = obs as u128 * n as u128;
    if scaled < total {
        'l'
    } else {
        'g'
    }
}

/// Number of trials at least as extreme as the observation in the direction `alt`.
pub fn count_permutations(o_count: u64, obs: &Vec<u64>, alt: char) -> (r: u64)
    ensures
        r == extreme_count(o_count, obs@, alt),
{
    let mut g: u64 = 0;
    let mut i: usize = 0;
    while i < obs.len()
        invariant
            0 <= i <= obs@.len(),
            g == extreme_count(o_count, obs@.take(i as int), alt),
        decreases obs@.len() - i,
    {
        proof {
            let t = obs@.take(i as int + 1);
            assert(t.drop_last() =~= obs@.take(i as int));
            lemma_extreme_bound(o_count, t, alt);
        }
        let x = obs[i];
        if (alt == 'l' && x >= o_count) || (alt == 'g' && x <= o_count) {
            g = g + 1;
        }
        i = i + 1;
    }
    assert(obs@.take(obs@.len() as int) =~= obs@);
    g
}

/// The add-one permutation p-value as numerator and denominator:
/// `(g_count + 1, n + 1)`.
pub fn p_value_fraction(g_count: u64, n: u64) -> (r: (u128, u128))
    ensures
        r.0 == g_count + 1,
        r.1 == n + 1,
{
    (g_count as u128 + 1, n as u128 + 1)
}

/// The p-value lies in `(0, 1]`, and equals `1 / (N + 1)` exactly when no
/// trial is as extreme as the observation.
pub proof fn lemma_p_value_bounds(obs: u64, trials: Seq<u64>, alt: char)
    requires
        trials.len() >= 1,
    ensures
        ({
            let g = extreme_count(obs, trials, alt);
            let num = g + 1;
            let den = trials.len() + 1;
            &&& 0 < num <= den
            &&& (num == 1 <==> g == 0)
        }),
{
    lemma_extreme_bound(obs, trials, alt);
}

/// All trials take the same value, so their standard deviation is zero.
pub open spec fn all_equal(v: Seq<u64>) -> bool {
    forall|i: int, j: int| 0 <= i < v.len() && 0 <= j < v.len() ==> v[i] == v[j]
}

/// The z-score cannot be formed: the observation is zero and the trials
/// have no spread.
pub fn z_is_degenerate(obs: u64, trials: &Vec<u64>) -> (r: bool)
    ensures
        r == (obs == 0 && all_equal(trials@)),
{
    if obs != 0 {
        return false;
    }
    let mut i: usize = 1;
    while i < trials.len()
        invariant
            1 <= i,
            i <= trials@.len() || trials@.len() == 0,
            forall|k: int| 0 <= k < i && k < trials@.len() ==> #[trigger] trials@[k] == trials@[0],
        decreases trials@.len() - i,
    {
        if trials[i] != trials[0] {
            return false;
        }
        i = i + 1;
    }
    true
}

} // verus!
