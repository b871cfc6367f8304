use region_perm::engine::{chunk_bounds, count_with, prepare_sets, run_trials, Counter, Randomizer};
use region_perm::intervals::IntervalSet;
use region_perm::novl::{draw_gaps, lay_out, make_gap_budget, novl_intervals, novl_region};
use region_perm::overlap::{get_any_overlap_count, get_num_overlap_count};
use region_perm::randomize::{circle_intervals, circle_with_shift, rotate_one, shuffle_intervals, Genome, RandomizeError};
use region_perm::stats::{choose_alt, count_permutations, p_value_fraction, sum_counts, z_is_degenerate};
use std::collections::HashMap;
use tinyrand::{Seeded, Wyrand};

fn set(v: &[(u64, u64)]) -> IntervalSet {
    IntervalSet::from_intervals(v.iter().map(|&(s, e)| (s, e, 0)).collect())
}

fn whole(span: u64) -> Genome {
    Genome { span, chrom: IntervalSet::from_intervals(vec![(0, span, span)]), gap_budget: None }
}

fn two_chroms() -> Genome {
    Genome {
        span: 300,
        chrom: IntervalSet::from_intervals(vec![(0, 100, 100), (100, 300, 200)]),
        gap_budget: None,
    }
}

fn rng(seed: u64) -> Wyrand {
    Wyrand::seed(seed)
}

#[test]
fn single_hit_counts_once_both_ways() {
    let a = set(&[(100, 200)]);
    let b = set(&[(150, 160)]);
    assert_eq!(get_any_overlap_count(&a, &b), 1);
    assert_eq!(get_num_overlap_count(&a, &b), 1);
}

#[test]
fn all_counts_every_pair_any_counts_once() {
    let a = set(&[(0, 50), (60, 70)]);
    let b = set(&[(10, 20), (30, 40), (100, 110)]);
    assert_eq!(get_any_overlap_count(&a, &b), 1);
    assert_eq!(get_num_overlap_count(&a, &b), 2);
    assert_eq!(count_with(Counter::Any, &a, &b), Ok(1));
    assert_eq!(count_with(Counter::All, &a, &b), Ok(2));
}

#[test]
fn touching_intervals_do_not_overlap() {
    let a = set(&[(0, 10)]);
    let b = set(&[(10, 20)]);
    assert_eq!(get_any_overlap_count(&a, &b), 0);
    assert_eq!(get_num_overlap_count(&a, &b), 0);
}

#[test]
fn empty_b_gives_degenerate_run() {
    let genome = whole(1000);
    let a = set(&[(0, 10)]);
    let b = set(&[]);
    let obs = get_any_overlap_count(&a, &b);
    assert_eq!(obs, 0);
    let trials = run_trials(Counter::Any, Randomizer::Shuffle, &a, &b, &genome, false, 1000, &mut rng(7)).unwrap();
    assert_eq!(trials.len(), 1000);
    assert!(trials.iter().all(|&t| t == 0));
    assert_eq!(sum_counts(&trials), 0);
    let alt = choose_alt(obs, &trials);
    assert_eq!(alt, 'g');
    let g = count_permutations(obs, &trials, alt);
    assert_eq!(g, 1000);
    assert_eq!(p_value_fraction(g, trials.len() as u64), (1001, 1001));
    assert!(z_is_degenerate(obs, &trials));
}

#[test]
fn direction_and_extreme_counts() {
    let trials = vec![1, 2, 3, 4, 5];
    assert_eq!(choose_alt(1, &trials), 'l');
    assert_eq!(choose_alt(3, &trials), 'g');
    assert_eq!(choose_alt(5, &trials), 'g');
    assert_eq!(count_permutations(2, &trials, 'l'), 4);
    assert_eq!(count_permutations(2, &trials, 'g'), 2);
    assert_eq!(count_permutations(2, &trials, 'x'), 0);
    assert_eq!(p_value_fraction(0, 5), (1, 6));
    assert!(!z_is_degenerate(0, &trials));
    assert!(!z_is_degenerate(3, &vec![3, 3]));
    assert!(z_is_degenerate(0, &vec![4, 4, 4]));
}

#[test]
fn p_value_is_one_over_n_plus_one_without_extremes() {
    let trials = vec![10, 11, 12];
    let g = count_permutations(5, &trials, 'g');
    assert_eq!(g, 0);
    let (num, den) = p_value_fraction(g, 3);
    assert_eq!((num, den), (1, 4));
    assert!(num > 0 && num <= den);
}

#[test]
fn rotation_without_wrap() {
    assert_eq!(rotate_one((10, 20, 0), 0, 100, 5), vec![(15, 25, 0)]);
}

#[test]
fn rotation_past_the_end_moves_whole() {
    assert_eq!(rotate_one((60, 70, 0), 0, 100, 50), vec![(10, 20, 0)]);
}

#[test]
fn rotation_across_the_end_splits() {
    let r = rotate_one((90, 100, 0), 0, 100, 5);
    assert_eq!(r, vec![(95, 100, 0), (0, 5, 0)]);
    let total: u64 = r.iter().map(|p| p.1 - p.0).sum();
    assert_eq!(total, 10);
}

#[test]
fn rotation_wraps_inside_chromosome() {
    // window [100, 300), shift 250 is 50 modulo its width
    let r = rotate_one((280, 290, 0), 100, 300, 250);
    assert_eq!(r, vec![(130, 140, 0)]);
    let r = rotate_one((240, 260, 0), 100, 300, 50);
    assert_eq!(r, vec![(290, 300, 0), (100, 110, 0)]);
}

#[test]
fn circle_with_shift_per_chromosome() {
    let genome = two_chroms();
    let items = vec![(90, 100, 0), (150, 160, 0)];
    let r = circle_with_shift(&items, &genome, true, 20).unwrap();
    assert_eq!(r, vec![(10, 20, 0), (170, 180, 0)]);
    let r = circle_with_shift(&items, &genome, false, 160).unwrap();
    assert_eq!(r, vec![(250, 260, 0), (10, 20, 0)]);
}

#[test]
fn circle_rejects_interval_across_chromosomes() {
    let genome = two_chroms();
    let items = vec![(90, 110, 0)];
    assert_eq!(circle_with_shift(&items, &genome, true, 3), Err(RandomizeError::DoesNotFit { start: 90, stop: 110 }));
}

#[test]
fn circle_keeps_total_length() {
    let genome = whole(1000);
    let a = set(&[(0, 10), (500, 600), (990, 1000)]);
    for seed in 0..20 {
        let r = circle_intervals(&a, &genome, false, &mut rng(seed)).unwrap();
        let total: u64 = r.items().iter().map(|p| p.1 - p.0).sum();
        assert_eq!(total, 120);
        assert!(r.items().iter().all(|p| p.1 <= 1000 && p.0 < p.1));
    }
}

#[test]
fn shuffle_keeps_lengths_and_bounds() {
    let genome = two_chroms();
    let a = set(&[(10, 30), (120, 125), (200, 300)]);
    for seed in 0..50 {
        let r = shuffle_intervals(&a, &genome, true, &mut rng(seed)).unwrap();
        let mut lens: Vec<u64> = r.items().iter().map(|p| p.1 - p.0).collect();
        lens.sort();
        assert_eq!(lens, vec![5, 20, 100]);
        for p in r.items() {
            let inside_first = p.1 <= 100;
            let inside_second = p.0 >= 100 && p.1 <= 300;
            assert!(inside_first || inside_second);
        }
    }
}

#[test]
fn shuffle_whole_genome_stays_in_span() {
    let genome = whole(50);
    let a = set(&[(0, 50), (3, 4)]);
    for seed in 0..50 {
        let r = shuffle_intervals(&a, &genome, false, &mut rng(seed)).unwrap();
        assert!(r.items().iter().all(|p| p.1 <= 50));
        assert!(r.items().contains(&(0, 50, 0)));
    }
}

#[test]
fn shuffle_off_genome_is_an_error() {
    let genome = two_chroms();
    let a = set(&[(400, 410)]);
    let r = shuffle_intervals(&a, &genome, true, &mut rng(1));
    assert!(matches!(r, Err(RandomizeError::OffGenome { start: 400, stop: 410 })));
    let too_long = set(&[(0, 60)]);
    let r = shuffle_intervals(&too_long, &whole(50), false, &mut rng(1));
    assert!(matches!(r, Err(RandomizeError::DoesNotFit { start: 0, stop: 60 })));
}

#[test]
fn lay_out_places_pieces_end_to_end() {
    let pieces = vec![(false, 5), (true, 10), (false, 3), (true, 20), (false, 62)];
    let v = lay_out(&pieces, 0, 100).unwrap();
    assert_eq!(v, vec![(5, 15, 0), (18, 38, 0)]);
    assert_eq!(lay_out(&pieces, 1, 100), None);
}

#[test]
fn novl_region_fills_span_without_overlap() {
    let a = set(&[(0, 10), (50, 70)]);
    for seed in 0..30 {
        let v = novl_region(&a, (0, 100, 0), 70, &mut rng(seed)).unwrap();
        assert_eq!(v.len(), 2);
        let mut lens: Vec<u64> = v.iter().map(|p| p.1 - p.0).collect();
        lens.sort();
        assert_eq!(lens, vec![10, 20]);
        assert!(v[0].1 <= v[1].0);
        assert!(v[1].1 <= 100);
    }
}

#[test]
fn novl_with_smaller_budget_stays_disjoint() {
    let a = set(&[(0, 10), (50, 70)]);
    let mut budget = HashMap::new();
    budget.insert(0u64, 40u64);
    let genome = Genome { span: 100, chrom: set(&[(0, 100)]), gap_budget: Some(budget) };
    for seed in 0..30 {
        let r = novl_intervals(&a, &genome, false, &mut rng(seed)).unwrap();
        let v = r.items();
        assert_eq!(v.len(), 2);
        assert!(v[0].1 <= v[1].0 || v[1].1 <= v[0].0);
        assert!(v.iter().all(|p| p.1 <= 70));
    }
}

#[test]
fn novl_needs_a_budget() {
    let a = set(&[(0, 10)]);
    let genome = whole(100);
    let r = novl_intervals(&a, &genome, false, &mut rng(3));
    assert!(matches!(r, Err(RandomizeError::NoGapBudget { region_start: 0 })));
    let mut budget = HashMap::new();
    budget.insert(0u64, 95u64);
    let genome = Genome { span: 100, chrom: set(&[(0, 100)]), gap_budget: Some(budget) };
    let r = novl_intervals(&a, &genome, false, &mut rng(3));
    assert!(matches!(r, Err(RandomizeError::Overrun { region_start: 0 })));
}

#[test]
fn gap_budget_whole_and_per_chromosome() {
    let genome = two_chroms();
    let a = set(&[(10, 30), (20, 40), (150, 160)]);
    let whole_budget = make_gap_budget(&genome, &a, false);
    assert_eq!(whole_budget.len(), 1);
    assert_eq!(whole_budget[&0], 300 - 40);
    let per = make_gap_budget(&genome, &a, true);
    assert_eq!(per.len(), 2);
    assert_eq!(per[&0], 100 - 40);
    assert_eq!(per[&100], 200 - 10);
}

#[test]
fn novl_per_chromosome_fills_each_chromosome() {
    let mut genome = two_chroms();
    let a = set(&[(10, 30), (150, 160), (200, 250)]);
    genome.gap_budget = Some(make_gap_budget(&genome, &a, true));
    for seed in 0..20 {
        let r = novl_intervals(&a, &genome, true, &mut rng(seed)).unwrap();
        let v = r.items();
        let mut lens: Vec<u64> = v.iter().map(|p| p.1 - p.0).collect();
        lens.sort();
        assert_eq!(lens, vec![10, 20, 50]);
        for i in 0..v.len() {
            for j in i + 1..v.len() {
                assert!(v[i].1 <= v[j].0 || v[j].1 <= v[i].0);
            }
        }
    }
}

#[test]
fn gap_pieces_add_up_to_budget() {
    let g = draw_gaps(25_000, &mut rng(11));
    assert!(g.iter().all(|p| !p.0 && p.1 >= 1));
    assert_eq!(g.iter().map(|p| p.1).sum::<u64>(), 25_000);
    assert!(draw_gaps(0, &mut rng(11)).is_empty());
}

#[test]
fn chunks_split_trials() {
    assert_eq!(chunk_bounds(10, 3, 0), (0, 4));
    assert_eq!(chunk_bounds(10, 3, 1), (4, 8));
    assert_eq!(chunk_bounds(10, 3, 2), (8, 10));
    assert_eq!(chunk_bounds(2, 4, 3), (2, 2));
    assert_eq!(chunk_bounds(0, 2, 0), (0, 0));
}

#[test]
fn prepare_merges_and_swaps() {
    let a = set(&[(0, 10), (5, 20), (30, 40), (50, 60)]);
    let b = set(&[(0, 5)]);
    let (x, y, swapped) = prepare_sets(a, b, false, false);
    assert!(swapped);
    assert_eq!(x.items(), vec![(0, 5, 0)]);
    assert_eq!(y.items(), vec![(0, 20, 0), (30, 40, 0), (50, 60, 0)]);
    let a = set(&[(0, 10), (10, 20)]);
    let b = set(&[(0, 5)]);
    let (x, y, swapped) = prepare_sets(a, b, false, false);
    assert!(!swapped);
    assert_eq!(x.items(), vec![(0, 20, 0)]);
    assert_eq!(y.len(), 1);
    let a = set(&[(0, 10), (5, 20)]);
    let b = set(&[(0, 5)]);
    let (_, _, swapped) = prepare_sets(a, b, true, true);
    assert!(!swapped);
}

#[test]
fn count_any_never_exceeds_count_all() {
    let genome = whole(500);
    let a = set(&[(0, 40), (100, 180), (300, 310)]);
    let b = set(&[(10, 20), (30, 35), (150, 160), (400, 450)]);
    for seed in 0..20 {
        let r = shuffle_intervals(&a, &genome, false, &mut rng(seed)).unwrap();
        assert!(get_any_overlap_count(&r, &b) <= get_num_overlap_count(&r, &b));
    }
}

#[test]
fn novl_with_zero_budget_packs_from_region_start() {
    let a = set(&[(0, 10), (50, 70)]);
    let mut budget = HashMap::new();
    budget.insert(0u64, 0u64);
    let genome = Genome { span: 100, chrom: set(&[(0, 100)]), gap_budget: Some(budget) };
    for seed in 0..20 {
        let v = novl_intervals(&a, &genome, false, &mut rng(seed)).unwrap().items();
        assert!(v == vec![(0, 10, 0), (10, 30, 0)] || v == vec![(0, 20, 0), (20, 30, 0)]);
    }
}

#[test]
fn novl_output_ends_by_budget_plus_lengths() {
    let a = set(&[(0, 10), (50, 70)]);
    for seed in 0..20 {
        let v = novl_region(&a, (0, 100, 0), 40, &mut rng(seed)).unwrap();
        assert!(v.iter().all(|p| p.1 <= 70));
        assert!(v[0].1 <= v[1].0);
    }
}

#[test]
fn circle_result_is_sorted_by_start() {
    let genome = whole(1000);
    let items = vec![(900, 1000, 0)];
    let pieces = circle_with_shift(&items, &genome, false, 50).unwrap();
    assert_eq!(pieces, vec![(950, 1000, 0), (0, 50, 0)]);
    let sorted = IntervalSet::from_intervals(pieces).items();
    assert_eq!(sorted, vec![(0, 50, 0), (950, 1000, 0)]);
    let a = set(&[(900, 1000)]);
    for seed in 0..20 {
        let v = circle_intervals(&a, &genome, false, &mut rng(seed)).unwrap().items();
        assert!(v.windows(2).all(|w| w[0].0 <= w[1].0));
        assert_eq!(v.iter().map(|p| p.1 - p.0).sum::<u64>(), 100);
    }
}

#[test]
fn gap_pieces_respect_the_cap() {
    let g = draw_gaps(100_000, &mut rng(5));
    assert!(g.iter().all(|p| p.1 < 10));
    let g = draw_gaps(5, &mut rng(5));
    assert_eq!(g, vec![(false, 1); 5]);
}

#[test]
fn shuffle_output_carries_zero_tags() {
    let genome = whole(200);
    let a = IntervalSet::from_intervals(vec![(10, 20, 7), (50, 80, 9)]);
    let r = shuffle_intervals(&a, &genome, false, &mut rng(2)).unwrap();
    assert!(r.items().iter().all(|p| p.2 == 0 && p.0 < p.1));
}

#[test]
fn trials_count_against_b() {
    let genome = whole(100);
    let a = set(&[(0, 100)]);
    let b = set(&[(10, 20), (40, 50)]);
    let v = run_trials(Counter::All, Randomizer::Shuffle, &a, &b, &genome, false, 5, &mut rng(9)).unwrap();
    assert_eq!(v, vec![2; 5]);
    let v = run_trials(Counter::Any, Randomizer::Circle, &a, &b, &genome, false, 5, &mut rng(9)).unwrap();
    assert!(v.iter().all(|&x| x >= 1 && x <= 2));
}
