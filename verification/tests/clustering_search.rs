use image_cluster::clustering::bayes::{
    is_valid_dim, max_min_samples, objective, rows_to_work_on, safe_pca_dim, search_space, BestScore,
};
use image_cluster::clustering::dimension::DimSearch;
use image_cluster::clustering::halving::{
    is_scorable, pca_is_possible, score_hdbscan, score_pca_dim, HdbscanSearch, PcaSearch,
};
use image_cluster::clustering::ranking::{first_smallest, is_comparable, keep_best, rank};
use image_cluster::ieee::{Real32, Real64};

fn r32(x: f32) -> Real32 {
    Real32::from_bits(x.to_bits())
}

fn r64(x: f64) -> Real64 {
    Real64::from_bits(x.to_bits())
}

fn all32(xs: &[f32]) -> Vec<Real32> {
    xs.iter().map(|&x| r32(x)).collect()
}

#[test]
fn bit_patterns_compare_as_numbers_do() {
    let xs = [
        f32::NEG_INFINITY,
        f32::MIN,
        -1.5,
        -f32::MIN_POSITIVE,
        -0.0,
        0.0,
        f32::MIN_POSITIVE,
        0.5,
        f32::MAX,
        f32::INFINITY,
        f32::NAN,
        -f32::NAN,
    ];
    for &a in &xs {
        for &b in &xs {
            assert_eq!(r32(a).is_below(r32(b)), a < b, "{a} {b}");
            let (c, d) = (a as f64, b as f64);
            assert_eq!(r64(c).is_below(r64(d)), c < d, "{c} {d}");
        }
        assert_eq!(r32(a).is_nan(), a.is_nan());
        assert_eq!(r64(a as f64).is_nan(), a.is_nan());
        assert_eq!(r64(a as f64).negate().bits, (-(a as f64)).to_bits());
    }
    assert_eq!(Real32::neg_infinity().bits, f32::NEG_INFINITY.to_bits());
}

#[test]
fn negation_turns_the_order_round() {
    let (a, b) = (r64(0.25), r64(0.75));
    assert!(a.is_below(b));
    assert!(objective(b).is_below(objective(a)));
    assert_eq!(objective(objective(a)), a);
    assert_eq!(objective(r64(f64::NEG_INFINITY)).bits, f64::INFINITY.to_bits());
}

#[test]
fn first_of_the_least_is_found() {
    assert_eq!(first_smallest(&all32(&[3.0, 1.0, 2.0, 1.0])), 1);
    assert_eq!(first_smallest(&all32(&[0.0, -0.0])), 0);
    assert_eq!(first_smallest(&all32(&[f32::NAN])), 0);
    assert!(is_comparable(&all32(&[f32::NAN])));
    assert!(is_comparable(&all32(&[])));
    assert!(is_comparable(&all32(&[1.0, f32::INFINITY])));
    assert!(!is_comparable(&all32(&[1.0, f32::NAN])));
}

#[test]
fn ranking_is_stable_and_descending() {
    let scores = all32(&[0.1, 0.9, f32::NEG_INFINITY, 0.9, 0.5]);
    assert_eq!(rank(&scores), vec![1, 3, 4, 0, 2]);
    assert_eq!(keep_best(&vec!['a', 'b', 'c', 'd', 'e'], &scores, 3), vec!['b', 'd', 'e']);
    let kept = keep_best(&vec![0usize, 1, 2, 3, 4], &scores, 0);
    assert!(kept.is_empty());
}

#[test]
fn clusterings_are_scored_or_rejected() {
    let rejected = f32::NEG_INFINITY.to_bits();
    assert_eq!(score_hdbscan(2, r32(0.5), Some(r32(0.75))), r32(0.75));
    assert_eq!(score_hdbscan(1, r32(0.0), Some(r32(0.75))).bits, rejected);
    assert_eq!(score_hdbscan(2, r32(0.50001), Some(r32(0.75))).bits, rejected);
    assert_eq!(score_hdbscan(3, r32(0.1), None).bits, rejected);
    assert!(is_scorable(2, r32(f32::NAN)));
    assert!(!is_scorable(0, r32(0.0)));
    assert_eq!(score_pca_dim(201, 200, Some(r32(0.25))), r32(0.25));
    assert_eq!(score_pca_dim(200, 200, Some(r32(0.25))).bits, rejected);
    assert_eq!(score_pca_dim(201, 200, None).bits, rejected);
    assert!(pca_is_possible(3, 2));
    assert!(!pca_is_possible(2, 2));
}

#[test]
fn hdbscan_grid_is_halved_to_a_winner() {
    let mut search = HdbscanSearch::new();
    assert_eq!(search.candidates.len(), 25);
    assert_eq!(search.candidates[0], (3, 3));
    assert_eq!(search.candidates[1], (3, 5));
    assert_eq!(search.candidates[5], (5, 3));
    assert_eq!(search.candidates[24], (50, 50));
    let mut sizes = Vec::new();
    let mut kept = Vec::new();
    for _ in 0..3 {
        sizes.push(search.sample_size(103));
        let scores: Vec<Real32> = search
            .candidates
            .iter()
            .map(|&(ms, mc)| r32(-((ms as f32 - 10.0).abs() + (mc as f32 - 20.0).abs())))
            .collect();
        search.finish_round(&scores);
        kept.push(search.candidates.len());
    }
    assert_eq!(sizes, vec![25, 51, 103]);
    assert_eq!(kept, vec![25, 12, 6]);
    assert_eq!(search.winner(), (10, 20));
}

#[test]
fn equal_scores_leave_the_first_pair() {
    let mut search = HdbscanSearch::new();
    for _ in 0..3 {
        let scores = vec![r32(f32::NEG_INFINITY); search.candidates.len()];
        search.finish_round(&scores);
    }
    assert_eq!(search.winner(), (3, 3));
}

#[test]
fn pca_dimensions_are_halved_to_a_winner() {
    let mut search = PcaSearch::new(769);
    assert_eq!(search.candidates, vec![200, 256, 320, 400, 512, 640, 768]);
    let mut kept = Vec::new();
    for _ in 0..3 {
        let scores: Vec<Real32> =
            search.candidates.iter().map(|&d| r32(-(d as f32 - 500.0).abs())).collect();
        search.finish_round(&scores);
        kept.push(search.candidates.len());
    }
    assert_eq!(kept, vec![7, 3, 2]);
    assert_eq!(search.winner(), 512);
    assert_eq!(PcaSearch::new(257).candidates, vec![200, 256]);
    assert_eq!(PcaSearch::new(512).candidates, vec![200, 256, 320, 400]);
}

fn run(n_cols: usize, works: impl Fn(usize) -> bool) -> DimSearch {
    let mut search = DimSearch::new(n_cols);
    while let Some(dim) = search.next() {
        search.report(works(dim));
    }
    search
}

#[test]
fn largest_working_dimension_is_found() {
    for top in 2..100 {
        assert_eq!(run(100, |d| d <= top).last_good, top);
    }
    assert_eq!(run(100, |_| false).last_good, 2);
    assert_eq!(run(100, |d| d <= 1).last_good, 2);
}

#[test]
fn safe_dimension_keeps_a_margin() {
    for top in [2usize, 9, 10, 11, 99, 100, 767, 12345] {
        let dim = run(20000, |d| d <= top).find_safe_pca_dim();
        assert_eq!(dim, ((top as f64) * 0.9) as usize);
    }
    assert_eq!(run(0, |_| true).find_safe_pca_dim(), 1);
    assert_eq!(run(2, |_| true).find_safe_pca_dim(), 1);
    let far = DimSearch { lo: 2, hi: 2, last_good: 1 << 49 };
    assert_eq!(far.find_safe_pca_dim(), (((1u64 << 49) as f64) * 0.9) as usize);
}

#[test]
fn search_space_follows_the_data() {
    assert_eq!(safe_pca_dim(10, 768), 9);
    assert_eq!(safe_pca_dim(5000, 768), 767);
    assert_eq!(rows_to_work_on(100, 768), 100);
    assert_eq!(rows_to_work_on(5000, 768), 2000);
    assert_eq!(rows_to_work_on(5000, 3000), 3000);
    for n in [0usize, 1, 99, 143, 144, 9999, 10000, 10404, 1_000_000] {
        let expected = (((n as f64).sqrt() as usize) / 2).max(5).min(50);
        assert_eq!(max_min_samples(n), expected, "{n}");
    }
    let space = search_space(5000, 768, 2000);
    assert_eq!(space.pca_dim, (50, 767));
    assert_eq!(space.min_samples, (2, 22));
    assert_eq!(space.min_cluster_size, (2, 22));
    assert!(is_valid_dim(3, 2));
    assert!(!is_valid_dim(2, 2));
    assert!(!is_valid_dim(100, 1));
}

#[test]
fn best_score_is_kept() {
    let mut best = BestScore::new();
    assert_eq!(best.best.bits, f64::NEG_INFINITY.to_bits());
    assert!(!best.offer(r64(f64::NEG_INFINITY)));
    assert!(best.offer(r64(0.5)));
    assert!(!best.offer(r64(0.5)));
    assert!(!best.offer(r64(f64::NAN)));
    assert!(best.offer(r64(0.75)));
    assert!(!best.offer(r64(0.25)));
    assert_eq!(best.best, r64(0.75));
}
