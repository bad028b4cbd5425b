use kquant::colors::{Color, ColorKind};
use kquant::kmeans::{Context, KmeansError, NoProgress, ProgressObserver};
use kquant::rng::SeededRng;

fn rgb(r: u8, g: u8, b: u8) -> Color {
    Color { color_type: ColorKind::Rgb8, data: vec![r, g, b] }
}

fn rgba(r: u8, g: u8, b: u8, a: u8) -> Color {
    Color { color_type: ColorKind::Rgba8, data: vec![r, g, b, a] }
}

/// A seed whose first sample of `k` indices out of `n` is, as a set, the
/// wanted one.
fn seed_picking(n: usize, k: usize, wanted: &[usize]) -> u64 {
    for seed in 0..100_000u64 {
        let mut rng = SeededRng::new(seed);
        let mut picks = rng.sample_indices(n, k);
        picks.sort();
        let mut want = wanted.to_vec();
        want.sort();
        if picks == want {
            return seed;
        }
    }
    panic!("no seed below the search bound picks the wanted indices");
}

#[test]
fn lengths_and_range_hold_for_valid_inputs() {
    let points = vec![rgb(1, 2, 3), rgb(4, 5, 6), rgb(7, 8, 9), rgb(250, 250, 250), rgb(0, 0, 0)];
    let mut ctx = Context::new(7);
    let (clusters, assignments) = ctx.k_means(&points, 3, 4).unwrap();
    assert_eq!(clusters.len(), 3);
    assert_eq!(assignments.len(), points.len());
    for &a in &assignments {
        assert!(a < 3);
    }
}

#[test]
fn zero_iterations_keep_initial_assignments() {
    let points = vec![rgb(0, 0, 0), rgb(10, 10, 10), rgb(20, 20, 20)];
    let mut ctx = Context::new(1);
    let (clusters, assignments) = ctx.k_means(&points, 2, 0).unwrap();
    assert_eq!(clusters.len(), 2);
    assert_eq!(assignments, vec![0, 0, 0]);
}

#[test]
fn k_zero_is_rejected() {
    let points = vec![rgb(1, 1, 1)];
    let mut ctx = Context::new(0);
    assert_eq!(ctx.k_means(&points, 0, 3), Err(KmeansError::KZero));
}

#[test]
fn k_above_point_count_is_rejected() {
    let points = vec![rgb(1, 1, 1), rgb(2, 2, 2)];
    let mut ctx = Context::new(0);
    assert_eq!(ctx.k_means(&points, 3, 3), Err(KmeansError::KTooLarge));
}

#[test]
fn k_zero_is_rejected_even_without_points() {
    let points: Vec<Color> = Vec::new();
    let mut ctx = Context::new(0);
    assert_eq!(ctx.k_means(&points, 0, 3), Err(KmeansError::KZero));
}

#[test]
fn identical_inputs_and_seed_reproduce_the_result() {
    let points = vec![
        rgb(3, 14, 15),
        rgb(92, 65, 35),
        rgb(89, 79, 32),
        rgb(38, 46, 26),
        rgb(43, 38, 32),
        rgb(250, 2, 7),
    ];
    let mut ctx1 = Context::new(123456789);
    let mut ctx2 = Context::new(123456789);
    let out1 = ctx1.k_means(&points, 3, 5).unwrap();
    let out2 = ctx2.k_means(&points, 3, 5).unwrap();
    assert_eq!(out1.0, out2.0);
    assert_eq!(out1.1, out2.1);
}

fn sq_dist(a: &Color, b: &Color) -> u64 {
    a.data
        .iter()
        .zip(b.data.iter())
        .map(|(x, y)| {
            let d = (*x as i64) - (*y as i64);
            (d * d) as u64
        })
        .sum()
}

#[test]
fn final_assignment_matches_brute_force_nearest_center() {
    // Re-run the last assignment pass by hand: every assigned center must be
    // at least as close as every other one, with ties toward lower indices.
    // One extra iteration after a run reproduces the run's centers as the
    // pass input.
    let points = vec![
        rgb(0, 0, 0),
        rgb(9, 1, 4),
        rgb(200, 180, 190),
        rgb(10, 250, 3),
        rgb(12, 240, 9),
        rgb(190, 170, 180),
        rgb(4, 4, 4),
    ];
    let seed = 99;
    let mut ctx_pre = Context::new(seed);
    let (centers_pre, _) = ctx_pre.k_means(&points, 3, 4).unwrap();
    let mut ctx = Context::new(seed);
    let (_, assignments) = ctx.k_means(&points, 3, 5).unwrap();
    for (i, p) in points.iter().enumerate() {
        let own = sq_dist(p, &centers_pre[assignments[i]]);
        for (j, c) in centers_pre.iter().enumerate() {
            let other = sq_dist(p, c);
            assert!(own <= other, "point {} assigned to a farther center", i);
            if j < assignments[i] {
                assert!(other > own, "tie not broken toward the lowest index");
            }
        }
    }
}

#[test]
fn empty_cluster_keeps_its_initializing_point() {
    // Both initial centers are the duplicated dark point, so the tie sends
    // every point to index zero and cluster one stays empty; its center must
    // remain byte-identical to the point that initialized it.
    let points = vec![rgb(0, 0, 0), rgb(0, 0, 0), rgb(0, 0, 1)];
    let seed = seed_picking(3, 2, &[0, 1]);
    let mut ctx = Context::new(seed);
    let (clusters, assignments) = ctx.k_means(&points, 2, 1).unwrap();
    assert_eq!(assignments, vec![0, 0, 0]);
    assert_eq!(clusters[1], rgb(0, 0, 0));
}

#[test]
fn well_separated_clusters_converge_to_their_means() {
    // Two groups on the red axis with known means 15 and 205.
    let points = vec![rgb(10, 0, 0), rgb(20, 0, 0), rgb(200, 0, 0), rgb(210, 0, 0)];
    let seed = seed_picking(4, 2, &[0, 2]);
    let mut ctx = Context::new(seed);
    let (clusters, assignments) = ctx.k_means(&points, 2, 5).unwrap();
    let mut reds: Vec<u8> = clusters.iter().map(|c| c.data[0]).collect();
    reds.sort();
    assert_eq!(reds, vec![15, 205]);
    assert_eq!(assignments[0], assignments[1]);
    assert_eq!(assignments[2], assignments[3]);
    assert_ne!(assignments[0], assignments[2]);
}

#[test]
fn k_equal_to_point_count_yields_singleton_clusters() {
    let points = vec![rgb(0, 0, 0), rgb(50, 0, 0), rgb(100, 0, 0), rgb(150, 0, 0)];
    let mut ctx = Context::new(5);
    let (clusters, assignments) = ctx.k_means(&points, 4, 6).unwrap();
    assert_eq!(clusters.len(), 4);
    let mut seen = assignments.clone();
    seen.sort();
    assert_eq!(seen, vec![0, 1, 2, 3]);
    for (i, p) in points.iter().enumerate() {
        assert_eq!(&clusters[assignments[i]], p);
    }
}

#[test]
fn four_point_two_cluster_scenario() {
    // Two extreme points seed the clusters; the dark pair and the light pair
    // group together, and the means truncate to (0,0,0) and (255,255,254).
    let points = vec![rgb(0, 0, 0), rgb(0, 0, 1), rgb(255, 255, 254), rgb(255, 255, 255)];
    let seed = seed_picking(4, 2, &[0, 3]);
    let mut ctx = Context::new(seed);
    let (clusters, assignments) = ctx.k_means(&points, 2, 5).unwrap();
    assert_eq!(assignments[0], assignments[1]);
    assert_eq!(assignments[2], assignments[3]);
    assert_ne!(assignments[0], assignments[2]);
    let dark = &clusters[assignments[0]];
    let light = &clusters[assignments[2]];
    assert_eq!(dark, &rgb(0, 0, 0));
    assert_eq!(light, &rgb(255, 255, 254));
}

#[test]
fn alpha_channel_participates_in_clustering() {
    // Colors equal in rgb but far apart in alpha must split into their own
    // clusters.
    let points = vec![rgba(10, 10, 10, 0), rgba(10, 10, 10, 255), rgba(10, 10, 10, 250)];
    let seed = seed_picking(3, 2, &[0, 1]);
    let mut ctx = Context::new(seed);
    let (clusters, assignments) = ctx.k_means(&points, 2, 4).unwrap();
    assert_ne!(assignments[0], assignments[1]);
    assert_eq!(assignments[1], assignments[2]);
    let opaque = &clusters[assignments[1]];
    assert_eq!(opaque.data[3], 252);
}

struct CountingObserver {
    calls: Vec<(usize, usize)>,
}

impl ProgressObserver for CountingObserver {
    fn on_iteration(&mut self, done: usize, total: usize) {
        self.calls.push((done, total));
    }
}

#[test]
fn progress_signal_reports_each_iteration_and_leaves_results_alone() {
    let points = vec![rgb(1, 2, 3), rgb(100, 110, 120), rgb(7, 6, 5)];
    let mut observed = Context::new(42);
    let mut plain = Context::new(42);
    let mut counter = CountingObserver { calls: Vec::new() };
    let with_signal = observed.k_means_observed(&points, 2, 3, &mut counter).unwrap();
    let without = plain.k_means_observed(&points, 2, 3, &mut NoProgress {}).unwrap();
    assert_eq!(counter.calls, vec![(0, 3), (1, 3), (2, 3)]);
    assert_eq!(with_signal.0, without.0);
    assert_eq!(with_signal.1, without.1);
}

#[test]
fn sampling_is_deterministic_distinct_and_in_range() {
    let mut rng1 = SeededRng::new(33);
    let mut rng2 = SeededRng::new(33);
    let a = rng1.sample_indices(10, 6);
    let b = rng2.sample_indices(10, 6);
    assert_eq!(a, b);
    assert_eq!(a.len(), 6);
    for &v in &a {
        assert!(v < 10);
    }
    let mut sorted = a.clone();
    sorted.sort();
    sorted.dedup();
    assert_eq!(sorted.len(), 6);
}

#[test]
fn sampling_everything_permutes_the_index_range() {
    let mut rng = SeededRng::new(77);
    let mut all = rng.sample_indices(5, 5);
    all.sort();
    assert_eq!(all, vec![0, 1, 2, 3, 4]);
}
