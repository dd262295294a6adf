use ternary_walk::{
    AbsorbingWalk, BiasedWalk, CorrelatedWalk, FirstPassageTime, HistorySummary, ReflectingWalk,
    ReturnTimeDistribution, SimpleTernaryWalk, SpatialTernaryWalk, state_counts,
};

fn deterministic_rng(vals: &[u32]) -> impl FnMut() -> u32 + '_ {
    let mut i = 0usize;
    move || {
        let v = vals[i % vals.len()];
        i += 1;
        v
    }
}

#[test]
fn test_simple_walk_basic() {
    let mut w = SimpleTernaryWalk::new(0);
    w.step_with(1);
    w.step_with(1);
    w.step_with(-1);
    assert_eq!(w.position, 1);
    assert_eq!(w.steps, 3);
    assert_eq!(w.history, vec![0, 1, 2, 1]);
}

#[test]
fn test_simple_walk_run() {
    let mut rng = deterministic_rng(&[0, 1, 2]); // -1, 0, +1 repeating
    let mut w = SimpleTernaryWalk::new(0);
    w.run(6, &mut rng);
    // steps: -1, 0, +1, -1, 0, +1 -> position: -1, -1, 0, -1, -1, 0
    assert_eq!(w.position, 0);
    assert_eq!(w.steps, 6);
    assert_eq!(w.history.len(), 7); // start + 6 steps
}

#[test]
fn test_biased_walk_all_positive() {
    let mut rng = deterministic_rng(&[0]); // any value works since weights force +1
    let mut w = BiasedWalk::new(0, [0, 0, 1]); // always +1
    w.run(5, &mut rng);
    assert_eq!(w.position, 5);
}

#[test]
fn test_biased_walk_all_negative() {
    let mut rng = deterministic_rng(&[0]);
    let mut w = BiasedWalk::new(10, [1, 0, 0]); // always -1
    w.run(3, &mut rng);
    assert_eq!(w.position, 7);
}

#[test]
fn summary_statistics_example() {
    let history = vec![0i64, 1, -1, 0, 2];
    let stats = HistorySummary::from_history(&history);
    assert_eq!(stats.position, 2);
    assert_eq!(stats.min, -1);
    assert_eq!(stats.max, 2);
    // 0->1: no cross (both >=0)
    // 1->-1: cross (>=0 to <0)
    // -1->0: cross (<0 to >=0)
    // 0->2: no cross
    assert_eq!(stats.zero_crossings, 2);
}

#[test]
fn summary_sum_gives_mean() {
    let history = vec![2i64, 4, 4, 4, 5, 5, 7, 9];
    let stats = HistorySummary::from_history(&history);
    let n = history.len() as f64;
    let mean = stats.sum as f64 / n;
    let expected_mean = 40.0 / 8.0;
    assert!((mean - expected_mean).abs() < 1e-10);
    let variance = history
        .iter()
        .map(|&v| {
            let d = v as f64 - mean;
            d * d
        })
        .sum::<f64>()
        / n;
    assert!(variance > 0.0);
}

#[test]
fn test_spatial_walk() {
    // 3x3 grid: all zeros except center = 1, top-left = -1
    let grid = vec![-1i64, 0, 0, 0, 1, 0, 0, 0, 0];
    let mut sw = SpatialTernaryWalk::new(3, 3, &grid, 1, 1); // start at center
    assert_eq!(sw.values_read[0], 1); // center value

    sw.step(0); // up -> (1, 2)
    assert_eq!(sw.x, 1);
    assert_eq!(sw.y, 2);
    assert_eq!(*sw.values_read.last().unwrap(), 0);

    sw.step(3); // left -> (0, 2) -- off grid edge reads 0
    assert_eq!(sw.x, 0);
    assert_eq!(sw.y, 2);
}

#[test]
fn test_absorbing_walk() {
    let mut w = AbsorbingWalk::new(0, 3);
    assert!(!w.absorbed);
    w.step(1); // pos=1
    assert!(!w.absorbed);
    w.step(1); // pos=2
    w.step(1); // pos=3 -> absorbed
    assert!(w.absorbed);
    assert_eq!(w.position, 3);
    let result = w.step(1); // no-op
    assert!(!result);
}

#[test]
fn test_reflecting_walk() {
    let mut w = ReflectingWalk::new(0, -2, 2);
    w.step(1); // 1
    w.step(1); // 2
    w.step(1); // would be 3 -> reflect: hi=2, 3-2=1 -> 2-1=1
    assert_eq!(w.position, 1);
    assert_eq!(w.steps, 3);
}

#[test]
fn test_reflecting_walk_lower_boundary() {
    let mut w = ReflectingWalk::new(0, -2, 2);
    w.step(-1); // -1
    w.step(-1); // -2
    w.step(-1); // would be -3 -> reflect: lo=-2, -3-(-2)=-1 -> -2+1=-1
    assert_eq!(w.position, -1);
}

#[test]
fn test_correlated_walk_high_momentum() {
    let mut rng = deterministic_rng(&[99, 0, 0, 0, 0, 0]); // high roll -> keep direction
    let mut w = CorrelatedWalk::new(0, 90, 1); // 90% momentum, direction +1
    w.run(5, &mut rng);
    // roll = 99, momentum = 90: 99 < 90 is false -> new direction from the next draw.
    assert_eq!(w.steps, 5);
    assert_eq!(w.history.len(), 6);
}

#[test]
fn test_correlated_walk_perfect_momentum() {
    let mut rng = deterministic_rng(&[0, 0, 0, 0]);
    let mut w = CorrelatedWalk::new(0, 100, 1); // always repeats direction +1
    w.run(5, &mut rng);
    assert_eq!(w.position, 5); // all +1
}

#[test]
fn test_first_passage_time() {
    let history = vec![0i64, 1, 2, 1, 3];
    let fpt = FirstPassageTime::from_history(&history);
    assert_eq!(fpt.time_to(0), Some(0));
    assert_eq!(fpt.time_to(1), Some(1));
    assert_eq!(fpt.time_to(2), Some(2));
    assert_eq!(fpt.time_to(3), Some(4));
    assert_eq!(fpt.time_to(99), None);
}

#[test]
fn occupation_counts_example() {
    let history = vec![0i64, 1, 2, 3, -1];
    // States: 0%3=0->idx1, 1%3=1->idx2(+1), 2%3=2->idx0(-1), 3%3=0->idx1, -1%3=-1->idx0(-1)
    // counts: [-1: 2, 0: 2, +1: 1]
    let counts = state_counts(&history);
    let n = history.len() as f64;
    assert!((counts[0] as f64 / n - 2.0 / 5.0).abs() < 1e-10);
    assert!((counts[1] as f64 / n - 2.0 / 5.0).abs() < 1e-10);
    assert!((counts[2] as f64 / n - 1.0 / 5.0).abs() < 1e-10);
}

#[test]
fn return_intervals_to_origin() {
    let history = vec![0i64, 1, 0, 2, 0, 3];
    let dist = ReturnTimeDistribution::to_origin(&history);
    let intervals = dist.return_intervals.get(&0).unwrap();
    assert_eq!(intervals, &vec![2u64, 2]); // returns at steps 2 and 4, intervals = 2, 2
    let (total, count) = dist.return_time_totals(0).unwrap();
    assert!((total as f64 / count as f64 - 2.0).abs() < 1e-10);
}

#[test]
fn test_return_time_to_all_states() {
    let history = vec![0i64, 1, 0, 1];
    let dist = ReturnTimeDistribution::to_all_states(&history);
    assert_eq!(dist.return_intervals.get(&0).unwrap(), &vec![2u64]);
    assert_eq!(dist.return_intervals.get(&1).unwrap(), &vec![2u64]);
}

#[test]
fn summary_of_empty_history() {
    let stats = HistorySummary::from_history(&[]);
    assert_eq!(stats.position, 0);
    assert_eq!(stats.min, 0);
    assert_eq!(stats.sum, 0);
}

#[test]
fn occupation_counts_of_empty_history() {
    let counts = state_counts(&[]);
    assert_eq!(counts, [0, 0, 0]);
}
