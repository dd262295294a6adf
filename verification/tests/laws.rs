use ternary_walk::{
    random_walk, state_counts, walk_distribution, AbsorbingWalk, BiasedWalk, CorrelatedWalk,
    FirstPassageTime, HistorySummary, ReflectingWalk, ReturnTimeDistribution, SimpleTernaryWalk,
    SpatialTernaryWalk, Walk,
};

fn cycle(vals: &[u32]) -> impl FnMut() -> u32 + '_ {
    let mut i = 0usize;
    move || {
        let v = vals[i % vals.len()];
        i += 1;
        v
    }
}

#[test]
fn uniform_step_reads_draw_modulo_three() {
    let mut w = SimpleTernaryWalk::new(10);
    w.step_by_roll(3); // 3 % 3 = 0 -> -1
    assert_eq!(w.position, 9);
    w.step_by_roll(7); // 7 % 3 = 1 -> 0
    assert_eq!(w.position, 9);
    w.step_by_roll(8); // 8 % 3 = 2 -> +1
    assert_eq!(w.position, 10);
    assert_eq!(w.history, vec![10, 9, 9, 10]);
    assert_eq!(w.steps, 3);
}

#[test]
fn step_with_clamps_delta() {
    let mut w = SimpleTernaryWalk::new(0);
    w.step_with(100);
    w.step_with(-7);
    w.step_with(0);
    assert_eq!(w.history, vec![0, 1, 0, 0]);
}

#[test]
fn simple_run_keeps_history_prefix_and_unit_steps() {
    let mut w = SimpleTernaryWalk::new(5);
    let mut rng = cycle(&[2, 2, 0, 1, 5, 9, 11]);
    w.run(4, &mut rng);
    let prefix = w.history.clone();
    w.run(10, &mut rng);
    assert_eq!(w.history.len(), 15);
    assert_eq!(&w.history[..5], &prefix[..]);
    assert_eq!(*w.history.last().unwrap(), w.position);
    for i in 1..w.history.len() {
        assert!((w.history[i] - w.history[i - 1]).abs() <= 1);
    }
}

#[test]
fn biased_step_picks_by_running_sums() {
    // weights [2, 3, 5]: total 10; r < 2 -> -1, r < 5 -> 0, else +1.
    let mut w = BiasedWalk::new(0, [2, 3, 5]);
    w.step_by_roll(1);
    assert_eq!(w.position, -1);
    w.step_by_roll(4);
    assert_eq!(w.position, -1);
    w.step_by_roll(7);
    assert_eq!(w.position, 0);
    w.step_by_roll(12); // 12 % 10 = 2 -> 0
    assert_eq!(w.position, 0);
    w.step_by_roll(19); // 19 % 10 = 9 -> +1
    assert_eq!(w.position, 1);
}

#[test]
fn biased_with_no_weight_takes_neutral_step() {
    let mut w = BiasedWalk::new(3, [0, 0, 0]);
    let mut rng = || -> u32 { panic!("no weight: nothing should be drawn") };
    w.run(4, &mut rng);
    w.step(&mut rng);
    assert_eq!(w.position, 3);
    assert_eq!(w.steps, 5);
    assert_eq!(w.history, vec![3, 3, 3, 3, 3, 3]);
}

#[test]
fn zero_weight_direction_is_never_taken() {
    let mut w = BiasedWalk::new(0, [0, 4, 6]);
    for raw in 0..200u32 {
        let before = w.position;
        w.step_by_roll(raw);
        assert!(w.position >= before);
    }
}

#[test]
fn saturated_weights_pick_without_overflow() {
    // w0 = u32::MAX: the total saturates and every draw picks -1.
    let mut w = BiasedWalk::new(0, [u32::MAX, u32::MAX, 0]);
    w.step_by_roll(u32::MAX - 1);
    assert_eq!(w.position, -1);
}

#[test]
fn reflecting_new_moves_start_onto_bounds() {
    let w = ReflectingWalk::new(-10, -2, 2);
    assert_eq!(w.position, -2);
    let w = ReflectingWalk::new(10, -2, 2);
    assert_eq!(w.position, 2);
    assert_eq!(w.history, vec![2]);
}

#[test]
fn reflecting_walk_with_equal_bounds_stays_put() {
    let mut w = ReflectingWalk::new(0, 0, 0);
    w.step(1);
    assert_eq!(w.position, 0);
    assert_eq!(w.steps, 1);
    w.step(-1);
    assert_eq!(w.position, 0);
    let mut rng = cycle(&[0, 1, 2]);
    w.run(9, &mut rng);
    assert_eq!(w.history, vec![0; 12]);
}

#[test]
fn reflecting_run_stays_within_bounds() {
    let mut w = ReflectingWalk::new(0, -1, 3);
    let mut rng = cycle(&[0, 0, 0, 2, 2, 2, 2, 2, 2, 1, 0]);
    w.run(60, &mut rng);
    assert_eq!(w.steps, 60);
    for &p in &w.history {
        assert!(-1 <= p && p <= 3);
    }
}

#[test]
fn absorbing_starts_absorbed_on_target() {
    let mut w = AbsorbingWalk::new(4, 4);
    assert!(w.absorbed);
    assert!(!w.step(1));
    assert_eq!(w.position, 4);
    assert_eq!(w.steps, 0);
}

#[test]
fn absorbing_run_stops_at_target() {
    let mut w = AbsorbingWalk::new(0, 2);
    let mut rng = cycle(&[2]); // always +1
    let taken = w.run_until_absorbed(10, &mut rng);
    assert_eq!(taken, 2);
    assert!(w.absorbed);
    assert_eq!(w.position, 2);
    assert_eq!(w.history, vec![0, 1, 2]);
    let again = w.run_until_absorbed(10, &mut rng);
    assert_eq!(again, 2);
}

#[test]
fn absorbing_run_stops_at_max_steps() {
    let mut w = AbsorbingWalk::new(0, 5);
    let mut rng = cycle(&[1]); // always 0
    let taken = w.run_until_absorbed(7, &mut rng);
    assert_eq!(taken, 7);
    assert!(!w.absorbed);
    assert_eq!(w.position, 0);
}

#[test]
fn correlated_new_caps_momentum_and_direction() {
    let w = CorrelatedWalk::new(3, 150, -9);
    assert_eq!(w.momentum, 100);
    assert_eq!(w.last_direction, -1);
    assert_eq!(w.history, vec![3]);
}

#[test]
fn correlated_step_repeats_or_redraws() {
    let mut w = CorrelatedWalk::new(0, 50, 1);
    w.step_by_rolls(110, 0); // 110 % 100 = 10 < 50: repeat +1
    assert_eq!(w.position, 1);
    assert_eq!(w.last_direction, 1);
    w.step_by_rolls(70, 3); // 70 >= 50: 3 % 3 = 0 -> -1
    assert_eq!(w.position, 0);
    assert_eq!(w.last_direction, -1);
    w.step_by_rolls(20, 2); // repeat -1
    assert_eq!(w.position, -1);
}

#[test]
fn full_momentum_keeps_direction() {
    let mut w = CorrelatedWalk::new(10, 100, -1);
    let mut rng = cycle(&[99, 0, 1, 2]);
    w.run(6, &mut rng);
    assert_eq!(w.position, 4);
    assert_eq!(w.last_direction, -1);
}

#[test]
fn first_passage_is_first_index() {
    let history = vec![5i64, -1, 5, -1, 7, 5];
    let fpt = FirstPassageTime::from_history(&history);
    assert_eq!(fpt.passage_times.len(), 3);
    for (&v, &t) in &fpt.passage_times {
        assert_eq!(history[t as usize], v);
        assert!(history[..t as usize].iter().all(|&x| x != v));
    }
    assert_eq!(fpt.time_to(7), Some(4));
    assert_eq!(FirstPassageTime::from_history(&[]).time_to(0), None);
}

#[test]
fn return_intervals_telescope() {
    let history = vec![3i64, 0, 3, 3, 1, 3];
    let dist = ReturnTimeDistribution::to_value(&history, 3);
    assert_eq!(dist.return_intervals.len(), 1);
    assert_eq!(dist.return_intervals.get(&3).unwrap(), &vec![2u64, 1, 2]);
    // visits at 0, 2, 3, 5: the gaps add up to 5 - 0
    assert_eq!(dist.return_time_totals(3), Some((5, 3)));
    assert_eq!(dist.return_time_totals(0), None);
}

#[test]
fn return_intervals_empty_when_visited_once() {
    let dist = ReturnTimeDistribution::to_value(&[1, 2, 3], 2);
    assert_eq!(dist.return_intervals.get(&2).unwrap(), &Vec::<u64>::new());
    assert_eq!(dist.return_time_totals(2), None);
    let all = ReturnTimeDistribution::to_all_states(&[4, 4, 9]);
    assert_eq!(all.return_intervals.len(), 2);
    assert_eq!(all.return_intervals.get(&4).unwrap(), &vec![1u64]);
    assert_eq!(all.return_intervals.get(&9).unwrap(), &Vec::<u64>::new());
}

#[test]
fn summary_extremes_and_counts() {
    let history = vec![-4i64, 7, -2, -5, 0, 3];
    let s = HistorySummary::from_history(&history);
    assert_eq!(s.position, 3);
    assert_eq!(s.min, -5);
    assert_eq!(s.max, 7);
    assert_eq!(s.sum, -1);
    // -4 -> 7 cross, 7 -> -2 cross, -2 -> -5 no, -5 -> 0 cross, 0 -> 3 no
    assert_eq!(s.zero_crossings, 3);
    let total: u64 = s.time_in_each_state.iter().sum();
    assert_eq!(total, history.len() as u64);
}

#[test]
fn state_counts_of_negative_values() {
    // -4 % 3 = -1 -> state -1; -5 % 3 = -2 -> +1; -6 % 3 = 0 -> 0; -3 -> 0
    assert_eq!(state_counts(&[-4, -5, -6, -3]), [1, 2, 1]);
}

#[test]
fn grid_walk_stops_at_edges() {
    let mut w = Walk::new(3, 0);
    w.step(10, 0); // up in the first row: stays
    assert_eq!(w.position, 3);
    let mut w = Walk::new(0, 0);
    w.step(10, 7); // 7 % 4 = 3: left at 0 stays
    assert_eq!(w.position, 0);
    assert_eq!(w.steps, 1);
}

#[test]
fn random_walk_left_stops_at_zero() {
    let path = random_walk(2, 3, 10, || 3);
    assert_eq!(path, vec![2, 1, 0, 0]);
}

#[test]
fn walk_distribution_counts_each_starter_once() {
    let dist = walk_distribution(&[0, 0], 0, 5, || 1);
    assert_eq!(dist, vec![2]);
    let dist = walk_distribution(&[3, 8, 3], 2, 4, || 1);
    // every walk moves right twice: 5, 10, 5
    assert_eq!(dist.len(), 11);
    assert_eq!(dist[5], 2);
    assert_eq!(dist[10], 1);
    assert_eq!(dist.iter().sum::<usize>(), 3);
}

#[test]
fn walk_distribution_without_starters() {
    let dist = walk_distribution(&[], 3, 4, || 0);
    assert_eq!(dist, vec![0]);
}

#[test]
fn spatial_reads_clamped_cells() {
    // 2 wide: (0,0)=5->1, (1,0)=-3->-1, (0,1)=0, (1,1)=1
    let data = vec![5i64, -3, 0, 1];
    let mut sw = SpatialTernaryWalk::new(2, 2, &data, 1, 0);
    assert_eq!(sw.values_read, vec![-1]);
    sw.step(3); // left -> (0, 0)
    assert_eq!(sw.values_read, vec![-1, 1]);
    sw.step(0); // up -> (0, 1)
    sw.step(5); // right -> (1, 1)
    assert_eq!(sw.path, vec![(1, 0), (0, 0), (0, 1), (1, 1)]);
    assert_eq!(sw.values_read, vec![-1, 1, 0, 1]);
    assert_eq!(sw.steps, 3);
}

#[test]
fn spatial_run_draws_directions_modulo_four() {
    let mut sw = SpatialTernaryWalk::new(0, 0, &[], 0, 0);
    let mut rng = cycle(&[5, 6, 7, 4]); // right, down, left, up
    sw.run(4, &mut rng);
    assert_eq!(sw.path, vec![(0, 0), (1, 0), (1, -1), (0, -1), (0, 0)]);
    assert_eq!(sw.values_read, vec![0, 0, 0, 0, 0]);
}
