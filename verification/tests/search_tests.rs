use dragster::search::{search, search_unreduced, standard_config, SearchConfig};
use dragster::sim::{GameState, MIN_WINNING_DISTANCE};

fn tiny_config(horizon: i128, winning_threshold: i128) -> SearchConfig {
    SearchConfig {
        horizon,
        winning_threshold,
        max_speed: 255,
        frame_counter_stride: 2,
        tachometer_stride: 3,
    }
}

#[test]
fn standard_config_values() {
    let c = standard_config();
    assert_eq!(c.horizon, 167);
    assert_eq!(c.winning_threshold, MIN_WINNING_DISTANCE);
    assert_eq!(c.max_speed, 255);
    assert_eq!(c.frame_counter_stride, 2);
    assert_eq!(c.tachometer_stride, 3);
}

#[test]
fn reduction_does_not_change_the_answer() {
    for &threshold in &[1, 4, 12] {
        let c = tiny_config(5, threshold);
        let with = search(&c);
        let without = search_unreduced(&c);
        assert_eq!(with.best.is_some(), without.best.is_some());
        let a = with.best.expect("a win within five frames");
        let b = without.best.expect("a win within five frames");
        assert_eq!(a.timer, b.timer);
        assert_eq!(a.distance, b.distance);
    }
    let c = tiny_config(5, 40);
    assert!(search(&c).best.is_none(), "40 is out of reach in five frames");
    assert!(search_unreduced(&c).best.is_none());
}

#[test]
fn tiny_search_wins_at_frame_three() {
    let c = tiny_config(5, 4);
    let r = search(&c);
    let best = r.best.expect("threshold 4 is reachable in five frames");
    assert_eq!(best.timer, 3);
    assert!(best.distance >= 4);
    assert!(!best.blown);
    assert!(r.steps > 0);
}

#[test]
fn extending_the_horizon_does_not_improve_the_answer() {
    let short = search(&tiny_config(5, 4));
    let long = search(&tiny_config(9, 4));
    let a = short.best.expect("a win within five frames");
    let b = long.best.expect("a win within nine frames");
    assert_eq!(a.timer, b.timer);
    assert_eq!(a.distance, b.distance);
}

#[test]
fn returned_winner_replays_to_itself() {
    let c = tiny_config(6, 4);
    let best = search(&c).best.expect("a win within six frames");
    assert_eq!(best.timer as usize, best.inputs.len());
    assert!(best.timer <= c.horizon);
    assert!(best.distance >= c.winning_threshold);
    assert!(!best.blown);
    assert_eq!(best.initial_frame_counter % 2, 0);
    assert_eq!(best.initial_tachometer % 3, 0);
    let rows = best.replay_trace();
    assert_eq!(rows.len(), best.inputs.len());
    let last = rows[rows.len() - 1];
    assert_eq!(last.distance, best.distance);
    assert_eq!(last.gear, best.gear);
    assert_eq!(last.speed, best.speed);
    assert_eq!(last.tachometer, best.tachometer);
    assert_eq!(last.tachometer_diff, best.tachometer_diff);
}

#[test]
fn zero_horizon_finds_nothing() {
    let r = search(&tiny_config(0, 1));
    assert!(r.best.is_none());
    assert_eq!(r.steps, 0);
}

#[test]
fn unreachable_threshold_finds_nothing() {
    let r = search(&tiny_config(4, 100_000));
    assert!(r.best.is_none());
    assert!(r.steps > 0);
}

#[test]
fn key_equal_states_advance_in_lockstep() {
    let s1 = GameState::with_seed(30, 0, false, true);
    let mut s2 = s1.clone();
    s2.distance += 7;
    for &(c, s) in &[(true, true), (false, false), (false, true), (true, false)] {
        let mut a = s1.clone();
        let mut b = s2.clone();
        a.game_step(c, s);
        b.game_step(c, s);
        assert_eq!(b.distance - a.distance, 7, "distance gap is preserved");
        assert_eq!(a.gear, b.gear);
        assert_eq!(a.speed, b.speed);
        assert_eq!(a.tachometer, b.tachometer);
        assert_eq!(a.tachometer_diff, b.tachometer_diff);
        assert_eq!(a.frame_counter, b.frame_counter);
        assert_eq!(a.blown, b.blown);
    }
}

#[test]
fn replay_reports_every_frame() {
    let mut st = GameState::with_seed(24, 4, false, true);
    let mut expected = vec![
        (false, true, st.gear, st.speed, st.tachometer, st.tachometer_diff, st.distance),
    ];
    for &(c, s) in &[(true, true), (false, false), (false, true), (true, true)] {
        st.game_step(c, s);
        assert!(!st.blown);
        expected.push((c, s, st.gear, st.speed, st.tachometer, st.tachometer_diff, st.distance));
    }
    let rows = st.replay_trace();
    assert_eq!(rows.len(), expected.len());
    for (row, want) in rows.iter().zip(expected.iter()) {
        assert_eq!(row.clutch, want.0);
        assert_eq!(row.shift, want.1);
        assert_eq!(row.gear, want.2);
        assert_eq!(row.speed, want.3);
        assert_eq!(row.tachometer, want.4);
        assert_eq!(row.tachometer_diff, want.5);
        assert_eq!(row.distance, want.6);
    }
}
