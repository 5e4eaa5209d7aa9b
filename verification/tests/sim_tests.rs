use dragster::sim::{GameState, Input, MIN_WINNING_DISTANCE};

fn stepped(inputs: &[(bool, bool)]) -> GameState {
    let mut st = GameState::new();
    for &(clutch, shift) in inputs {
        st.game_step(clutch, shift);
    }
    st
}

#[test]
fn input_new_carries_both_bits() {
    let i = Input::new(true, false);
    assert!(i.clutch);
    assert!(!i.shift);
    let j = Input::new(false, true);
    assert!(!j.clutch);
    assert!(j.shift);
}

#[test]
fn new_state_is_all_initial() {
    let st = GameState::new();
    assert_eq!(st.timer, 0);
    assert_eq!(st.frame_counter, 0);
    assert_eq!(st.tachometer, 0);
    assert_eq!(st.tachometer_diff, 0);
    assert_eq!(st.distance, 0);
    assert_eq!(st.speed, 0);
    assert_eq!(st.gear, 0);
    assert!(!st.blown);
    assert_eq!(st.inputs.len(), 0);
    assert_eq!(GameState::default(), st);
}

#[test]
fn first_frame_has_no_input_effect() {
    let mut st = GameState::new();
    st.game_step(false, false);
    assert_eq!(st.gear, 0);
    assert_eq!(st.tachometer, 0);
    assert_eq!(st.tachometer_diff, 0);
    assert_eq!(st.speed, 0);
    assert_eq!(st.distance, 0);
    assert_eq!(st.timer, 1);
    assert_eq!(st.frame_counter, 2);
}

#[test]
fn gear_rises_one_frame_after_shift() {
    for &(c2, s2) in &[(false, false), (false, true), (true, false), (true, true)] {
        let mut st = GameState::new();
        st.game_step(false, true);
        assert_eq!(st.gear, 0, "gear must lag the shift by one frame");
        st.game_step(c2, s2);
        assert_eq!(st.gear, 1, "gear must rise on the frame after the shift");
    }
}

#[test]
fn gear_caps_at_four() {
    let mut st = GameState::new();
    for _ in 0..12 {
        st.game_step(true, true);
    }
    assert_eq!(st.gear, 4);
}

#[test]
fn repeated_runs_are_bit_identical() {
    let script = [
        (false, true),
        (true, true),
        (false, false),
        (true, false),
        (false, true),
        (true, true),
        (false, false),
        (true, true),
    ];
    let a = stepped(&script);
    let b = stepped(&script);
    assert_eq!(a, b);
}

#[test]
fn gear_never_decreases_frame_to_frame() {
    let mut st = GameState::new();
    let script = [
        (false, true),
        (true, true),
        (false, true),
        (false, false),
        (true, true),
        (false, true),
        (true, false),
        (true, true),
        (false, true),
        (true, true),
    ];
    let mut prev_gear = st.gear;
    for &(c, s) in &script {
        st.game_step(c, s);
        assert!(st.gear >= prev_gear);
        prev_gear = st.gear;
    }
}

#[test]
fn distance_monotonic_and_non_negative() {
    let mut st = GameState::new();
    let script = [
        (false, true),
        (false, true),
        (true, true),
        (true, false),
        (false, true),
        (true, true),
        (false, false),
        (false, true),
    ];
    let mut prev_distance = st.distance;
    for &(c, s) in &script {
        st.game_step(c, s);
        assert!(st.distance >= prev_distance);
        assert!(st.distance >= 0);
        prev_distance = st.distance;
    }
}

#[test]
fn tachometer_never_negative() {
    let mut st = GameState::new();
    for _ in 0..40 {
        st.game_step(false, false);
        assert!(st.tachometer >= 0);
    }
    assert_eq!(st.tachometer, 0);
}

#[test]
fn reaching_ceiling_exactly_blows_the_engine() {
    let st = GameState::with_seed(31, 0, true, false);
    assert_eq!(st.tachometer, 32);
    assert!(st.blown);
}

#[test]
fn blown_stays_blown() {
    let mut st = GameState::with_seed(31, 0, true, false);
    assert!(st.blown);
    for &(c, s) in &[(false, false), (true, true), (false, true), (true, false)] {
        st.game_step(c, s);
        assert!(st.blown);
    }
}

#[test]
fn with_seed_zero_matches_stepping_a_fresh_state() {
    let mut a = GameState::new();
    a.game_step(false, false);
    let b = GameState::with_seed(0, 0, false, false);
    assert_eq!(a, b);
}

#[test]
fn try_with_seed_rejects_out_of_range_seeds() {
    assert!(GameState::try_with_seed(-1, 0, false, false).is_none());
    assert!(GameState::try_with_seed(32, 0, false, false).is_none());
    assert!(GameState::try_with_seed(0, -1, false, false).is_none());
    assert!(GameState::try_with_seed(0, 16, false, false).is_none());
    let ok = GameState::try_with_seed(31, 15, true, true);
    assert!(ok.is_some());
    assert_eq!(ok.unwrap(), GameState::with_seed(31, 15, true, true));
}

#[test]
fn is_arrived_exactly_at_threshold() {
    let mut st = GameState::new();
    st.distance = MIN_WINNING_DISTANCE - 1;
    assert!(!st.is_arrived());
    st.distance = MIN_WINNING_DISTANCE;
    assert!(st.is_arrived());
    assert_eq!(MIN_WINNING_DISTANCE, 97 * 256);
}

#[test]
fn elapsed_hundredths_truncates() {
    let mut st = GameState::new();
    assert_eq!(st.elapsed_hundredths(), 0);
    for _ in 0..10 {
        st.game_step(false, false);
    }
    assert_eq!(st.elapsed_hundredths(), 33);
    for _ in 0..90 {
        st.game_step(false, false);
    }
    assert_eq!(st.elapsed_hundredths(), 334);
}

#[test]
fn snapshot_is_an_exact_copy() {
    let st = stepped(&[(false, true), (true, true), (false, false)]);
    let copy = st.snapshot();
    assert_eq!(st, copy);
}
