//! Global properties of the simulation dynamics, stated over the
//! mathematical model and proved once and for all: determinism, gear
//! monotonicity, tachometer clamping with sticky engine failure, distance
//! monotonicity, and the per-frame bound on distance gain that justifies
//! feasibility pruning.

use vstd::prelude::*;

verus! {

use crate::sim::{
    Model,
    Input,
    step_model,
    run_model,
    last_shift,
    wf_model,
    gear_ratio,
    MAX_TACHOMETER,
    MAX_FRAME_COUNTER,
    MAX_GEAR,
};

/// One frame preserves well-formedness.
pub proof fn lemma_step_wf(m: Model, clutch: bool, shift: bool)
    requires
        wf_model(m),
    ensures
        wf_model(step_model(m, clutch, shift)),
{
    vstd::arithmetic::div_mod::lemma_mod_adds(
        m.initial_frame_counter + 2 * m.timer,
        2,
        MAX_FRAME_COUNTER as int,
    );
}

/// A whole run preserves well-formedness.
pub proof fn lemma_run_wf(m: Model, ins: Seq<Input>)
    requires
        wf_model(m),
    ensures
        wf_model(run_model(m, ins)),
    decreases ins.len(),
{
    if ins.len() > 0 {
        lemma_run_wf(m, ins.drop_last());
        lemma_step_wf(run_model(m, ins.drop_last()), ins.last().clutch, ins.last().shift);
    }
}

/// Appending one input to a run is one further step.
pub proof fn lemma_run_push(m: Model, ins: Seq<Input>, i: Input)
    ensures
        run_model(m, ins.push(i)) == step_model(run_model(m, ins), i.clutch, i.shift),
{
    assert(ins.push(i).drop_last() =~= ins);
}

/// A run splits at any point: the whole run is the run of the remaining
/// inputs from the state the first `k` inputs reach.
pub proof fn lemma_run_split(m: Model, ins: Seq<Input>, k: int)
    requires
        0 <= k <= ins.len(),
    ensures
        run_model(m, ins) == run_model(run_model(m, ins.take(k)), ins.skip(k)),
    decreases ins.len(),
{
    if k == ins.len() {
        assert(ins.take(k) =~= ins);
        assert(ins.skip(k) =~= Seq::<Input>::empty());
    } else {
        let dl = ins.drop_last();
        lemma_run_split(m, dl, k);
        assert(dl.take(k) =~= ins.take(k));
        assert(ins.skip(k).drop_last() =~= dl.skip(k));
        assert(ins.skip(k).last() == ins.last());
        assert(ins.skip(k).len() > 0);
    }
}

/// Determinism: the outcome of a run is a function of the starting state
/// and the applied input sequence alone — equal starts and equal inputs
/// reach equal states.
pub proof fn lemma_run_deterministic(m1: Model, m2: Model, ins1: Seq<Input>, ins2: Seq<Input>)
    requires
        m1 == m2,
        ins1 == ins2,
    ensures
        run_model(m1, ins1) == run_model(m2, ins2),
{
}

/// The gear never decreases over a frame, and stays within `[0, 4]`.
pub proof fn lemma_gear_monotonic_step(m: Model, clutch: bool, shift: bool)
    requires
        0 <= m.gear <= MAX_GEAR,
    ensures
        m.gear <= step_model(m, clutch, shift).gear <= MAX_GEAR,
{
}

/// The gear never decreases over a whole run.
pub proof fn lemma_gear_monotonic(m: Model, ins: Seq<Input>)
    requires
        0 <= m.gear <= MAX_GEAR,
    ensures
        m.gear <= run_model(m, ins).gear <= MAX_GEAR,
    decreases ins.len(),
{
    if ins.len() > 0 {
        lemma_gear_monotonic(m, ins.drop_last());
        lemma_gear_monotonic_step(
            run_model(m, ins.drop_last()),
            ins.last().clutch,
            ins.last().shift,
        );
    }
}

/// The tachometer is clamped: one frame always leaves it non-negative,
/// and at or above the ceiling the engine is marked blown.
pub proof fn lemma_tachometer_clamped_step(m: Model, clutch: bool, shift: bool)
    ensures
        0 <= step_model(m, clutch, shift).tachometer,
        step_model(m, clutch, shift).tachometer >= MAX_TACHOMETER ==> step_model(
            m,
            clutch,
            shift,
        ).blown,
{
}

/// A blown engine stays blown for the rest of the frame.
pub proof fn lemma_blown_sticky_step(m: Model, clutch: bool, shift: bool)
    ensures
        m.blown ==> step_model(m, clutch, shift).blown,
{
}

/// A blown engine stays blown for the rest of the trajectory.
pub proof fn lemma_blown_sticky(m: Model, ins: Seq<Input>)
    requires
        m.blown,
    ensures
        run_model(m, ins).blown,
    decreases ins.len(),
{
    if ins.len() > 0 {
        lemma_blown_sticky(m, ins.drop_last());
    }
}

/// The distance never decreases over a frame, and the speed stays
/// non-negative.
pub proof fn lemma_distance_monotonic_step(m: Model, clutch: bool, shift: bool)
    requires
        0 <= m.speed,
    ensures
        m.distance <= step_model(m, clutch, shift).distance,
        0 <= step_model(m, clutch, shift).speed,
{
}

/// The distance never decreases over a whole run, and stays non-negative
/// from a well-formed start.
pub proof fn lemma_distance_monotonic(m: Model, ins: Seq<Input>)
    requires
        wf_model(m),
    ensures
        m.distance <= run_model(m, ins).distance,
        0 <= run_model(m, ins).distance,
    decreases ins.len(),
{
    if ins.len() > 0 {
        lemma_distance_monotonic(m, ins.drop_last());
        lemma_run_wf(m, ins.drop_last());
        lemma_distance_monotonic_step(
            run_model(m, ins.drop_last()),
            ins.last().clutch,
            ins.last().shift,
        );
    }
}

/// The tachometer climbs by at most 3 per frame, so over a run it is
/// bounded by the start value plus three per frame.
pub proof fn lemma_tachometer_growth(m: Model, ins: Seq<Input>)
    requires
        wf_model(m),
    ensures
        0 <= run_model(m, ins).tachometer <= m.tachometer + 3 * ins.len(),
    decreases ins.len(),
{
    if ins.len() > 0 {
        lemma_tachometer_growth(m, ins.drop_last());
        lemma_run_wf(m, ins.drop_last());
    }
}

/// The timer counts frames: a run advances it by exactly its length.
pub proof fn lemma_run_timer(m: Model, ins: Seq<Input>)
    ensures
        run_model(m, ins).timer == m.timer + ins.len(),
    decreases ins.len(),
{
    if ins.len() > 0 {
        lemma_run_timer(m, ins.drop_last());
    }
}

/// Win persistence: once a trajectory's distance has met a threshold, every
/// later frame of that trajectory still meets it. A win whose trajectory
/// had already reached the threshold within a horizon is therefore
/// dominated by the earlier win inside it.
pub proof fn lemma_win_persists(m: Model, ins: Seq<Input>, threshold: int)
    requires
        wf_model(m),
        m.distance >= threshold,
    ensures
        run_model(m, ins).distance >= threshold,
{
    lemma_distance_monotonic(m, ins);
}

/// Bounded progress: from a well-formed, non-blown state below the speed
/// cap, a trajectory that ends non-blown gains at most 255 of distance per
/// frame, and stays below the tachometer ceiling and the speed cap
/// throughout. This is what makes feasibility pruning sound: a state whose
/// distance deficit exceeds 255 per remaining frame can no longer win.
pub proof fn lemma_bounded_progress(m: Model, ins: Seq<Input>)
    requires
        wf_model(m),
        !m.blown,
        m.tachometer < MAX_TACHOMETER,
        m.speed <= 255,
        !run_model(m, ins).blown,
    ensures
        run_model(m, ins).distance <= m.distance + 255 * ins.len(),
        run_model(m, ins).tachometer < MAX_TACHOMETER,
        run_model(m, ins).speed <= 255,
    decreases ins.len(),
{
    if ins.len() > 0 {
        let p = run_model(m, ins.drop_last());
        lemma_blown_sticky_step(p, ins.last().clutch, ins.last().shift);
        lemma_bounded_progress(m, ins.drop_last());
        lemma_run_wf(m, ins.drop_last());
        assert(gear_ratio(p.gear) <= 8);
    }
}

} // verus!
