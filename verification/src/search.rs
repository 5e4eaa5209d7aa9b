//! The exhaustive search engine: a breadth-first, frame-layered exploration
//! of the reachable state space over all two-bit input sequences, seeded
//! over a grid of initial tachometer and frame-counter values, with
//! equivalence-and-dominance reduction of each frontier, feasibility
//! pruning, and tracking of the best (earliest, then farthest) winning
//! state.
//!
//! Every state the engine keeps or returns is proved well-formed, unblown
//! and reachable: a returned winner is exactly the run of its own recorded
//! input sequence from its recorded seed, it meets the winning threshold
//! within the horizon, and its seed lies on the search grid. The
//! equivalence-dominance reduction is justified by `lemma_dominance_sound`:
//! of two states sharing a key, keeping the farther one preserves every
//! winning outcome reachable from that frame onward.

use vstd::prelude::*;
use std::collections::HashMap;

verus! {

use vstd::pervasive::VecAdditionalExecFns;

broadcast use vstd::std_specs::hash::group_hash_axioms;
use crate::sim::{
    GameState,
    Input,
    Model,
    step_model,
    run_model,
    seed_of,
    reachable,
    wf_model,
    step_fits,
    last_shift,
    gear_ratio,
    MAX_TACHOMETER,
    MAX_FRAME_COUNTER,
    MIN_WINNING_DISTANCE,
};
use crate::laws::{lemma_run_push, lemma_run_split, lemma_bounded_progress, lemma_blown_sticky};
use crate::sim::init_model;

/// The search-grid and termination parameters, threaded explicitly so that
/// tests can shrink the horizon and threshold.
#[derive(PartialEq, Eq, Structural, Clone, Copy, Debug)]
pub struct SearchConfig {
    /// Frames to explore per seed configuration; beyond it a configuration
    /// is reported unsolved.
    pub horizon: i128,
    /// Distance at which a state wins.
    pub winning_threshold: i128,
    /// Upper bound on per-frame distance gain, used by feasibility pruning.
    pub max_speed: i128,
    /// Stride over initial frame-counter values in `[0, 16)`.
    pub frame_counter_stride: i128,
    /// Stride over initial tachometer values in `[0, 32)`.
    pub tachometer_stride: i128,
}

impl SearchConfig {
    /// Machine limits: strides positive and within their ranges, the other
    /// parameters non-negative and small enough that no pruning or
    /// distance arithmetic can overflow.
    pub open spec fn wf(&self) -> bool {
        &&& 1 <= self.frame_counter_stride <= MAX_FRAME_COUNTER
        &&& 1 <= self.tachometer_stride <= MAX_TACHOMETER
        &&& 0 <= self.horizon
        &&& 0 <= self.max_speed
        &&& 0 <= self.winning_threshold
        &&& (self.max_speed + 256) * (self.horizon + 1) + 256 <= i128::MAX
    }
}

/// The full-scale search: the 167-frame horizon provably sufficient for
/// this game's dynamics, the real winning distance, the speed cap, even
/// initial frame counters, and every third initial tachometer value.
pub fn standard_config() -> (c: SearchConfig)
    ensures
        c.wf(),
        c.horizon == 167,
        c.winning_threshold == MIN_WINNING_DISTANCE,
        c.max_speed == 255,
        c.frame_counter_stride == 2,
        c.tachometer_stride == 3,
{
    proof {
        assert((255int + 256) * (167 + 1) + 256 <= i128::MAX) by (nonlinear_arith);
    }
    SearchConfig {
        horizon: 167,
        winning_threshold: MIN_WINNING_DISTANCE,
        max_speed: 255,
        frame_counter_stride: 2,
        tachometer_stride: 3,
    }
}

/// The reduced fingerprint of a state used by the search engine: the
/// transition function's future behavior depends only on these fields
/// (and on the frame counter, which all states of one frontier share),
/// never on the full input history or the accumulated distance.
pub ghost struct EquivalenceKey {
    pub last_shift: bool,
    pub gear: int,
    pub speed: int,
    pub tachometer: int,
    pub tachometer_diff: int,
}

pub open spec fn equiv_key(m: Model) -> EquivalenceKey {
    EquivalenceKey {
        last_shift: last_shift(m),
        gear: m.gear,
        speed: m.speed,
        tachometer: m.tachometer,
        tachometer_diff: m.tachometer_diff,
    }
}

/// One frame preserves key equality, frame-counter equality and blown
/// equality, and advances the distances of two key-equal states by the
/// same amount.
pub proof fn lemma_dominance_step(m1: Model, m2: Model, clutch: bool, shift: bool)
    requires
        equiv_key(m1) == equiv_key(m2),
        m1.frame_counter == m2.frame_counter,
        m1.blown == m2.blown,
    ensures
        equiv_key(step_model(m1, clutch, shift)) == equiv_key(step_model(m2, clutch, shift)),
        step_model(m1, clutch, shift).frame_counter == step_model(m2, clutch, shift).frame_counter,
        step_model(m1, clutch, shift).blown == step_model(m2, clutch, shift).blown,
        step_model(m1, clutch, shift).distance - m1.distance == step_model(
            m2,
            clutch,
            shift,
        ).distance - m2.distance,
{
}

/// A whole run preserves key, frame-counter and blown equality of two
/// key-equal states, and advances their distances by the same amount.
pub proof fn lemma_dominance_run(m1: Model, m2: Model, ins: Seq<Input>)
    requires
        equiv_key(m1) == equiv_key(m2),
        m1.frame_counter == m2.frame_counter,
        m1.blown == m2.blown,
    ensures
        equiv_key(run_model(m1, ins)) == equiv_key(run_model(m2, ins)),
        run_model(m1, ins).frame_counter == run_model(m2, ins).frame_counter,
        run_model(m1, ins).blown == run_model(m2, ins).blown,
        run_model(m1, ins).distance - m1.distance == run_model(m2, ins).distance - m2.distance,
        run_model(m1, ins).timer - m1.timer == run_model(m2, ins).timer - m2.timer,
    decreases ins.len(),
{
    if ins.len() > 0 {
        lemma_dominance_run(m1, m2, ins.drop_last());
        lemma_dominance_step(
            run_model(m1, ins.drop_last()),
            run_model(m2, ins.drop_last()),
            ins.last().clutch,
            ins.last().shift,
        );
    }
}

/// Dominance soundness: if two states share an equivalence key (and frame
/// counter and blown flag), discarding the one with the smaller distance
/// never loses a winning outcome — any input sequence that takes the
/// discarded state to an unblown win of a given threshold takes the kept
/// state to an unblown win of that threshold, after the same number of
/// frames and at least as far.
pub proof fn lemma_dominance_sound(m1: Model, m2: Model, ins: Seq<Input>, threshold: int)
    requires
        equiv_key(m1) == equiv_key(m2),
        m1.frame_counter == m2.frame_counter,
        m1.blown == m2.blown,
        m1.distance <= m2.distance,
        run_model(m1, ins).distance >= threshold,
        !run_model(m1, ins).blown,
    ensures
        run_model(m2, ins).distance >= run_model(m1, ins).distance,
        run_model(m2, ins).distance >= threshold,
        !run_model(m2, ins).blown,
        run_model(m2, ins).timer - m2.timer == run_model(m1, ins).timer - m1.timer,
{
    lemma_dominance_run(m1, m2, ins);
}

pub open spec fn grid_tach(c: SearchConfig, it: int) -> bool {
    &&& 0 <= it < MAX_TACHOMETER
    &&& it % (c.tachometer_stride as int) == 0
}

pub open spec fn grid_fc(c: SearchConfig, ifc: int) -> bool {
    &&& 0 <= ifc < MAX_FRAME_COUNTER
    &&& ifc % (c.frame_counter_stride as int) == 0
}

/// What every state the engine keeps satisfies, blown or not: well-formed,
/// exactly the run of its recorded inputs from its on-grid seed, at the
/// given depth; and, if not blown, within the engine's speed and distance
/// envelope.
pub open spec fn candidate_ok(c: SearchConfig, m: Model, depth: int) -> bool {
    &&& wf_model(m)
    &&& reachable(m)
    &&& m.timer == depth
    &&& grid_tach(c, m.initial_tachometer)
    &&& grid_fc(c, m.initial_frame_counter)
    &&& !m.blown ==> m.tachometer < MAX_TACHOMETER && m.speed <= 255 && m.distance <= 256 * depth
}

/// A frontier representative: an unblown candidate of its configuration.
pub open spec fn live_state(c: SearchConfig, m: Model, depth: int, ifc: int) -> bool {
    &&& candidate_ok(c, m, depth)
    &&& !m.blown
    &&& m.initial_frame_counter == ifc
}

pub open spec fn frontier_ok(c: SearchConfig, fs: Seq<GameState>, depth: int, ifc: int) -> bool {
    forall|i: int| 0 <= i < fs.len() ==> live_state(c, #[trigger] fs[i]@, depth, ifc)
}

/// A winning state as the engine reports it: an unblown, reachable,
/// well-formed state of an on-grid seed that meets the threshold within
/// the horizon.
pub open spec fn winning_state(c: SearchConfig, m: Model) -> bool {
    &&& wf_model(m)
    &&& reachable(m)
    &&& !m.blown
    &&& m.distance >= c.winning_threshold
    &&& 1 <= m.timer <= c.horizon
    &&& grid_tach(c, m.initial_tachometer)
    &&& grid_fc(c, m.initial_frame_counter)
}

pub open spec fn best_ok(c: SearchConfig, best: Option<GameState>) -> bool {
    best matches Some(b) ==> winning_state(c, b@)
}

/// A win as a property of a bare model: unblown and at or past the
/// threshold.
pub open spec fn wins(c: SearchConfig, m: Model) -> bool {
    &&& !m.blown
    &&& m.distance >= c.winning_threshold
}

/// A state the engine may discard outright: even gaining the true
/// per-frame maximum of 255 for every remaining frame, it cannot reach
/// the threshold within the horizon.
pub open spec fn infeasible(c: SearchConfig, m: Model, depth: int) -> bool {
    m.distance + 255 * (c.horizon - depth) < c.winning_threshold
}

/// The trajectory of one grid seed under one input sequence.
pub open spec fn traj(it: int, ifc: int, ins: Seq<Input>) -> Model {
    run_model(init_model(it, ifc), ins)
}

/// A frontier representative stands for a state: same equivalence key and
/// frame counter, unblown, and at least as far.
pub open spec fn rep_covers(r: Model, m: Model) -> bool {
    &&& equiv_key(r) == equiv_key(m)
    &&& r.frame_counter == m.frame_counter
    &&& !r.blown
    &&& r.distance >= m.distance
}

pub open spec fn covers(fs: Seq<GameState>, m: Model) -> bool {
    exists|j: int| 0 <= j < fs.len() && rep_covers(#[trigger] fs[j]@, m)
}

/// The key index is sound: every entry points into the frontier, at a
/// representative with that key code.
pub open spec fn index_ok(fs: Seq<GameState>, idx: Map<u64, usize>) -> bool {
    forall|code: u64|
        idx.contains_key(code) ==> (#[trigger] idx[code]) < fs.len() && key_code(
            equiv_key(fs[idx[code] as int]@),
        ) == code as int
}

/// The field ranges under which the key packing is decodable.
pub open spec fn key_in_envelope(k: EquivalenceKey) -> bool {
    &&& 0 <= k.gear <= 4
    &&& 0 <= k.tachometer_diff <= 1
    &&& 0 <= k.tachometer < 32
    &&& 0 <= k.speed
}

/// The key packing is injective on the envelope: equal codes mean equal
/// keys.
proof fn lemma_key_code_injective(k1: EquivalenceKey, k2: EquivalenceKey)
    requires
        key_in_envelope(k1),
        key_in_envelope(k2),
        key_code(k1) == key_code(k2),
    ensures
        k1 == k2,
{
}

/// Any unblown trajectory of an in-range seed stays inside the engine's
/// envelope: tachometer below the ceiling, speed at most 255.
pub proof fn lemma_traj_envelope(it: int, ifc: int, ins: Seq<Input>)
    requires
        0 <= it < MAX_TACHOMETER,
        0 <= ifc < MAX_FRAME_COUNTER,
        !traj(it, ifc, ins).blown,
    ensures
        traj(it, ifc, ins).tachometer < MAX_TACHOMETER,
        traj(it, ifc, ins).speed <= 255,
        traj(it, ifc, ins).distance <= 255 * ins.len(),
{
    lemma_bounded_progress(init_model(it, ifc), ins);
}

/// Extending an infeasible state cannot produce a win within the horizon.
pub proof fn lemma_infeasible_extension(c: SearchConfig, m: Model, depth: int, ext: Seq<Input>)
    requires
        wf_model(m),
        m.tachometer < MAX_TACHOMETER,
        m.speed <= 255,
        !m.blown,
        infeasible(c, m, depth),
        depth + ext.len() <= c.horizon,
    ensures
        !wins(c, run_model(m, ext)),
{
    if !run_model(m, ext).blown {
        lemma_bounded_progress(m, ext);
        assert(255 * ext.len() <= 255 * (c.horizon - depth)) by (nonlinear_arith)
            requires
                ext.len() <= c.horizon - depth,
        ;
    }
}

/// The running best only ever improves: once some winner is recorded, any
/// later record is at an earlier frame, or at the same frame and at least
/// as far.
spec fn best_improves(b0: Option<GameState>, b1: Option<GameState>) -> bool {
    b0 matches Some(x) ==> (b1 matches Some(y) && (y@.timer < x@.timer || (y@.timer == x@.timer
        && y@.distance >= x@.distance)))
}

/// The recorded best is at least as good as a state, in the engine's
/// ordering: earlier frame first, then greater distance.
pub open spec fn best_beats(c: SearchConfig, best: Option<GameState>, m: Model) -> bool {
    best matches Some(b) && (m.timer > b@.timer || (m.timer == b@.timer && m.distance
        <= b@.distance))
}

/// A win at or before this depth has been recorded: anything winning
/// strictly later is beaten outright.
spec fn stopped(best: Option<GameState>, depth: int) -> bool {
    best matches Some(b) && b@.timer <= depth
}

/// A state the engine has fully accounted for at a depth: if it wins, the
/// recorded best beats it; and it is blown, infeasible, represented in the
/// frontier, or past a recorded win.
spec fn handled(
    c: SearchConfig,
    fs: Seq<GameState>,
    best: Option<GameState>,
    m: Model,
    depth: int,
) -> bool {
    &&& (wins(c, m) ==> best_beats(c, best, m))
    &&& (m.blown || infeasible(c, m, depth) || covers(fs, m) || stopped(best, depth))
}

/// Every one-step successor of the first `bound` frontier representatives
/// is handled at the next depth.
spec fn successors_handled(
    c: SearchConfig,
    fs: Seq<GameState>,
    next: Seq<GameState>,
    best: Option<GameState>,
    bound: int,
    next_depth: int,
) -> bool {
    forall|j: int, c2: bool, s2: bool|
        #![trigger step_model(fs[j]@, c2, s2)]
        0 <= j < bound ==> handled(c, next, best, step_model(fs[j]@, c2, s2), next_depth)
}

/// Every trajectory of exactly `len` frames from a grid tachometer seed
/// below `it_bound` is handled.
spec fn layer_accounted(
    c: SearchConfig,
    ifc: int,
    it_bound: int,
    fs: Seq<GameState>,
    best: Option<GameState>,
    len: int,
) -> bool {
    forall|it: int, ins: Seq<Input>|
        #![trigger traj(it, ifc, ins)]
        grid_tach(c, it) && it < it_bound && ins.len() == len ==> handled(
            c,
            fs,
            best,
            traj(it, ifc, ins),
            len,
        )
}

/// Every winning trajectory of between 1 and `len_bound` frames from any
/// grid tachometer seed of this configuration is beaten by the recorded
/// best.
pub open spec fn wins_beaten_upto(
    c: SearchConfig,
    best: Option<GameState>,
    ifc: int,
    len_bound: int,
) -> bool {
    forall|it: int, ins: Seq<Input>|
        #![trigger traj(it, ifc, ins)]
        grid_tach(c, it) && 1 <= ins.len() <= len_bound && wins(c, traj(it, ifc, ins))
            ==> best_beats(c, best, traj(it, ifc, ins))
}

/// Improvement composes.
proof fn lemma_improves_trans(a: Option<GameState>, b: Option<GameState>, c: Option<GameState>)
    requires
        best_improves(a, b),
        best_improves(b, c),
    ensures
        best_improves(a, c),
{
}

/// Being handled survives frontier growth and best improvement.
proof fn lemma_handled_stable(
    c: SearchConfig,
    n0: Seq<GameState>,
    n1: Seq<GameState>,
    b0: Option<GameState>,
    b1: Option<GameState>,
    m: Model,
    depth: int,
)
    requires
        handled(c, n0, b0, m, depth),
        best_improves(b0, b1),
        forall|mm: Model| covers(n0, mm) ==> covers(n1, mm),
    ensures
        handled(c, n1, b1, m, depth),
{
}

/// Being beaten survives best improvement.
proof fn lemma_beaten_stable(
    c: SearchConfig,
    b0: Option<GameState>,
    b1: Option<GameState>,
    ifc: int,
    bound: int,
)
    requires
        wins_beaten_upto(c, b0, ifc, bound),
        best_improves(b0, b1),
    ensures
        wins_beaten_upto(c, b1, ifc, bound),
{
    assert forall|it: int, ins: Seq<Input>|
        grid_tach(c, it) && 1 <= ins.len() <= bound && wins(c, traj(it, ifc, ins)) implies
        best_beats(c, b1, traj(it, ifc, ins)) by {
        assert(best_beats(c, b0, traj(it, ifc, ins)));
    }
}

/// On a positive-stride grid, a grid value below `a + stride` is at most
/// `a`.
proof fn lemma_grid_value_below(stride: int, a: int, b: int)
    requires
        1 <= stride,
        a % stride == 0,
        b % stride == 0,
        0 <= a,
        0 <= b,
        b < a + stride,
    ensures
        b <= a,
{
    if b > a {
        vstd::arithmetic::div_mod::lemma_sub_mod_noop(b, a, stride);
        vstd::arithmetic::div_mod::lemma_small_mod(0nat, stride as nat);
        assert((b - a) % stride == 0);
        vstd::arithmetic::div_mod::lemma_small_mod((b - a) as nat, stride as nat);
        assert((b - a) % stride == b - a);
    }
}

/// The seed state of an in-range configuration is well-formed.
proof fn lemma_init_wf(it: int, ifc: int)
    requires
        0 <= it < MAX_TACHOMETER,
        0 <= ifc < MAX_FRAME_COUNTER,
    ensures
        wf_model(init_model(it, ifc)),
{
    vstd::arithmetic::div_mod::lemma_small_mod(ifc as nat, MAX_FRAME_COUNTER as nat);
}

/// A one-input trajectory is one step from the seed.
proof fn lemma_traj_one(it: int, ifc: int, ins: Seq<Input>)
    requires
        ins.len() == 1,
    ensures
        traj(it, ifc, ins) == step_model(
            init_model(it, ifc),
            ins.last().clutch,
            ins.last().shift,
        ),
{
    assert(ins.drop_last() =~= Seq::<Input>::empty());
    assert(run_model(init_model(it, ifc), Seq::<Input>::empty()) == init_model(it, ifc));
}

/// A trajectory whose prefix is blown or infeasible does not win within
/// the horizon.
proof fn lemma_prefix_closes(c: SearchConfig, it: int, ifc: int, ins: Seq<Input>, f: int)
    requires
        0 <= it < MAX_TACHOMETER,
        0 <= ifc < MAX_FRAME_COUNTER,
        1 <= f <= ins.len() <= c.horizon,
        ({
            let mp = traj(it, ifc, ins.take(f));
            mp.blown || infeasible(c, mp, f)
        }),
    ensures
        !wins(c, traj(it, ifc, ins)),
{
    let sd = init_model(it, ifc);
    let mp = traj(it, ifc, ins.take(f));
    lemma_init_wf(it, ifc);
    lemma_run_split(sd, ins, f);
    if mp.blown {
        lemma_blown_sticky(mp, ins.skip(f));
    } else {
        crate::laws::lemma_run_wf(sd, ins.take(f));
        lemma_traj_envelope(it, ifc, ins.take(f));
        lemma_infeasible_extension(c, mp, f, ins.skip(f));
    }
}

/// One frame of coverage: a trajectory whose parent layer is accounted
/// for by a frontier whose successors are all handled into `next` is
/// itself handled at the next depth.
proof fn lemma_layer_advances(
    c: SearchConfig,
    it: int,
    ifc: int,
    ins: Seq<Input>,
    fs: Seq<GameState>,
    next: Seq<GameState>,
    best: Option<GameState>,
    f: int,
)
    requires
        c.wf(),
        0 <= it < MAX_TACHOMETER,
        0 <= ifc < MAX_FRAME_COUNTER,
        ins.len() == f + 1,
        1 <= f,
        f + 1 <= c.horizon,
        frontier_ok(c, fs, f, ifc),
        successors_handled(c, fs, next, best, fs.len() as int, f + 1),
        handled(c, fs, best, traj(it, ifc, ins.take(f)), f),
    ensures
        handled(c, next, best, traj(it, ifc, ins), f + 1),
{
    let sd = init_model(it, ifc);
    let mp = traj(it, ifc, ins.take(f));
    let last = ins.last();
    let m = traj(it, ifc, ins);
    lemma_init_wf(it, ifc);
    assert(ins.take(f) =~= ins.drop_last());
    assert(m == step_model(mp, last.clutch, last.shift));
    crate::laws::lemma_run_wf(sd, ins.take(f));
    crate::laws::lemma_run_timer(sd, ins.take(f));
    if mp.blown {
        crate::laws::lemma_blown_sticky_step(mp, last.clutch, last.shift);
    } else if wins(c, mp) {
        crate::laws::lemma_distance_monotonic_step(mp, last.clutch, last.shift);
    } else {
        lemma_traj_envelope(it, ifc, ins.take(f));
        if infeasible(c, mp, f) {
            lemma_infeasible_extension(c, mp, f, seq![last]);
            assert(seq![last].drop_last() =~= Seq::<Input>::empty());
            assert(seq![last].last() == last);
            assert(run_model(mp, Seq::<Input>::empty()) == mp);
            assert(run_model(mp, seq![last]) == m);
            lemma_step_live(mp, last.clutch, last.shift);
        } else if covers(fs, mp) {
            let j = choose|j: int| 0 <= j < fs.len() && rep_covers(#[trigger] fs[j]@, mp);
            let m2 = step_model(fs[j]@, last.clutch, last.shift);
            lemma_dominance_step(mp, fs[j]@, last.clutch, last.shift);
            assert(handled(c, next, best, m2, f + 1));
            if m2.blown {
            } else if infeasible(c, m2, f + 1) {
                assert(255 * (c.horizon - (f + 1)) >= 0) by (nonlinear_arith)
                    requires
                        c.horizon >= f + 1,
                ;
            } else if covers(next, m2) {
                let r = choose|r: int| 0 <= r < next.len() && rep_covers(#[trigger] next[r]@, m2);
                assert(rep_covers(next[r]@, m));
                assert(covers(next, m));
            }
        }
    }
}

/// The engine's answer: the best winning state found (earliest frame,
/// then greatest distance, over everything the search visited), or `None`
/// when no visited state won; and the number of simulation steps taken,
/// as a saturating diagnostic counter.
pub struct SearchOutcome {
    pub best: Option<GameState>,
    pub steps: u64,
}

pub open spec fn outcome_ok(c: SearchConfig, r: SearchOutcome) -> bool {
    r.best matches Some(b) ==> winning_state(c, b@)
}

fn add_step(s: u64) -> (r: u64) {
    if s < u64::MAX {
        s + 1
    } else {
        s
    }
}

pub open spec fn key_code(k: EquivalenceKey) -> int {
    (if k.last_shift {
        1int
    } else {
        0int
    }) + 2 * k.gear + 16 * k.tachometer_diff + 32 * k.tachometer + 1024 * k.speed
}

/// Pack the equivalence key of an unblown state into one integer.
fn key_encode(st: &GameState) -> (r: u64)
    requires
        st.wf(),
        !st@.blown,
        st@.tachometer < MAX_TACHOMETER,
        st@.speed <= 255,
    ensures
        r as int == key_code(equiv_key(st@)),
{
    let n = st.inputs.len();
    let ls = n > 0 && st.inputs[n - 1].shift;
    let ls_bit: u64 = if ls {
        1
    } else {
        0
    };
    ls_bit + 2 * (st.gear as u64) + 16 * (st.tachometer_diff as u64) + 32 * (st.tachometer as u64)
        + 1024 * (st.speed as u64)
}

/// Bounds on one frame from inside the engine's envelope: a successor that
/// is not blown is still inside the envelope, and the frame gains at most
/// 257 of speed.
proof fn lemma_step_live(m: Model, clutch: bool, shift: bool)
    requires
        wf_model(m),
        !m.blown,
        m.tachometer < MAX_TACHOMETER,
        m.speed <= 255,
    ensures
        step_model(m, clutch, shift).speed <= 257,
        !step_model(m, clutch, shift).blown ==> step_model(m, clutch, shift).tachometer
            < MAX_TACHOMETER && step_model(m, clutch, shift).speed <= 255,
        !step_model(m, clutch, shift).blown && m.distance <= 256 * m.timer ==> step_model(
            m,
            clutch,
            shift,
        ).distance <= 256 * step_model(m, clutch, shift).timer,
{
    let m2 = step_model(m, clutch, shift);
    assert(gear_ratio(m.gear) == 1 || gear_ratio(m.gear) == 4 || gear_ratio(m.gear) == 8);
    if !m2.blown {
        assert(m2.tachometer * gear_ratio(m.gear) <= 31 * 8) by (nonlinear_arith)
            requires
                0 <= m2.tachometer < 32,
                gear_ratio(m.gear) == 1 || gear_ratio(m.gear) == 4 || gear_ratio(m.gear) == 8,
        ;
    }
}

/// Weigh one freshly produced state: discard it if blown or provably
/// unable to reach the threshold within the horizon; record it as a win if
/// it meets the threshold (keeping the earliest-then-farthest winner);
/// otherwise insert it into the next frontier, replacing a nearer state with
/// the same equivalence key when the reduction is on.
#[verifier::rlimit(100)]
fn consider(
    config: &SearchConfig,
    st: GameState,
    depth: i128,
    reduce: bool,
    frontier: &mut Vec<GameState>,
    index: &mut HashMap<u64, usize>,
    best: &mut Option<GameState>,
    won: &mut bool,
)
    requires
        config.wf(),
        candidate_ok(*config, st@, depth as int),
        1 <= depth <= config.horizon,
        frontier_ok(*config, old(frontier)@, depth as int, st@.initial_frame_counter),
        index_ok(old(frontier)@, old(index)@),
        best_ok(*config, *old(best)),
    ensures
        frontier_ok(*config, final(frontier)@, depth as int, st@.initial_frame_counter),
        index_ok(final(frontier)@, final(index)@),
        best_ok(*config, *final(best)),
        *old(won) ==> *final(won),
        !*old(won) && *final(won) ==> ((*final(best)) matches Some(b) && b@.timer <= depth),
        forall|m: Model| covers(old(frontier)@, m) ==> covers(final(frontier)@, m),
        (*final(best)) is None ==> (*old(best)) is None,
        best_improves(*old(best), *final(best)),
        !st@.blown && st@.distance >= config.winning_threshold ==> ((*final(best)) matches Some(b)
            && b@.timer <= depth as int && (b@.timer == depth as int ==> b@.distance
            >= st@.distance)),
        config.max_speed >= 255 && !st@.blown && !infeasible(*config, st@, depth as int)
            && st@.distance < config.winning_threshold ==> covers(final(frontier)@, st@),
{
    if st.blown {
        return ;
    }
    let remaining: i128 = config.horizon - depth;
    proof {
        assert(st@.distance + config.max_speed * remaining <= i128::MAX) by (nonlinear_arith)
            requires
                0 <= config.max_speed,
                0 <= remaining,
                remaining <= config.horizon,
                st@.distance <= 256 * (depth as int),
                1 <= depth <= config.horizon,
                (config.max_speed + 256) * (config.horizon + 1) + 256 <= i128::MAX,
        ;
        assert(config.max_speed >= 255 ==> 255 * remaining <= config.max_speed * remaining) by (
        nonlinear_arith)
            requires
                0 <= remaining,
        ;
        assert(config.max_speed * remaining >= 0) by (nonlinear_arith)
            requires
                0 <= config.max_speed,
                0 <= remaining,
        ;
    }
    let potential: i128 = st.distance + config.max_speed * remaining;
    if potential < config.winning_threshold {
        return ;
    }
    if st.distance >= config.winning_threshold {
        *won = true;
        let is_better: bool = match &*best {
            None => true,
            Some(b) => depth < b.timer || (depth == b.timer && st.distance > b.distance),
        };
        if is_better {
            *best = Some(st);
        }
        return ;
    }
    if reduce {
        let code = key_encode(&st);
        let mut found: Option<usize> = None;
        match index.get(&code) {
            Some(p) => {
                found = Some(*p);
            },
            None => {},
        }
        match found {
            Some(pos) => {
                proof {
                    assert(old(index)@.contains_key(code) && old(index)@[code] == pos);
                    assert(live_state(
                        *config,
                        old(frontier)@[pos as int]@,
                        depth as int,
                        st@.initial_frame_counter,
                    ));
                    lemma_key_code_injective(
                        equiv_key(old(frontier)@[pos as int]@),
                        equiv_key(st@),
                    );
                    assert(old(frontier)@[pos as int]@.frame_counter == st@.frame_counter);
                }
                if frontier[pos].distance < st.distance {
                    let ghost fs0 = frontier@;
                    frontier.set(pos, st);
                    proof {
                        assert forall|m: Model| covers(fs0, m) implies covers(
                            frontier@,
                            m,
                        ) by {
                            let j = choose|j: int|
                                0 <= j < fs0.len() && rep_covers(#[trigger] fs0[j]@, m);
                            if j == pos as int {
                                assert(rep_covers(frontier@[pos as int]@, m));
                            } else {
                                assert(rep_covers(frontier@[j]@, m));
                            }
                        }
                        assert(rep_covers(frontier@[pos as int]@, st@));
                    }
                } else {
                    proof {
                        assert(rep_covers(frontier@[pos as int]@, st@));
                    }
                }
            },
            None => {
                let end = frontier.len();
                frontier.push(st);
                index.insert(code, end);
                proof {
                    assert(frontier@ =~= old(frontier)@.push(st));
                    assert(rep_covers(frontier@[end as int]@, st@));
                    assert forall|m: Model| covers(old(frontier)@, m) implies covers(
                        frontier@,
                        m,
                    ) by {
                        let j = choose|j: int|
                            0 <= j < old(frontier)@.len() && rep_covers(
                                #[trigger] old(frontier)@[j]@,
                                m,
                            );
                        assert(rep_covers(frontier@[j]@, m));
                    }
                }
            },
        }
    } else {
        let ghost end: int = frontier@.len() as int;
        frontier.push(st);
        proof {
            assert(frontier@ =~= old(frontier)@.push(st));
            assert(rep_covers(frontier@[end]@, st@));
            assert forall|m: Model| covers(old(frontier)@, m) implies covers(frontier@, m) by {
                let j = choose|j: int|
                    0 <= j < old(frontier)@.len() && rep_covers(#[trigger] old(frontier)@[j]@, m);
                assert(rep_covers(frontier@[j]@, m));
            }
        }
    }
}

/// Step one frontier representative by one input pair and weigh the
/// successor.
fn step_into(
    config: &SearchConfig,
    base: &GameState,
    clutch: bool,
    shift: bool,
    f: i128,
    reduce: bool,
    next: &mut Vec<GameState>,
    index: &mut HashMap<u64, usize>,
    best: &mut Option<GameState>,
    won: &mut bool,
    steps: &mut u64,
)
    requires
        config.wf(),
        live_state(*config, base@, f as int, base@.initial_frame_counter),
        1 <= f < config.horizon,
        frontier_ok(*config, old(next)@, f as int + 1, base@.initial_frame_counter),
        index_ok(old(next)@, old(index)@),
        best_ok(*config, *old(best)),
    ensures
        frontier_ok(*config, final(next)@, f as int + 1, base@.initial_frame_counter),
        index_ok(final(next)@, final(index)@),
        best_ok(*config, *final(best)),
        *old(won) ==> *final(won),
        !*old(won) && *final(won) ==> ((*final(best)) matches Some(b) && b@.timer <= f as int + 1),
        forall|m: Model| covers(old(next)@, m) ==> covers(final(next)@, m),
        (*final(best)) is None ==> (*old(best)) is None,
        best_improves(*old(best), *final(best)),
        wins(*config, step_model(base@, clutch, shift)) ==> best_beats(
            *config,
            *final(best),
            step_model(base@, clutch, shift),
        ),
        config.max_speed >= 255 ==> handled(
            *config,
            final(next)@,
            *final(best),
            step_model(base@, clutch, shift),
            f as int + 1,
        ),
{
    let mut st = base.snapshot();
    proof {
        lemma_step_live(base@, clutch, shift);
        assert((config.max_speed + 256) * (config.horizon + 1) >= 256 * (config.horizon + 1)) by (
        nonlinear_arith)
            requires
                0 <= config.max_speed,
                0 <= config.horizon,
        ;
        assert(256 * (f as int) + 257 <= 256 * (config.horizon + 1)) by (nonlinear_arith)
            requires
                1 <= f < config.horizon,
        ;
        assert(step_fits(st@, clutch, shift));
        lemma_run_push(seed_of(base@), base@.inputs, (Input { clutch, shift }));
    }
    st.game_step(clutch, shift);
    *steps = add_step(*steps);
    proof {
        assert(reachable(st@));
    }
    consider(config, st, f + 1, reduce, next, index, best, won);
    proof {
        let m2 = step_model(base@, clutch, shift);
        if !m2.blown && m2.distance >= config.winning_threshold {
            assert(best_beats(*config, *best, m2));
        }
        if config.max_speed >= 255 {
            if !m2.blown && !infeasible(*config, m2, f as int + 1) {
                if m2.distance >= config.winning_threshold {
                    assert(stopped(*best, f as int + 1));
                } else {
                    assert(covers(next@, m2));
                }
            }
            assert(handled(*config, next@, *best, m2, f as int + 1));
        }
    }
}

/// Apply all four input combinations to one frontier representative.
fn expand_state(
    config: &SearchConfig,
    base: &GameState,
    f: i128,
    reduce: bool,
    next: &mut Vec<GameState>,
    index: &mut HashMap<u64, usize>,
    best: &mut Option<GameState>,
    won: &mut bool,
    steps: &mut u64,
)
    requires
        config.wf(),
        live_state(*config, base@, f as int, base@.initial_frame_counter),
        1 <= f < config.horizon,
        frontier_ok(*config, old(next)@, f as int + 1, base@.initial_frame_counter),
        index_ok(old(next)@, old(index)@),
        best_ok(*config, *old(best)),
    ensures
        frontier_ok(*config, final(next)@, f as int + 1, base@.initial_frame_counter),
        index_ok(final(next)@, final(index)@),
        best_ok(*config, *final(best)),
        *old(won) ==> *final(won),
        !*old(won) && *final(won) ==> ((*final(best)) matches Some(b) && b@.timer <= f as int + 1),
        forall|m: Model| covers(old(next)@, m) ==> covers(final(next)@, m),
        (*final(best)) is None ==> (*old(best)) is None,
        best_improves(*old(best), *final(best)),
        config.max_speed >= 255 ==> forall|c2: bool, s2: bool|
            handled(*config, final(next)@, *final(best), step_model(base@, c2, s2), f as int + 1),
{
    step_into(config, base, false, false, f, reduce, next, index, best, won, steps);
    let ghost n1 = next@;
    let ghost b1 = *best;
    step_into(config, base, false, true, f, reduce, next, index, best, won, steps);
    let ghost n2 = next@;
    let ghost b2 = *best;
    step_into(config, base, true, false, f, reduce, next, index, best, won, steps);
    let ghost n3 = next@;
    let ghost b3 = *best;
    step_into(config, base, true, true, f, reduce, next, index, best, won, steps);
    proof {
        lemma_improves_trans(b1, b2, b3);
        lemma_improves_trans(b1, b3, *best);
        if config.max_speed >= 255 {
            assert forall|c2: bool, s2: bool|
                handled(
                    *config,
                    next@,
                    *best,
                    step_model(base@, c2, s2),
                    f as int + 1,
                ) by {
                let m2 = step_model(base@, c2, s2);
                if !c2 && !s2 {
                    lemma_handled_stable(*config, n1, n2, b1, b2, m2, f as int + 1);
                    lemma_handled_stable(*config, n2, n3, b2, b3, m2, f as int + 1);
                    lemma_handled_stable(*config, n3, next@, b3, *best, m2, f as int + 1);
                } else if !c2 && s2 {
                    lemma_handled_stable(*config, n2, n3, b2, b3, m2, f as int + 1);
                    lemma_handled_stable(*config, n3, next@, b3, *best, m2, f as int + 1);
                } else if c2 && !s2 {
                    lemma_handled_stable(*config, n3, next@, b3, *best, m2, f as int + 1);
                }
            }
        }
    }
}

/// Search one seed configuration: build the depth-one frontier over the
/// tachometer grid and the four first inputs, then expand frame by frame
/// up to the horizon, stopping at the first frame that produced a win.
/// Afterwards every winning trajectory of up to `horizon` frames from
/// this configuration's grid seeds is beaten by the recorded best.
fn search_configuration(
    config: &SearchConfig,
    ifc: i128,
    reduce: bool,
    best: &mut Option<GameState>,
    steps: &mut u64,
)
    requires
        config.wf(),
        config.horizon >= 1,
        grid_fc(*config, ifc as int),
        best_ok(*config, *old(best)),
    ensures
        best_ok(*config, *final(best)),
        best_improves(*old(best), *final(best)),
        (*final(best)) is None ==> (*old(best)) is None,
        config.max_speed >= 255 ==> wins_beaten_upto(
            *config,
            *final(best),
            ifc as int,
            config.horizon as int,
        ),
{
    let ghost best0 = *old(best);
    let mut frontier: Vec<GameState> = Vec::new();
    let mut won: bool = false;
    let mut seed_index: HashMap<u64, usize> = HashMap::new();
    let mut it: i128 = 0;
    while it < MAX_TACHOMETER
        invariant
            config.wf(),
            config.horizon >= 1,
            grid_fc(*config, ifc as int),
            0 <= it <= 2 * MAX_TACHOMETER,
            it % config.tachometer_stride == 0,
            frontier_ok(*config, frontier@, 1, ifc as int),
            index_ok(frontier@, seed_index@),
            best_ok(*config, *best),
            best_improves(best0, *best),
            won ==> ((*best) matches Some(b) && b@.timer <= 1),
            config.max_speed >= 255 ==> layer_accounted(
                *config,
                ifc as int,
                it as int,
                frontier@,
                *best,
                1,
            ),
        decreases 2 * MAX_TACHOMETER - it,
    {
        let ghost fr0 = frontier@;
        let ghost bpre = *best;
        seed_tachometer(
            config,
            it,
            ifc,
            reduce,
            &mut frontier,
            &mut seed_index,
            best,
            &mut won,
            steps,
        );
        proof {
            lemma_improves_trans(best0, bpre, *best);
            if config.max_speed >= 255 {
                assert forall|it2: int, ins: Seq<Input>|
                    grid_tach(*config, it2) && it2 < it + config.tachometer_stride && ins.len()
                        == 1 implies handled(
                    *config,
                    frontier@,
                    *best,
                    traj(it2, ifc as int, ins),
                    1,
                ) by {
                    lemma_grid_value_below(config.tachometer_stride as int, it as int, it2);
                    lemma_traj_one(it2, ifc as int, ins);
                    if it2 == it as int {
                        assert(handled(
                            *config,
                            frontier@,
                            *best,
                            step_model(
                                init_model(it as int, ifc as int),
                                ins.last().clutch,
                                ins.last().shift,
                            ),
                            1,
                        ));
                    } else {
                        assert(handled(*config, fr0, bpre, traj(it2, ifc as int, ins), 1));
                        lemma_handled_stable(
                            *config,
                            fr0,
                            frontier@,
                            bpre,
                            *best,
                            traj(it2, ifc as int, ins),
                            1,
                        );
                    }
                }
            }
            vstd::arithmetic::div_mod::lemma_mod_add_multiples_vanish(
                it as int,
                config.tachometer_stride as int,
            );
        }
        it = it + config.tachometer_stride;
    }
    let mut f: i128 = 1;
    while f < config.horizon && !won && frontier.len() > 0
        invariant
            config.wf(),
            1 <= f <= config.horizon,
            grid_fc(*config, ifc as int),
            frontier_ok(*config, frontier@, f as int, ifc as int),
            best_ok(*config, *best),
            best_improves(best0, *best),
            won ==> ((*best) matches Some(b) && b@.timer <= f as int),
            config.max_speed >= 255 ==> layer_accounted(
                *config,
                ifc as int,
                MAX_TACHOMETER as int,
                frontier@,
                *best,
                f as int,
            ),
            config.max_speed >= 255 ==> wins_beaten_upto(*config, *best, ifc as int, f as int),
        decreases config.horizon - f,
    {
        let ghost bframe = *best;
        let mut next: Vec<GameState> = Vec::new();
        let mut index: HashMap<u64, usize> = HashMap::new();
        let mut i: usize = 0;
        while i < frontier.len()
            invariant
                config.wf(),
                1 <= f < config.horizon,
                grid_fc(*config, ifc as int),
                0 <= i <= frontier.len(),
                frontier_ok(*config, frontier@, f as int, ifc as int),
                frontier_ok(*config, next@, f as int + 1, ifc as int),
                index_ok(next@, index@),
                best_ok(*config, *best),
                best_improves(best0, *best),
                best_improves(bframe, *best),
                won ==> ((*best) matches Some(b) && b@.timer <= f as int + 1),
                config.max_speed >= 255 ==> layer_accounted(
                    *config,
                    ifc as int,
                    MAX_TACHOMETER as int,
                    frontier@,
                    bframe,
                    f as int,
                ),
                config.max_speed >= 255 ==> wins_beaten_upto(
                    *config,
                    *best,
                    ifc as int,
                    f as int,
                ),
                config.max_speed >= 255 ==> successors_handled(
                    *config,
                    frontier@,
                    next@,
                    *best,
                    i as int,
                    f as int + 1,
                ),
            decreases frontier.len() - i,
        {
            let ghost nx0 = next@;
            let ghost bpre = *best;
            expand_state(config, &frontier[i], f, reduce, &mut next, &mut index, best, &mut won, steps);
            proof {
                lemma_improves_trans(best0, bpre, *best);
                lemma_improves_trans(bframe, bpre, *best);
                if config.max_speed >= 255 {
                    lemma_beaten_stable(*config, bpre, *best, ifc as int, f as int);
                    assert forall|j: int, c2: bool, s2: bool|
                        #![trigger step_model(frontier@[j]@, c2, s2)]
                        0 <= j < i + 1 implies handled(
                        *config,
                        next@,
                        *best,
                        step_model(frontier@[j]@, c2, s2),
                        f as int + 1,
                    ) by {
                        let m2 = step_model(frontier@[j]@, c2, s2);
                        if j < i {
                            assert(handled(*config, nx0, bpre, m2, f as int + 1));
                            lemma_handled_stable(
                                *config,
                                nx0,
                                next@,
                                bpre,
                                *best,
                                m2,
                                f as int + 1,
                            );
                        } else {
                            assert(frontier@[j] == frontier@[i as int]);
                        }
                    }
                }
            }
            i = i + 1;
        }
        proof {
            if config.max_speed >= 255 {
                lemma_beaten_stable(*config, bframe, *best, ifc as int, f as int);
                assert forall|it2: int, ins: Seq<Input>|
                    grid_tach(*config, it2) && ins.len() == f as int + 1 implies handled(
                    *config,
                    next@,
                    *best,
                    traj(it2, ifc as int, ins),
                    f as int + 1,
                ) by {
                    assert(traj(it2, ifc as int, ins.take(f as int)) == traj(
                        it2,
                        ifc as int,
                        ins.take(f as int),
                    ));
                    assert(handled(
                        *config,
                        frontier@,
                        bframe,
                        traj(it2, ifc as int, ins.take(f as int)),
                        f as int,
                    ));
                    lemma_handled_stable(
                        *config,
                        frontier@,
                        frontier@,
                        bframe,
                        *best,
                        traj(it2, ifc as int, ins.take(f as int)),
                        f as int,
                    );
                    lemma_layer_advances(
                        *config,
                        it2,
                        ifc as int,
                        ins,
                        frontier@,
                        next@,
                        *best,
                        f as int,
                    );
                }
                assert forall|it2: int, ins: Seq<Input>|
                    grid_tach(*config, it2) && 1 <= ins.len() <= f as int + 1 && wins(
                        *config,
                        traj(it2, ifc as int, ins),
                    ) implies best_beats(*config, *best, traj(it2, ifc as int, ins)) by {
                    if ins.len() == f as int + 1 {
                        assert(handled(
                            *config,
                            next@,
                            *best,
                            traj(it2, ifc as int, ins),
                            f as int + 1,
                        ));
                    } else {
                        assert(traj(it2, ifc as int, ins) == traj(it2, ifc as int, ins));
                    }
                }
            }
        }
        frontier = next;
        f = f + 1;
    }
    proof {
        if config.max_speed >= 255 {
            assert forall|it2: int, ins: Seq<Input>|
                grid_tach(*config, it2) && 1 <= ins.len() <= config.horizon && wins(
                    *config,
                    traj(it2, ifc as int, ins),
                ) implies best_beats(*config, *best, traj(it2, ifc as int, ins)) by {
                if ins.len() <= f as int {
                    assert(traj(it2, ifc as int, ins) == traj(it2, ifc as int, ins));
                } else {
                    lemma_init_wf(it2, ifc as int);
                    crate::laws::lemma_run_timer(init_model(it2, ifc as int), ins);
                    if !won {
                        assert(frontier@.len() == 0);
                        assert(traj(it2, ifc as int, ins.take(f as int)) == traj(
                            it2,
                            ifc as int,
                            ins.take(f as int),
                        ));
                        let mp = traj(it2, ifc as int, ins.take(f as int));
                        assert(handled(*config, frontier@, *best, mp, f as int));
                        if mp.blown || infeasible(*config, mp, f as int) {
                            lemma_prefix_closes(*config, it2, ifc as int, ins, f as int);
                        }
                    }
                }
            }
        }
    }
}

/// Seed the four first inputs of one tachometer grid value.
fn seed_tachometer(
    config: &SearchConfig,
    it: i128,
    ifc: i128,
    reduce: bool,
    frontier: &mut Vec<GameState>,
    index: &mut HashMap<u64, usize>,
    best: &mut Option<GameState>,
    won: &mut bool,
    steps: &mut u64,
)
    requires
        config.wf(),
        config.horizon >= 1,
        grid_tach(*config, it as int),
        grid_fc(*config, ifc as int),
        frontier_ok(*config, old(frontier)@, 1, ifc as int),
        index_ok(old(frontier)@, old(index)@),
        best_ok(*config, *old(best)),
    ensures
        frontier_ok(*config, final(frontier)@, 1, ifc as int),
        index_ok(final(frontier)@, final(index)@),
        best_ok(*config, *final(best)),
        *old(won) ==> *final(won),
        !*old(won) && *final(won) ==> ((*final(best)) matches Some(b) && b@.timer <= 1),
        forall|m: Model| covers(old(frontier)@, m) ==> covers(final(frontier)@, m),
        (*final(best)) is None ==> (*old(best)) is None,
        best_improves(*old(best), *final(best)),
        config.max_speed >= 255 ==> forall|c2: bool, s2: bool|
            handled(
                *config,
                final(frontier)@,
                *final(best),
                step_model(init_model(it as int, ifc as int), c2, s2),
                1,
            ),
{
    seed_one(config, it, ifc, false, false, reduce, frontier, index, best, won, steps);
    let ghost n1 = frontier@;
    let ghost b1 = *best;
    seed_one(config, it, ifc, false, true, reduce, frontier, index, best, won, steps);
    let ghost n2 = frontier@;
    let ghost b2 = *best;
    seed_one(config, it, ifc, true, false, reduce, frontier, index, best, won, steps);
    let ghost n3 = frontier@;
    let ghost b3 = *best;
    seed_one(config, it, ifc, true, true, reduce, frontier, index, best, won, steps);
    proof {
        let sd = init_model(it as int, ifc as int);
        lemma_improves_trans(b1, b2, b3);
        lemma_improves_trans(b1, b3, *best);
        if config.max_speed >= 255 {
            assert forall|c2: bool, s2: bool|
                handled(*config, frontier@, *best, step_model(sd, c2, s2), 1) by {
                let m2 = step_model(sd, c2, s2);
                if !c2 && !s2 {
                    lemma_handled_stable(*config, n1, n2, b1, b2, m2, 1);
                    lemma_handled_stable(*config, n2, n3, b2, b3, m2, 1);
                    lemma_handled_stable(*config, n3, frontier@, b3, *best, m2, 1);
                } else if !c2 && s2 {
                    lemma_handled_stable(*config, n2, n3, b2, b3, m2, 1);
                    lemma_handled_stable(*config, n3, frontier@, b3, *best, m2, 1);
                } else if c2 && !s2 {
                    lemma_handled_stable(*config, n3, frontier@, b3, *best, m2, 1);
                }
            }
        }
    }
}

/// Seed one `(initial tachometer, initial frame counter, first input)`
/// triple: the depth-one state of that configuration.
fn seed_one(
    config: &SearchConfig,
    it: i128,
    ifc: i128,
    clutch: bool,
    shift: bool,
    reduce: bool,
    frontier: &mut Vec<GameState>,
    index: &mut HashMap<u64, usize>,
    best: &mut Option<GameState>,
    won: &mut bool,
    steps: &mut u64,
)
    requires
        config.wf(),
        config.horizon >= 1,
        grid_tach(*config, it as int),
        grid_fc(*config, ifc as int),
        frontier_ok(*config, old(frontier)@, 1, ifc as int),
        index_ok(old(frontier)@, old(index)@),
        best_ok(*config, *old(best)),
    ensures
        frontier_ok(*config, final(frontier)@, 1, ifc as int),
        index_ok(final(frontier)@, final(index)@),
        best_ok(*config, *final(best)),
        *old(won) ==> *final(won),
        !*old(won) && *final(won) ==> ((*final(best)) matches Some(b) && b@.timer <= 1),
        forall|m: Model| covers(old(frontier)@, m) ==> covers(final(frontier)@, m),
        (*final(best)) is None ==> (*old(best)) is None,
        best_improves(*old(best), *final(best)),
        config.max_speed >= 255 ==> handled(
            *config,
            final(frontier)@,
            *final(best),
            step_model(init_model(it as int, ifc as int), clutch, shift),
            1,
        ),
{
    let st = GameState::with_seed(it, ifc, clutch, shift);
    *steps = add_step(*steps);
    proof {
        let sd = crate::sim::init_model(it as int, ifc as int);
        lemma_run_push(sd, Seq::<Input>::empty(), (Input { clutch, shift }));
        assert(run_model(sd, Seq::<Input>::empty()) == sd);
        assert(st@.inputs =~= Seq::<Input>::empty().push((Input { clutch, shift })));
        assert(reachable(st@));
        assert(candidate_ok(*config, st@, 1));
    }
    consider(config, st, 1, reduce, frontier, index, best, won);
    proof {
        let m2 = step_model(crate::sim::init_model(it as int, ifc as int), clutch, shift);
        if config.max_speed >= 255 {
            if !m2.blown && !infeasible(*config, m2, 1) {
                if m2.distance >= config.winning_threshold {
                    assert(best_beats(*config, *best, m2));
                    assert(stopped(*best, 1));
                } else {
                    assert(covers(frontier@, m2));
                }
            }
            assert(handled(*config, frontier@, *best, m2, 1));
        }
    }
}

fn search_core(config: &SearchConfig, reduce: bool) -> (r: SearchOutcome)
    requires
        config.wf(),
    ensures
        outcome_ok(*config, r),
        config.max_speed >= 255 ==> forall|it: int, ifc: int, ins: Seq<Input>|
            #![trigger traj(it, ifc, ins)]
            grid_tach(*config, it) && grid_fc(*config, ifc) && 1 <= ins.len() <= config.horizon
                && wins(*config, traj(it, ifc, ins)) ==> best_beats(
                *config,
                r.best,
                traj(it, ifc, ins),
            ),
        config.max_speed >= 255 && r.best is None ==> forall|it: int, ifc: int, ins: Seq<Input>|
            #![trigger traj(it, ifc, ins)]
            grid_tach(*config, it) && grid_fc(*config, ifc) && 1 <= ins.len() <= config.horizon
                ==> !wins(*config, traj(it, ifc, ins)),
{
    let mut best: Option<GameState> = None;
    let mut steps: u64 = 0;
    if config.horizon < 1 {
        return SearchOutcome { best, steps };
    }
    let mut ifc: i128 = 0;
    while ifc < MAX_FRAME_COUNTER
        invariant
            config.wf(),
            config.horizon >= 1,
            0 <= ifc <= 2 * MAX_FRAME_COUNTER,
            ifc % config.frame_counter_stride == 0,
            best_ok(*config, best),
            config.max_speed >= 255 ==> forall|ifc2: int|
                #![trigger wins_beaten_upto(*config, best, ifc2, config.horizon as int)]
                grid_fc(*config, ifc2) && ifc2 < ifc ==> wins_beaten_upto(
                    *config,
                    best,
                    ifc2,
                    config.horizon as int,
                ),
        decreases 2 * MAX_FRAME_COUNTER - ifc,
    {
        let ghost bpre = best;
        search_configuration(config, ifc, reduce, &mut best, &mut steps);
        proof {
            if config.max_speed >= 255 {
                assert forall|ifc2: int|
                    grid_fc(*config, ifc2) && ifc2 < ifc + config.frame_counter_stride implies
                    wins_beaten_upto(*config, best, ifc2, config.horizon as int) by {
                    lemma_grid_value_below(config.frame_counter_stride as int, ifc as int, ifc2);
                    if ifc2 < ifc as int {
                        assert(wins_beaten_upto(*config, bpre, ifc2, config.horizon as int));
                        lemma_beaten_stable(*config, bpre, best, ifc2, config.horizon as int);
                    }
                }
            }
            vstd::arithmetic::div_mod::lemma_mod_add_multiples_vanish(
                ifc as int,
                config.frame_counter_stride as int,
            );
        }
        ifc = ifc + config.frame_counter_stride;
    }
    proof {
        if config.max_speed >= 255 {
            assert forall|it: int, ifc2: int, ins: Seq<Input>|
                grid_tach(*config, it) && grid_fc(*config, ifc2) && 1 <= ins.len()
                    <= config.horizon && wins(*config, traj(it, ifc2, ins)) implies best_beats(
                *config,
                best,
                traj(it, ifc2, ins),
            ) by {
                assert(wins_beaten_upto(*config, best, ifc2, config.horizon as int));
                assert(traj(it, ifc2, ins) == traj(it, ifc2, ins));
            }
        }
    }
    SearchOutcome { best, steps }
}

/// The equivalence-and-dominance reduction is a pure optimization, never
/// changing the answer: two outcomes that each satisfy the search
/// contract — as `search` and `search_unreduced` both do — agree on
/// whether a win exists, and on the winning frame count and distance.
pub proof fn lemma_search_answers_agree(c: SearchConfig, r1: SearchOutcome, r2: SearchOutcome)
    requires
        c.max_speed >= 255,
        outcome_ok(c, r1),
        outcome_ok(c, r2),
        forall|it: int, ifc: int, ins: Seq<Input>|
            #![trigger traj(it, ifc, ins)]
            grid_tach(c, it) && grid_fc(c, ifc) && 1 <= ins.len() <= c.horizon && wins(
                c,
                traj(it, ifc, ins),
            ) ==> best_beats(c, r1.best, traj(it, ifc, ins)),
        forall|it: int, ifc: int, ins: Seq<Input>|
            #![trigger traj(it, ifc, ins)]
            grid_tach(c, it) && grid_fc(c, ifc) && 1 <= ins.len() <= c.horizon && wins(
                c,
                traj(it, ifc, ins),
            ) ==> best_beats(c, r2.best, traj(it, ifc, ins)),
    ensures
        r1.best is Some <==> r2.best is Some,
        r1.best matches Some(x) ==> r2.best matches Some(y) ==> (x@.timer == y@.timer
            && x@.distance == y@.distance),
{
    if r1.best is Some {
        let x = r1.best->Some_0;
        assert(traj(x@.initial_tachometer, x@.initial_frame_counter, x@.inputs) == x@);
        assert(best_beats(c, r2.best, x@));
    }
    if r2.best is Some {
        let y = r2.best->Some_0;
        assert(traj(y@.initial_tachometer, y@.initial_frame_counter, y@.inputs) == y@);
        assert(best_beats(c, r1.best, y@));
    }
}

/// Find, over all input sequences from all grid seeds, the best winning
/// state within the horizon, collapsing each frontier by the
/// equivalence-and-dominance reduction. Any state returned is a genuine,
/// unblown win: the run of its own recorded inputs from its on-grid seed,
/// meeting the threshold within the horizon. Conversely — provided the
/// configured speed cap is at least the true per-frame maximum of 255 —
/// the answer is optimal: every winning input sequence of up to `horizon`
/// frames from any grid seed either takes strictly more frames than the
/// returned winner, or takes as many and travels no farther; and an empty
/// answer is a proof that no such sequence wins at all.
pub fn search(config: &SearchConfig) -> (r: SearchOutcome)
    requires
        config.wf(),
    ensures
        outcome_ok(*config, r),
        config.max_speed >= 255 ==> forall|it: int, ifc: int, ins: Seq<Input>|
            #![trigger traj(it, ifc, ins)]
            grid_tach(*config, it) && grid_fc(*config, ifc) && 1 <= ins.len() <= config.horizon
                && wins(*config, traj(it, ifc, ins)) ==> best_beats(
                *config,
                r.best,
                traj(it, ifc, ins),
            ),
        config.max_speed >= 255 && r.best is None ==> forall|it: int, ifc: int, ins: Seq<Input>|
            #![trigger traj(it, ifc, ins)]
            grid_tach(*config, it) && grid_fc(*config, ifc) && 1 <= ins.len() <= config.horizon
                ==> !wins(*config, traj(it, ifc, ins)),
{
    search_core(config, true)
}

/// The same search without the equivalence-dominance reduction: every
/// surviving successor is kept. The reduction is a pure optimization:
/// both searches carry the same contract, so each returned answer beats
/// the other's.
pub fn search_unreduced(config: &SearchConfig) -> (r: SearchOutcome)
    requires
        config.wf(),
    ensures
        outcome_ok(*config, r),
        config.max_speed >= 255 ==> forall|it: int, ifc: int, ins: Seq<Input>|
            #![trigger traj(it, ifc, ins)]
            grid_tach(*config, it) && grid_fc(*config, ifc) && 1 <= ins.len() <= config.horizon
                && wins(*config, traj(it, ifc, ins)) ==> best_beats(
                *config,
                r.best,
                traj(it, ifc, ins),
            ),
        config.max_speed >= 255 && r.best is None ==> forall|it: int, ifc: int, ins: Seq<Input>|
            #![trigger traj(it, ifc, ins)]
            grid_tach(*config, it) && grid_fc(*config, ifc) && 1 <= ins.len() <= config.horizon
                ==> !wins(*config, traj(it, ifc, ins)),
{
    search_core(config, false)
}

} // verus!
