//! The diagnostic replay: given a finished state, re-run its full recorded
//! input history from its initial seed and report, per frame, the inputs
//! applied alongside the resulting gear, speed, tachometer, hysteresis and
//! distance. The result is proved to be exactly the per-prefix states of
//! the recorded run.

use vstd::prelude::*;

verus! {

use crate::sim::{
    GameState,
    Input,
    Model,
    step_model,
    run_model,
    seed_of,
    reachable,
    wf_model,
    step_fits,
    MAX_TACHOMETER,
};
use crate::laws::{
    lemma_run_wf,
    lemma_run_split,
    lemma_distance_monotonic,
    lemma_tachometer_growth,
};

/// One frame of a replayed run: the inputs applied that frame and the
/// state fields they produced.
#[derive(PartialEq, Eq, Structural, Clone, Copy, Debug)]
pub struct TraceRow {
    pub clutch: bool,
    pub shift: bool,
    pub gear: i128,
    pub speed: i128,
    pub tachometer: i128,
    pub tachometer_diff: i128,
    pub distance: i128,
}

/// A trace row reports exactly the given input bits and the given state.
pub open spec fn row_matches(r: TraceRow, m: Model, i: Input) -> bool {
    &&& r.clutch == i.clutch
    &&& r.shift == i.shift
    &&& r.gear == m.gear
    &&& r.speed == m.speed
    &&& r.tachometer == m.tachometer
    &&& r.tachometer_diff == m.tachometer_diff
    &&& r.distance == m.distance
}

/// A state whose history can be replayed: well-formed, seeded inside the
/// tachometer range, and exactly the run of its own recorded inputs.
pub open spec fn replayable(m: Model) -> bool {
    &&& wf_model(m)
    &&& 0 <= m.initial_tachometer < MAX_TACHOMETER
    &&& reachable(m)
}

fn make_row(st: &GameState, inp: Input) -> (r: TraceRow)
    ensures
        row_matches(r, st@, inp),
{
    TraceRow {
        clutch: inp.clutch,
        shift: inp.shift,
        gear: st.gear,
        speed: st.speed,
        tachometer: st.tachometer,
        tachometer_diff: st.tachometer_diff,
        distance: st.distance,
    }
}

impl GameState {
    /// Replay this state's recorded input history from its initial seed.
    /// Row `k` holds the inputs of frame `k` and the state they produced:
    /// the run of the first `k + 1` recorded inputs from the seed.
    pub fn replay_trace(&self) -> (rows: Vec<TraceRow>)
        requires
            replayable(self@),
        ensures
            rows@.len() == self@.inputs.len(),
            forall|k: int|
                0 <= k < rows@.len() ==> row_matches(
                    #[trigger] rows@[k],
                    run_model(seed_of(self@), self@.inputs.take(k + 1)),
                    self@.inputs[k],
                ),
    {
        let ghost sd = seed_of(self@);
        let n = self.inputs.len();
        let mut rows: Vec<TraceRow> = Vec::new();
        if n == 0 {
            return rows;
        }
        let first = self.inputs[0];
        let mut st = GameState::with_seed(
            self.initial_tachometer,
            self.initial_frame_counter,
            first.clutch,
            first.shift,
        );
        proof {
            assert(run_model(sd, Seq::<Input>::empty()) == sd);
            assert(self@.inputs.take(1).len() == 1);
            assert(self@.inputs.take(1).drop_last() =~= Seq::<Input>::empty());
            assert(self@.inputs.take(1).last() == self@.inputs[0]);
            assert(run_model(sd, self@.inputs.take(1)) == step_model(sd, first.clutch, first.shift));
            assert(st@ == run_model(sd, self@.inputs.take(1)));
        }
        let row = make_row(&st, first);
        rows.push(row);
        let mut k: usize = 1;
        while k < n
            invariant
                1 <= k <= n,
                n == self@.inputs.len(),
                replayable(self@),
                sd == seed_of(self@),
                st.wf(),
                st@ == run_model(sd, self@.inputs.take(k as int)),
                rows@.len() == k,
                forall|j: int|
                    0 <= j < k ==> row_matches(
                        #[trigger] rows@[j],
                        run_model(sd, self@.inputs.take(j + 1)),
                        self@.inputs[j],
                    ),
            decreases n - k,
        {
            let inp = self.inputs[k];
            proof {
                let ins = self@.inputs;
                assert(ins.take(k + 1).drop_last() =~= ins.take(k as int));
                assert(ins.take(k + 1).last() == ins[k as int]);
                let next = run_model(sd, ins.take(k + 1));
                assert(next == step_model(st@, inp.clutch, inp.shift));
                assert(wf_model(sd));
                lemma_tachometer_growth(sd, ins.take(k as int));
                lemma_run_wf(sd, ins.take(k + 1));
                lemma_run_split(sd, ins, k + 1);
                lemma_distance_monotonic(next, ins.skip(k + 1));
                assert(ins.take(ins.len() as int) =~= ins);
                assert(next.distance <= self@.distance);
                assert(step_fits(st@, inp.clutch, inp.shift));
            }
            st.game_step(inp.clutch, inp.shift);
            let row = make_row(&st, inp);
            rows.push(row);
            k = k + 1;
        }
        rows
    }
}

} // verus!
