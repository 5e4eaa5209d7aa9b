//! The simulation core: a pure, deterministic state-transition function
//! advancing one discrete game frame given two boolean inputs (clutch and
//! shift), plus the mathematical model it is verified against.

use vstd::prelude::*;

verus! {

/// Distance at which the race is won.
pub const MIN_WINNING_DISTANCE: i128 = 97 * 256;

/// Tachometer ceiling; reaching it blows the engine (terminal failure).
pub const MAX_TACHOMETER: i128 = 32;

/// The frame counter cycles in `[0, MAX_FRAME_COUNTER)`, advancing by 2.
pub const MAX_FRAME_COUNTER: i128 = 16;

/// Highest gear; shifting past it leaves the gear unchanged.
pub const MAX_GEAR: i128 = 4;

/// Gear at the start of a run.
pub const INITIAL_GEAR: i128 = 0;

/// Speed at the start of a run.
pub const INITIAL_SPEED: i128 = 0;

/// One frame's player input: two independent boolean flags.
#[derive(PartialEq, Eq, Structural, Clone, Copy, Debug)]
pub struct Input {
    pub clutch: bool,
    pub shift: bool,
}

impl Input {
    pub fn new(clutch: bool, shift: bool) -> (i: Self)
        ensures
            i.clutch == clutch,
            i.shift == shift,
    {
        Input { clutch, shift }
    }
}

/// The mathematical model of a simulation state: the same fields as
/// `GameState`, over unbounded integers and a sequence of inputs.
pub ghost struct Model {
    pub timer: int,
    pub frame_counter: int,
    pub tachometer: int,
    pub tachometer_diff: int,
    pub distance: int,
    pub speed: int,
    pub gear: int,
    pub blown: bool,
    pub initial_tachometer: int,
    pub initial_frame_counter: int,
    pub inputs: Seq<Input>,
}

/// The periodic divisor controlling how often tachometer decay applies:
/// `2^(gear - 1)` above gear 2, else 1 (decay every frame).
pub open spec fn gear_ratio(gear: int) -> int {
    if gear > 2 {
        if gear == 3 {
            4
        } else {
            8
        }
    } else {
        1
    }
}

/// The speed-limit bonus granted in high gears at high revs: `2^(gear - 2)`.
pub open spec fn gear_bonus(gear: int) -> int {
    if gear == 3 {
        2
    } else {
        4
    }
}

/// The shift bit of the most recently applied input, or false at the very
/// start of a run. The engine reacts to a shift one frame after it is
/// issued: the transition branches on this bit, not on the current input.
pub open spec fn last_shift(m: Model) -> bool {
    m.inputs.len() > 0 && m.inputs[m.inputs.len() - 1].shift
}

/// The one-frame transition: the full functional specification of
/// `GameState::game_step`.
///
/// - The input history grows by `(clutch, shift)`; the timer advances by 1;
///   the frame counter advances by 2, wrapping at 16.
/// - If the previous frame's input had `shift` set, the gear rises (capped
///   at 4) and the tachometer drops by `tachometer_diff + (clutch ? 3 : -3)`.
/// - Otherwise the tachometer decays by `tachometer_diff + (clutch ? -1 : 1)`
///   on frames where the frame counter is divisible by the gear ratio, and
///   by `tachometer_diff` alone on the others.
/// - The tachometer is clamped to a minimum of 0; at or above 32 the engine
///   is blown, stickily.
/// - The speed converges toward the speed limit derived from the clamped
///   tachometer and the gear, but only on frames whose current input has
///   `shift` set while in gear; the distance grows by the resulting speed.
pub open spec fn step_model(m: Model, clutch: bool, shift: bool) -> Model {
    let prev_shift = last_shift(m);
    let frame_counter = (m.frame_counter + 2) % (MAX_FRAME_COUNTER as int);
    let ratio = gear_ratio(m.gear);
    let gear = if prev_shift {
        if m.gear >= MAX_GEAR {
            MAX_GEAR as int
        } else {
            m.gear + 1
        }
    } else {
        m.gear
    };
    let raw_tachometer = if prev_shift {
        m.tachometer - m.tachometer_diff - (if clutch {
            3
        } else {
            -3
        })
    } else if frame_counter % ratio == 0 {
        m.tachometer - m.tachometer_diff - (if clutch {
            -1
        } else {
            1
        })
    } else {
        m.tachometer - m.tachometer_diff
    };
    let tachometer = if raw_tachometer < 0 {
        0
    } else {
        raw_tachometer
    };
    let blown = m.blown || tachometer >= MAX_TACHOMETER;
    let speed_limit = tachometer * ratio + (if tachometer >= 20 && gear > 2 {
        gear_bonus(gear)
    } else {
        0
    });
    let tachometer_diff = if prev_shift {
        0
    } else if speed_limit - m.speed >= 16 {
        1
    } else {
        0
    };
    let speed = if gear > 0 && shift {
        if m.speed > speed_limit {
            m.speed - 1
        } else if m.speed < speed_limit {
            m.speed + 2
        } else {
            m.speed
        }
    } else {
        m.speed
    };
    Model {
        timer: m.timer + 1,
        frame_counter,
        tachometer,
        tachometer_diff,
        distance: m.distance + speed,
        speed,
        gear,
        blown,
        initial_tachometer: m.initial_tachometer,
        initial_frame_counter: m.initial_frame_counter,
        inputs: m.inputs.push(Input { clutch, shift }),
    }
}

/// The state a run starts from, before any input has been applied: the two
/// seed degrees of freedom, everything else at its initial value.
pub open spec fn init_model(initial_tachometer: int, initial_frame_counter: int) -> Model {
    Model {
        timer: 0,
        frame_counter: initial_frame_counter,
        tachometer: initial_tachometer,
        tachometer_diff: 0,
        distance: 0,
        speed: INITIAL_SPEED as int,
        gear: INITIAL_GEAR as int,
        blown: false,
        initial_tachometer,
        initial_frame_counter,
        inputs: Seq::empty(),
    }
}

/// The state reached by applying a whole input sequence, one frame each.
pub open spec fn run_model(m: Model, ins: Seq<Input>) -> Model
    decreases ins.len(),
{
    if ins.len() == 0 {
        m
    } else {
        step_model(run_model(m, ins.drop_last()), ins.last().clutch, ins.last().shift)
    }
}

/// The seed state this state's run began from.
pub open spec fn seed_of(m: Model) -> Model {
    init_model(m.initial_tachometer, m.initial_frame_counter)
}

/// Whether a state is exactly the result of replaying its own recorded
/// input history from its seed. Every state the library produces is.
pub open spec fn reachable(m: Model) -> bool {
    m == run_model(seed_of(m), m.inputs)
}

/// Well-formedness of a model: the invariants every state of the simulation
/// satisfies. The timer counts the inputs applied so far; the frame counter
/// is the seed value advanced by 2 per frame, wrapping at 16; the
/// tachometer is clamped non-negative; the hysteresis bit is 0 or 1; the
/// gear lies in `[0, 4]`; speed and distance are non-negative.
pub open spec fn wf_model(m: Model) -> bool {
    &&& m.timer == m.inputs.len()
    &&& 0 <= m.initial_frame_counter < MAX_FRAME_COUNTER
    &&& 0 <= m.frame_counter < MAX_FRAME_COUNTER
    &&& m.frame_counter == (m.initial_frame_counter + 2 * m.timer) % (MAX_FRAME_COUNTER as int)
    &&& 0 <= m.tachometer
    &&& 0 <= m.tachometer_diff <= 1
    &&& 0 <= m.gear <= MAX_GEAR
    &&& 0 <= m.speed
    &&& 0 <= m.distance
    &&& 0 <= m.initial_tachometer
}

/// The machine limits under which one exec step of the simulation cannot
/// overflow `i128`: generous bounds far beyond anything the game dynamics
/// reach.
pub open spec fn step_fits(m: Model, clutch: bool, shift: bool) -> bool {
    &&& m.tachometer <= (i128::MAX - 6) / 8 - 3
    &&& m.distance + step_model(m, clutch, shift).speed <= i128::MAX
}

/// The full simulated game state at a point in time.
#[derive(PartialEq, Eq, Clone, Debug)]
pub struct GameState {
    pub timer: i128,
    pub frame_counter: i128,
    pub tachometer: i128,
    pub tachometer_diff: i128,
    pub distance: i128,
    pub speed: i128,
    pub gear: i128,
    pub blown: bool,
    pub initial_tachometer: i128,
    pub initial_frame_counter: i128,
    pub inputs: Vec<Input>,
}

impl View for GameState {
    type V = Model;

    open spec fn view(&self) -> Model {
        Model {
            timer: self.timer as int,
            frame_counter: self.frame_counter as int,
            tachometer: self.tachometer as int,
            tachometer_diff: self.tachometer_diff as int,
            distance: self.distance as int,
            speed: self.speed as int,
            gear: self.gear as int,
            blown: self.blown,
            initial_tachometer: self.initial_tachometer as int,
            initial_frame_counter: self.initial_frame_counter as int,
            inputs: self.inputs@,
        }
    }
}

fn clone_inputs(v: &Vec<Input>) -> (r: Vec<Input>)
    ensures
        r@ == v@,
{
    let mut r: Vec<Input> = Vec::new();
    let mut i: usize = 0;
    while i < v.len()
        invariant
            0 <= i <= v.len(),
            r@ == v@.take(i as int),
        decreases v.len() - i,
    {
        r.push(v[i]);
        proof {
            assert(v@.take(i as int).push(v@[i as int]) =~= v@.take(i as int + 1));
        }
        i = i + 1;
    }
    proof {
        assert(v@.take(v@.len() as int) =~= v@);
    }
    r
}

impl GameState {
    pub open spec fn wf(&self) -> bool {
        wf_model(self@)
    }

    /// An exact copy, with an exact contract (the derived `Clone` carries
    /// no specification).
    pub fn snapshot(&self) -> (s: Self)
        ensures
            s@ == self@,
    {
        GameState {
            timer: self.timer,
            frame_counter: self.frame_counter,
            tachometer: self.tachometer,
            tachometer_diff: self.tachometer_diff,
            distance: self.distance,
            speed: self.speed,
            gear: self.gear,
            blown: self.blown,
            initial_tachometer: self.initial_tachometer,
            initial_frame_counter: self.initial_frame_counter,
            inputs: clone_inputs(&self.inputs),
        }
    }

    /// A fresh state with every field at its initial value.
    pub fn new() -> (s: Self)
        ensures
            s@ == init_model(0, 0),
            s.wf(),
    {
        let s = Self {
            timer: 0,
            frame_counter: 0,
            tachometer: 0,
            tachometer_diff: 0,
            distance: 0,
            speed: INITIAL_SPEED,
            gear: INITIAL_GEAR,
            blown: false,
            initial_tachometer: 0,
            initial_frame_counter: 0,
            inputs: Vec::new(),
        };
        proof {
            assert(s@.inputs =~= init_model(0, 0).inputs);
        }
        s
    }

    pub fn default() -> (s: Self)
        ensures
            s@ == init_model(0, 0),
            s.wf(),
    {
        Self::new()
    }

    /// Advance the state by exactly one frame given the two input bits,
    /// as `step_model` specifies.
    #[verifier::rlimit(60)]
    pub fn game_step(&mut self, clutch: bool, shift: bool)
        requires
            old(self).wf(),
            step_fits(old(self)@, clutch, shift),
        ensures
            final(self)@ == step_model(old(self)@, clutch, shift),
            final(self).wf(),
    {
        let ghost m = self@;
        let n = self.inputs.len();
        let prev_shift = n > 0 && self.inputs[n - 1].shift;
        assert(prev_shift == last_shift(m));
        self.inputs.push(Input::new(clutch, shift));
        self.timer = self.timer + 1;
        self.frame_counter = (self.frame_counter + 2) % MAX_FRAME_COUNTER;

        let gear_value: i128 = if self.gear > 2 {
            if self.gear == 3 {
                4
            } else {
                8
            }
        } else {
            1
        };

        if prev_shift {
            self.gear = if self.gear >= MAX_GEAR {
                MAX_GEAR
            } else {
                self.gear + 1
            };
            self.tachometer = self.tachometer - (self.tachometer_diff + if !clutch {
                -3
            } else {
                3
            });
        } else {
            if self.frame_counter % gear_value == 0 {
                self.tachometer = self.tachometer - (self.tachometer_diff + if clutch {
                    -1
                } else {
                    1
                });
            } else {
                self.tachometer = self.tachometer - self.tachometer_diff;
            }
        }

        if self.tachometer < 0 {
            self.tachometer = 0;
        }

        if self.tachometer >= MAX_TACHOMETER {
            self.blown = true;
        }

        let speed_limit: i128 = self.tachometer * gear_value + if self.tachometer >= 20
            && self.gear > 2 {
            if self.gear == 3 {
                2
            } else {
                4
            }
        } else {
            0
        };

        if prev_shift {
            self.tachometer_diff = 0;
        } else {
            self.tachometer_diff = if speed_limit - self.speed >= 16 {
                1
            } else {
                0
            };
        }

        if self.gear > 0 && shift {
            if self.speed > speed_limit {
                self.speed = self.speed - 1;
            } else if self.speed < speed_limit {
                self.speed = self.speed + 2;
            }
        }

        proof {
            assert(self.speed as int == step_model(m, clutch, shift).speed);
        }
        self.distance = self.distance + self.speed;

        proof {
            vstd::arithmetic::div_mod::lemma_mod_adds(
                m.initial_frame_counter + 2 * m.timer,
                2,
                MAX_FRAME_COUNTER as int,
            );
            assert(self@.inputs =~= step_model(m, clutch, shift).inputs);
            assert(self@ == step_model(m, clutch, shift));
        }
    }

    /// The depth-one state of a run seeded at the chosen tachometer and
    /// frame-counter values: the seed state with the first input applied.
    pub fn with_seed(
        initial_tachometer: i128,
        initial_frame_counter: i128,
        clutch: bool,
        shift: bool,
    ) -> (s: Self)
        requires
            0 <= initial_tachometer < MAX_TACHOMETER,
            0 <= initial_frame_counter < MAX_FRAME_COUNTER,
        ensures
            s@ == step_model(
                init_model(initial_tachometer as int, initial_frame_counter as int),
                clutch,
                shift,
            ),
            s.wf(),
    {
        let mut s = Self {
            timer: 0,
            frame_counter: initial_frame_counter,
            tachometer: initial_tachometer,
            tachometer_diff: 0,
            distance: 0,
            speed: INITIAL_SPEED,
            gear: INITIAL_GEAR,
            blown: false,
            initial_tachometer,
            initial_frame_counter,
            inputs: Vec::new(),
        };
        proof {
            assert(s@.inputs =~= init_model(
                initial_tachometer as int,
                initial_frame_counter as int,
            ).inputs);
        }
        s.game_step(clutch, shift);
        s
    }

    /// `with_seed`, with the seed ranges checked at the boundary: `None`
    /// exactly when the tachometer seed lies outside `[0, 32)` or the
    /// frame-counter seed lies outside `[0, 16)`.
    pub fn try_with_seed(
        initial_tachometer: i128,
        initial_frame_counter: i128,
        clutch: bool,
        shift: bool,
    ) -> (r: Option<Self>)
        ensures
            r is Some <==> (0 <= initial_tachometer < MAX_TACHOMETER && 0 <= initial_frame_counter
                < MAX_FRAME_COUNTER),
            r matches Some(s) ==> s@ == step_model(
                init_model(initial_tachometer as int, initial_frame_counter as int),
                clutch,
                shift,
            ) && s.wf(),
    {
        if 0 <= initial_tachometer && initial_tachometer < MAX_TACHOMETER && 0
            <= initial_frame_counter && initial_frame_counter < MAX_FRAME_COUNTER {
            Some(Self::with_seed(initial_tachometer, initial_frame_counter, clutch, shift))
        } else {
            None
        }
    }

    /// The elapsed real time in hundredths of a second: the timer scaled by
    /// the per-frame duration of 3.34 hundredths, truncated.
    pub fn elapsed_hundredths(&self) -> (r: i128)
        requires
            self.wf(),
        ensures
            r == (self@.timer * 334) / 100,
    {
        // The timer equals the number of recorded inputs, so it fits in a
        // machine word and the scaling cannot overflow.
        let _frames = self.inputs.len();
        proof {
            assert(self.timer <= usize::MAX);
        }
        (self.timer * 334) / 100
    }

    /// Whether the race is won: the accumulated distance has reached the
    /// winning threshold.
    pub fn is_arrived(&self) -> (r: bool)
        ensures
            r == (self@.distance >= MIN_WINNING_DISTANCE),
    {
        self.distance >= MIN_WINNING_DISTANCE
    }
}

} // verus!
