//! A verified model of a fixed, deterministic per-frame drag-racing
//! simulation, together with an exhaustive, frame-layered search over all
//! two-bit input sequences for the earliest possible win.
//!
//! `sim` holds the simulation core: the state, the one-frame transition
//! function and its full functional specification. `laws` states and proves
//! the global properties of the dynamics: determinism, monotonic gear,
//! clamped tachometer with sticky engine failure, distance monotonicity,
//! and the per-frame bound on distance gain. `replay` re-runs a finished
//! state's recorded inputs from its seed and reports every frame. `search`
//! holds the breadth-first search engine with its equivalence-and-dominance
//! reduction and feasibility pruning, proved sound (a returned winner is a
//! genuine, replayable win), optimal (it beats every winning input sequence
//! within the horizon) and complete (an empty answer means no such sequence
//! wins).

pub mod laws;
pub mod replay;
pub mod search;
pub mod sim;
