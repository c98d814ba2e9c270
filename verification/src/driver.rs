//! The optimizer driver: the state machine that steers an iterative
//! trust-region solver to a terminal outcome. The solver itself performs one
//! step at a time outside the crate; the driver owns the loop policy — clamp
//! each iterate into the feasible box, count iterations, stop on a low
//! residual, the iteration cap or a solver failure — and always yields a
//! best-effort result, never a hard error.
//!
//! Objective values are carried in squared micro-units, the unit
//! `objective` produces, so the convergence tolerance of 1e-6 squared units
//! is the integer `CONVERGENCE_TOL`.

use vstd::prelude::*;

use crate::model::{in_box, ParameterVector, PARAM_BOUND_MICRO};

verus! {

/// The iteration cap: the driver stops after this many accepted steps.
pub const MAX_ITERATIONS: u32 = 100;

/// Convergence tolerance on the objective, in squared micro-units
/// (1e-6 squared units).
pub const CONVERGENCE_TOL: u128 = 1_000_000;

/// Outcome of the driver loop. Only `Running` is non-terminal.
#[derive(Clone, Copy, Debug, PartialEq, Eq, Structural)]
pub enum Status {
    Running,
    ConvergedLowResidual,
    IterationCapReached,
    SolverFailed,
}

/// What one solver step reported: a failure (a degenerate local model, a
/// step that cannot be computed), or a new iterate with its objective value.
#[derive(Clone, Copy, Debug, PartialEq, Eq, Structural)]
pub enum StepEvent {
    Failed,
    Stepped { params: ParameterVector, value: u128 },
}

/// The driver's state: current iterate, its objective value in squared
/// micro-units, the number of accepted steps, and the outcome so far.
#[derive(Clone, Copy, Debug, PartialEq, Eq, Structural)]
pub struct OptimizationState {
    pub params: ParameterVector,
    pub value: u128,
    pub iter: u32,
    pub status: Status,
}

/// A well-formed driver state: the iterate sits in the feasible box, the
/// step count never passes the cap, and a running state has steps left.
pub open spec fn state_wf(s: OptimizationState) -> bool {
    &&& in_box(s.params)
    &&& s.iter <= MAX_ITERATIONS
    &&& (s.status is Running ==> s.iter < MAX_ITERATIONS)
}

/// One component clamped into the feasible box.
pub open spec fn clamp_component(v: int) -> int {
    if v < -PARAM_BOUND_MICRO {
        -PARAM_BOUND_MICRO as int
    } else if v > PARAM_BOUND_MICRO {
        PARAM_BOUND_MICRO as int
    } else {
        v
    }
}

/// The parameter vector clamped component-wise into the feasible box.
pub open spec fn clamped(p: ParameterVector) -> ParameterVector {
    ParameterVector {
        x0: clamp_component(p.x0 as int) as i64,
        d: clamp_component(p.d as int) as i64,
        v0: clamp_component(p.v0 as int) as i64,
    }
}

/// How the driver reacts to one solver step: a failure freezes the last
/// accepted iterate and records `SolverFailed`; an accepted iterate is
/// clamped into the box, the step is counted, and the run stops on a low
/// residual or, failing that, on the iteration cap.
pub open spec fn spec_step(s: OptimizationState, ev: StepEvent) -> OptimizationState {
    match ev {
        StepEvent::Failed => OptimizationState { status: Status::SolverFailed, ..s },
        StepEvent::Stepped { params, value } => OptimizationState {
            params: clamped(params),
            value,
            iter: (s.iter + 1) as u32,
            status: if value < CONVERGENCE_TOL {
                Status::ConvergedLowResidual
            } else if s.iter + 1 >= MAX_ITERATIONS {
                Status::IterationCapReached
            } else {
                Status::Running
            },
        },
    }
}

fn clamp_i64(v: i64) -> (r: i64)
    ensures
        r as int == clamp_component(v as int),
{
    if v < -PARAM_BOUND_MICRO {
        -PARAM_BOUND_MICRO
    } else if v > PARAM_BOUND_MICRO {
        PARAM_BOUND_MICRO
    } else {
        v
    }
}

/// The parameter vector clamped component-wise into the feasible box.
pub fn clamp_params(p: &ParameterVector) -> (r: ParameterVector)
    ensures
        r == clamped(*p),
        in_box(r),
{
    ParameterVector { x0: clamp_i64(p.x0), d: clamp_i64(p.d), v0: clamp_i64(p.v0) }
}

/// The state the driver starts from: the initial guess (clamped into the
/// box), its objective value, no steps taken, the loop still running.
pub fn init_state(params: ParameterVector, value: u128) -> (s: OptimizationState)
    ensures
        s == (OptimizationState {
            params: clamped(params),
            value,
            iter: 0,
            status: Status::Running,
        }),
        state_wf(s),
        in_box(s.params),
{
    let p = clamp_params(&params);
    OptimizationState { params: p, value, iter: 0, status: Status::Running }
}

/// Feeds one solver step to the driver. The new state is exactly
/// `spec_step(old(state), ev)`; in particular the iterate never leaves the
/// feasible box, and the step count never passes the cap.
pub fn step(state: &mut OptimizationState, ev: StepEvent)
    requires
        state_wf(*old(state)),
        old(state).status is Running,
    ensures
        *final(state) == spec_step(*old(state), ev),
        state_wf(*final(state)),
        in_box(final(state).params),
{
    match ev {
        StepEvent::Failed => {
            state.status = Status::SolverFailed;
        },
        StepEvent::Stepped { params, value } => {
            state.params = clamp_params(&params);
            state.value = value;
            state.iter = state.iter + 1;
            state.status = if value < CONVERGENCE_TOL {
                Status::ConvergedLowResidual
            } else if state.iter >= MAX_ITERATIONS {
                Status::IterationCapReached
            } else {
                Status::Running
            };
        },
    }
}

/// The state after feeding a sequence of solver steps, stopping as soon as
/// the state turns terminal.
pub open spec fn run_events(s: OptimizationState, evs: Seq<StepEvent>) -> OptimizationState
    decreases evs.len(),
{
    if evs.len() == 0 || !(s.status is Running) {
        s
    } else {
        run_events(spec_step(s, evs[0]), evs.drop_first())
    }
}

/// A terminal state absorbs any further events.
pub proof fn lemma_run_events_terminal(s: OptimizationState, evs: Seq<StepEvent>)
    requires
        !(s.status is Running),
    ensures
        run_events(s, evs) == s,
{
}

/// The driver always terminates: whatever the solver reports, a run of at
/// least `MAX_ITERATIONS - iter` further steps ends in a terminal state —
/// converged, capped, or failed — and that state is still well-formed.
pub proof fn lemma_driver_terminates(s: OptimizationState, evs: Seq<StepEvent>)
    requires
        state_wf(s),
        evs.len() + s.iter >= MAX_ITERATIONS,
    ensures
        state_wf(run_events(s, evs)),
        !(run_events(s, evs).status is Running),
    decreases evs.len(),
{
    if evs.len() == 0 || !(s.status is Running) {
    } else {
        let s2 = spec_step(s, evs[0]);
        if s2.status is Running {
            lemma_driver_terminates(s2, evs.drop_first());
        } else {
            lemma_run_events_terminal(s2, evs.drop_first());
        }
    }
}

} // verus!
