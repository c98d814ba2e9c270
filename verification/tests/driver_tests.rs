use doppler_fit::driver::{
    clamp_params, init_state, step, Status, StepEvent, CONVERGENCE_TOL, MAX_ITERATIONS,
};
use doppler_fit::model::{ParameterVector, PARAM_BOUND_MICRO, SCALE};

fn in_box(p: &ParameterVector) -> bool {
    p.x0.abs() <= PARAM_BOUND_MICRO && p.d.abs() <= PARAM_BOUND_MICRO
        && p.v0.abs() <= PARAM_BOUND_MICRO
}

#[test]
fn init_state_starts_running_at_clamped_guess() {
    let guess = ParameterVector {
        x0: 200 * SCALE,
        d: 40 * SCALE,
        v0: 50 * SCALE,
    };
    let s = init_state(guess, u128::MAX);
    assert_eq!(s.params, guess);
    assert_eq!(s.iter, 0);
    assert_eq!(s.status, Status::Running);
}

#[test]
fn iterates_never_leave_the_box() {
    let wild = ParameterVector {
        x0: i64::MAX,
        d: i64::MIN,
        v0: 3 * PARAM_BOUND_MICRO,
    };
    let clamped = clamp_params(&wild);
    assert!(in_box(&clamped));
    assert_eq!(clamped.x0, PARAM_BOUND_MICRO);
    assert_eq!(clamped.d, -PARAM_BOUND_MICRO);
    assert_eq!(clamped.v0, PARAM_BOUND_MICRO);

    let mut s = init_state(wild, u128::MAX);
    assert!(in_box(&s.params));
    step(
        &mut s,
        StepEvent::Stepped {
            params: ParameterVector {
                x0: -5 * PARAM_BOUND_MICRO,
                d: 0,
                v0: 0,
            },
            value: CONVERGENCE_TOL,
        },
    );
    assert!(in_box(&s.params));
    assert_eq!(s.params.x0, -PARAM_BOUND_MICRO);
}

#[test]
fn solver_failure_keeps_last_accepted_iterate() {
    let guess = ParameterVector { x0: SCALE, d: SCALE, v0: 0 };
    let mut s = init_state(guess, 77);
    step(&mut s, StepEvent::Failed);
    assert_eq!(s.status, Status::SolverFailed);
    assert_eq!(s.params, guess);
    assert_eq!(s.value, 77);
    assert_eq!(s.iter, 0);
}

#[test]
fn low_residual_converges() {
    let guess = ParameterVector { x0: 0, d: 0, v0: 0 };
    let mut s = init_state(guess, u128::MAX);
    step(
        &mut s,
        StepEvent::Stepped {
            params: guess,
            value: CONVERGENCE_TOL - 1,
        },
    );
    assert_eq!(s.status, Status::ConvergedLowResidual);
    assert_eq!(s.iter, 1);
}

#[test]
fn iteration_cap_is_reached_after_max_steps() {
    let guess = ParameterVector { x0: 0, d: 0, v0: 0 };
    let mut s = init_state(guess, u128::MAX);
    let mut steps = 0u32;
    while s.status == Status::Running {
        step(
            &mut s,
            StepEvent::Stepped {
                params: guess,
                value: CONVERGENCE_TOL + 123,
            },
        );
        steps += 1;
        assert!(steps <= MAX_ITERATIONS);
    }
    assert_eq!(s.status, Status::IterationCapReached);
    assert_eq!(s.iter, MAX_ITERATIONS);
    assert_eq!(steps, MAX_ITERATIONS);
}
