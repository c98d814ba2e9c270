use doppler_fit::driver::{init_state, step, Status, StepEvent};
use doppler_fit::model::ParameterVector;

use gomez::nalgebra as na;
use gomez::{Domain, Function, OptimizerDriver, Problem};
use na::{Dyn, IsContiguous};

const C: f64 = 343.0;

fn predict_f64(x0: f64, d: f64, v0: f64, tau0: f64, t: f64) -> f64 {
    let alpha = x0 + v0 * t + v0 * tau0;
    let beta = x0 + v0 * t;
    let a = (d * d + alpha * alpha).sqrt();
    let b = (d * d + beta * beta).sqrt();
    C / (tau0 * C + a - b)
}

struct TraceProblem {
    data: Vec<f64>,
    tau0: f64,
}

impl Problem for TraceProblem {
    type Field = f64;

    fn domain(&self) -> Domain<f64> {
        Domain::rect(
            vec![-100000.0, -100000.0, -100000.0],
            vec![100000.0, 100000.0, 100000.0],
        )
    }
}

impl Function for TraceProblem {
    fn apply<Sx>(&self, x: &na::Vector<f64, Dyn, Sx>) -> f64
    where
        Sx: na::Storage<f64, Dyn> + IsContiguous,
    {
        let (x0, d, v0) = (x[0], x[1], x[2]);
        let mut result = 0.0;
        for (t, y) in self.data.iter().enumerate() {
            let r = predict_f64(x0, d, v0, self.tau0, t as f64) - y;
            result += r * r;
        }
        result
    }
}

fn params_to_micro(x: &[f64]) -> ParameterVector {
    ParameterVector {
        x0: (x[0] * 1e6) as i64,
        d: (x[1] * 1e6) as i64,
        v0: (x[2] * 1e6) as i64,
    }
}

fn value_to_micro2(fx: f64) -> u128 {
    if !fx.is_finite() || fx < 0.0 {
        u128::MAX
    } else {
        let scaled = fx * 1e12;
        if scaled >= 3.0e38 {
            u128::MAX
        } else {
            scaled as u128
        }
    }
}

fn fit(data: Vec<f64>, tau0: f64, initial: Vec<f64>) -> doppler_fit::driver::OptimizationState {
    let problem = TraceProblem { data, tau0 };
    let mut optimizer = OptimizerDriver::builder(&problem)
        .with_initial(initial.clone())
        .build();
    let mut state = init_state(params_to_micro(&initial), u128::MAX);
    while state.status == Status::Running {
        let ev = match optimizer.next() {
            Err(_) => StepEvent::Failed,
            Ok((x, fx)) => StepEvent::Stepped {
                params: params_to_micro(x),
                value: value_to_micro2(fx),
            },
        };
        step(&mut state, ev);
    }
    state
}

#[test]
fn fit_recovers_known_parameters() {
    let (x0, d, v0, tau0) = (200.0, 40.0, 50.0, 1.0);
    let data: Vec<f64> = (0..50)
        .map(|t| predict_f64(x0, d, v0, tau0, t as f64))
        .collect();
    let state = fit(data, tau0, vec![200.001, 40.001, 50.001]);
    assert_eq!(state.status, Status::ConvergedLowResidual);
    assert!(state.iter <= 100);
    let fitted_x0 = state.params.x0 as f64 * 1e-6;
    let fitted_d = state.params.d as f64 * 1e-6;
    let fitted_v0 = state.params.v0 as f64 * 1e-6;
    assert!((fitted_x0 - x0).abs() / x0 < 1e-3, "x0 = {fitted_x0}");
    assert!((fitted_d - d).abs() / d < 1e-3, "d = {fitted_d}");
    assert!((fitted_v0 - v0).abs() / v0 < 1e-3, "v0 = {fitted_v0}");
}

#[test]
fn degenerate_trace_still_reaches_a_terminal_state() {
    // a constant trace the model cannot reproduce: the solver either stalls
    // (a failed step) or runs into the iteration cap, but the driver always
    // hands back a terminal best-effort state
    let data = vec![5.0; 30];
    let state = fit(data, 1.0, vec![0.0, 0.0, 0.0]);
    assert!(
        state.status == Status::SolverFailed || state.status == Status::IterationCapReached,
        "status = {:?}",
        state.status
    );
    let p = state.params;
    assert!(p.x0.abs() <= 100_000_000_000);
    assert!(p.d.abs() <= 100_000_000_000);
    assert!(p.v0.abs() <= 100_000_000_000);
}
