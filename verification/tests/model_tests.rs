use doppler_fit::model::{
    isqrt, objective, predict, predict_trace, trace_to_micro, ParameterVector, SourceModel, SCALE,
};

#[test]
fn isqrt_exact_values() {
    assert_eq!(isqrt(0), 0);
    assert_eq!(isqrt(1), 1);
    assert_eq!(isqrt(15), 3);
    assert_eq!(isqrt(16), 4);
    assert_eq!(isqrt(1_000_000_000_000_000_000_000_000u128), 1_000_000_000_000);
    assert_eq!(isqrt(u128::MAX), u64::MAX);
}

#[test]
fn predict_at_rest_is_inverse_time_step() {
    // a motionless source at the observer: nu = C / (tau0 * C) = 1 / tau0
    let p = ParameterVector { x0: 0, d: 0, v0: 0 };
    for t in 0..5 {
        assert_eq!(predict(&p, t, SCALE), Some(SCALE));
    }
}

#[test]
fn predict_trace_matches_predict() {
    let p = ParameterVector {
        x0: 200 * SCALE,
        d: 40 * SCALE,
        v0: 50 * SCALE,
    };
    let trace = predict_trace(&p, SCALE, 50).expect("model defined at true parameters");
    assert_eq!(trace.len(), 50);
    for t in 0..50 {
        assert_eq!(Some(trace[t]), predict(&p, t, SCALE));
    }
}

#[test]
fn objective_is_zero_on_exact_trace() {
    let p = ParameterVector {
        x0: 200 * SCALE,
        d: 40 * SCALE,
        v0: 50 * SCALE,
    };
    let trace = predict_trace(&p, SCALE, 50).expect("model defined at true parameters");
    assert_eq!(objective(&p, &trace, SCALE), Some(0));
}

#[test]
fn objective_counts_squared_residuals() {
    let p = ParameterVector { x0: 0, d: 0, v0: 0 };
    // the model predicts SCALE (1.0) everywhere; observe 1.0, 1.0 + 2e-6, 1.0 - 3e-6
    let trace = vec![SCALE, SCALE + 2, SCALE - 3];
    assert_eq!(objective(&p, &trace, SCALE), Some(4 + 9));
}

#[test]
fn objective_differs_from_zero_away_from_truth() {
    let truth = ParameterVector {
        x0: 200 * SCALE,
        d: 40 * SCALE,
        v0: 50 * SCALE,
    };
    let off = ParameterVector {
        x0: 210 * SCALE,
        d: 40 * SCALE,
        v0: 50 * SCALE,
    };
    let trace = predict_trace(&truth, SCALE, 50).expect("model defined at true parameters");
    let fx = objective(&off, &trace, SCALE).expect("model defined near truth");
    assert!(fx > 0);
}

#[test]
fn trace_to_micro_rescales_bin_indices() {
    let trace = vec![0usize, 7, 123];
    let micro = trace_to_micro(&trace);
    assert_eq!(micro, vec![0i64, 7 * SCALE, 123 * SCALE]);
}

#[test]
fn source_model_accepts_box_and_rejects_outside() {
    let p = ParameterVector {
        x0: 200 * SCALE,
        d: 40 * SCALE,
        v0: 50 * SCALE,
    };
    let m = SourceModel::new(p, SCALE).expect("well-formed model");
    assert_eq!(m.params, p);
    assert_eq!(m.tau0, SCALE);
    assert_eq!(m.predict_at(0), predict(&p, 0, SCALE));

    let far = ParameterVector {
        x0: 200_000 * SCALE,
        d: 0,
        v0: 0,
    };
    assert!(SourceModel::new(far, SCALE).is_none());
    assert!(SourceModel::new(p, 0).is_none());
}
