//! The acoustic travel-time model: a point source moving in a straight line
//! at constant velocity past an observer offset by a perpendicular distance.
//! `predict` maps a parameter vector and a discrete time index to the
//! apparent frequency observable; `objective` aggregates squared residuals
//! against an observed frequency trace.
//!
//! All quantities are fixed-point integers in micro-units (one unit is
//! `SCALE` micro-units), so every value the model computes is exact and the
//! contracts pin it down completely.

use vstd::prelude::*;

verus! {

/// Micro-units per unit: the fixed-point scale of the model.
pub const SCALE: i64 = 1_000_000;

/// Speed of sound at 20 degrees Celsius, in micro-units (343.0 units).
pub const C_MICRO: i64 = 343_000_000;

/// Box bound for each parameter component, in micro-units (100000 units).
pub const PARAM_BOUND_MICRO: i64 = 100_000_000_000;

/// Largest admitted time step, in micro-units.
pub const TAU0_MAX_MICRO: i64 = 1_000_000_000_000;

/// Largest admitted time index (number of trace entries).
pub const MAX_TIME_INDEX: usize = 1_000_000;

/// Largest admitted magnitude of an observed trace value, in micro-units.
/// Every value `predict` can produce fits (the model never exceeds
/// `C_MICRO * SCALE`), so predicted traces can be fed back as observations.
pub const TRACE_BOUND_MICRO: i64 = 400_000_000_000_000;

/// The fitted triple: initial offset along the line of travel, perpendicular
/// distance to the observer, and constant velocity, all in micro-units.
#[derive(Clone, Copy, Debug, PartialEq, Eq, Structural)]
pub struct ParameterVector {
    pub x0: i64,
    pub d: i64,
    pub v0: i64,
}

/// Every component lies within the feasible box.
pub open spec fn in_box(p: ParameterVector) -> bool {
    &&& -PARAM_BOUND_MICRO <= p.x0 <= PARAM_BOUND_MICRO
    &&& -PARAM_BOUND_MICRO <= p.d <= PARAM_BOUND_MICRO
    &&& -PARAM_BOUND_MICRO <= p.v0 <= PARAM_BOUND_MICRO
}

/// Truncating division (round toward zero), for a positive divisor; this is
/// what machine signed division computes.
pub open spec fn tdiv(a: int, b: int) -> int {
    if a >= 0 {
        a / b
    } else {
        -((-a) / b)
    }
}

/// The floor of the square root of a non-negative integer.
pub open spec fn sqrt_floor(x: int) -> int {
    choose|r: int| 0 <= r && (#[trigger] (r * r)) <= x < (r + 1) * (r + 1)
}

proof fn lemma_sqrt_exists(x: int) -> (r: int)
    requires
        0 <= x,
    ensures
        0 <= r,
        r * r <= x < (r + 1) * (r + 1),
    decreases x,
{
    if x == 0 {
        0
    } else {
        let r0 = lemma_sqrt_exists(x - 1);
        if (r0 + 1) * (r0 + 1) <= x {
            assert(x < (r0 + 2) * (r0 + 2)) by (nonlinear_arith)
                requires
                    0 <= r0,
                    x - 1 < (r0 + 1) * (r0 + 1),
            ;
            r0 + 1
        } else {
            r0
        }
    }
}

/// `sqrt_floor` is the floor of the square root.
pub proof fn lemma_sqrt_floor_props(x: int)
    requires
        0 <= x,
    ensures
        0 <= sqrt_floor(x),
        sqrt_floor(x) * sqrt_floor(x) <= x,
        x < (sqrt_floor(x) + 1) * (sqrt_floor(x) + 1),
{
    let r = lemma_sqrt_exists(x);
    assert(0 <= r && r * r <= x < (r + 1) * (r + 1));
}

/// There is only one integer whose square brackets `x`.
pub proof fn lemma_sqrt_floor_unique(x: int, r: int)
    requires
        0 <= r,
        r * r <= x < (r + 1) * (r + 1),
    ensures
        r == sqrt_floor(x),
{
    lemma_sqrt_floor_props(x);
    let q = sqrt_floor(x);
    if r < q {
        assert((r + 1) * (r + 1) <= q * q) by (nonlinear_arith)
            requires
                0 <= r,
                r + 1 <= q,
        ;
    } else if q < r {
        assert((q + 1) * (q + 1) <= r * r) by (nonlinear_arith)
            requires
                0 <= q,
                q + 1 <= r,
        ;
    }
}

/// The floor of the square root of `x`, by bisection.
pub fn isqrt(x: u128) -> (r: u64)
    ensures
        r as int == sqrt_floor(x as int),
        (r as int) * (r as int) <= x as int,
        (x as int) < ((r as int) + 1) * ((r as int) + 1),
{
    let mut lo: u128 = 0;
    let mut hi: u128 = 0x1_0000_0000_0000_0000;
    proof {
        assert((0x1_0000_0000_0000_0000 as int) * (0x1_0000_0000_0000_0000 as int)
            == 0x1_0000_0000_0000_0000_0000_0000_0000_0000 as int) by (nonlinear_arith);
    }
    while lo + 1 < hi
        invariant
            lo < hi <= 0x1_0000_0000_0000_0000,
            (lo as int) * (lo as int) <= x as int,
            (x as int) < (hi as int) * (hi as int),
        decreases hi - lo,
    {
        let mid = lo + (hi - lo) / 2;
        proof {
            assert((mid as int) * (mid as int) <= (0xffff_ffff_ffff_ffff as int)
                * (0xffff_ffff_ffff_ffff as int)) by (nonlinear_arith)
                requires
                    0 <= mid as int <= 0xffff_ffff_ffff_ffff as int,
            ;
        }
        let sq = mid * mid;
        if sq <= x {
            lo = mid;
        } else {
            hi = mid;
        }
    }
    proof {
        lemma_sqrt_floor_unique(x as int, lo as int);
    }
    lo as u64
}

/// Truncating signed division by a positive divisor.
fn tdiv_exec(a: i128, b: i128) -> (r: i128)
    requires
        0 < b,
        i128::MIN < a,
    ensures
        r as int == tdiv(a as int, b as int),
        0 <= a ==> 0 <= r <= a,
        a < 0 ==> a <= r <= 0,
{
    if a >= 0 {
        let q = (a as u128) / (b as u128);
        proof {
            vstd::arithmetic::div_mod::lemma_div_nonincreasing(a as int, b as int);
            vstd::arithmetic::div_mod::lemma_div_pos_is_pos(a as int, b as int);
        }
        q as i128
    } else {
        let m = -a;
        let q = (m as u128) / (b as u128);
        proof {
            vstd::arithmetic::div_mod::lemma_div_nonincreasing(m as int, b as int);
            vstd::arithmetic::div_mod::lemma_div_pos_is_pos(m as int, b as int);
        }
        -(q as i128)
    }
}

/// A quotient is bounded by any bound on the dividend, divided out.
proof fn lemma_tdiv_bound(a: int, b: int, q: int)
    requires
        0 < b,
        0 <= q,
        -(q * b) <= a <= q * b,
    ensures
        -q <= tdiv(a, b) <= q,
{
    vstd::arithmetic::div_mod::lemma_div_by_multiple(q, b);
    if a >= 0 {
        vstd::arithmetic::div_mod::lemma_div_is_ordered(a, q * b, b);
        vstd::arithmetic::div_mod::lemma_div_pos_is_pos(a, b);
    } else {
        vstd::arithmetic::div_mod::lemma_div_is_ordered(-a, q * b, b);
        vstd::arithmetic::div_mod::lemma_div_pos_is_pos(-a, b);
    }
}

/// Position term at the end of the step that starts at time index `t`:
/// `x0 + v0 * t + v0 * tau0` (the `v0 * tau0` product is rescaled from
/// micro-squared units back to micro-units).
pub open spec fn spec_alpha(p: ParameterVector, t: int, tau0: int) -> int {
    p.x0 + p.v0 * t + tdiv(p.v0 * tau0, SCALE as int)
}

/// Position term at the start of the step: `x0 + v0 * t`.
pub open spec fn spec_beta(p: ParameterVector, t: int) -> int {
    p.x0 + p.v0 * t
}

/// Source-observer distance at the end of the step.
pub open spec fn spec_dist_a(p: ParameterVector, t: int, tau0: int) -> int {
    sqrt_floor(p.d * p.d + spec_alpha(p, t, tau0) * spec_alpha(p, t, tau0))
}

/// Source-observer distance at the start of the step.
pub open spec fn spec_dist_b(p: ParameterVector, t: int) -> int {
    sqrt_floor(p.d * p.d + spec_beta(p, t) * spec_beta(p, t))
}

/// Denominator of the model: `tau0 * C + A - B`, in micro-units.
pub open spec fn spec_denom(p: ParameterVector, t: int, tau0: int) -> int {
    tdiv(tau0 * (C_MICRO as int), SCALE as int) + spec_dist_a(p, t, tau0) - spec_dist_b(p, t)
}

/// The model is defined where its denominator is positive; elsewhere the
/// travel-time difference degenerates and no observable is predicted.
pub open spec fn predict_defined(p: ParameterVector, t: int, tau0: int) -> bool {
    spec_denom(p, t, tau0) > 0
}

/// The predicted observable `C / (tau0 * C + A - B)`, in micro-units.
pub open spec fn predict_value(p: ParameterVector, t: int, tau0: int) -> int {
    ((C_MICRO as int) * (SCALE as int)) / spec_denom(p, t, tau0)
}

/// The apparent-frequency observable predicted for time index `t`: the
/// travel-time model of a constant-velocity point source, evaluated in exact
/// fixed-point arithmetic; `None` where the model degenerates.
pub fn predict(p: &ParameterVector, t: usize, tau0: i64) -> (r: Option<i64>)
    requires
        in_box(*p),
        0 < tau0 <= TAU0_MAX_MICRO,
        t <= MAX_TIME_INDEX,
    ensures
        (match r {
            Option::Some(v) => predict_defined(*p, t as int, tau0 as int) && v as int
                == predict_value(*p, t as int, tau0 as int) && 0 <= v <= (C_MICRO as i64)
                * (SCALE as i64),
            Option::None => !predict_defined(*p, t as int, tau0 as int),
        }),
{
    let x0 = p.x0 as i128;
    let d = p.d as i128;
    let v0 = p.v0 as i128;
    let tau = tau0 as i128;
    let ti = t as i128;
    proof {
        assert(-100_000_000_000_000_000 <= (v0 as int) * (ti as int) <= 100_000_000_000_000_000)
            by (nonlinear_arith)
            requires
                -100_000_000_000 <= v0 as int <= 100_000_000_000,
                0 <= ti as int <= 1_000_000,
        ;
        assert(-100_000_000_000_000_000_000_000 <= (v0 as int) * (tau as int)
            <= 100_000_000_000_000_000_000_000) by (nonlinear_arith)
            requires
                -100_000_000_000 <= v0 as int <= 100_000_000_000,
                0 < tau as int <= 1_000_000_000_000,
        ;
        assert(100_000_000_000_000_000int * 1_000_000 == 100_000_000_000_000_000_000_000);
        lemma_tdiv_bound((v0 as int) * (tau as int), SCALE as int, 100_000_000_000_000_000);
    }
    let vt = v0 * ti;
    let vtau = tdiv_exec(v0 * tau, SCALE as i128);
    let alpha = x0 + vt + vtau;
    let beta = x0 + vt;
    proof {
        assert(0 <= (d as int) * (d as int) <= 10_000_000_000_000_000_000_000) by (nonlinear_arith)
            requires
                -100_000_000_000 <= d as int <= 100_000_000_000,
        ;
        assert(0 <= (alpha as int) * (alpha as int)
            <= 90_000_000_000_000_000_000_000_000_000_000_000) by (nonlinear_arith)
            requires
                -300_000_000_000_000_000 <= alpha as int <= 300_000_000_000_000_000,
        ;
        assert(0 <= (beta as int) * (beta as int)
            <= 90_000_000_000_000_000_000_000_000_000_000_000) by (nonlinear_arith)
            requires
                -300_000_000_000_000_000 <= beta as int <= 300_000_000_000_000_000,
        ;
    }
    let da = d * d + alpha * alpha;
    let db = d * d + beta * beta;
    let a_root = isqrt(da as u128);
    let b_root = isqrt(db as u128);
    proof {
        assert(0 < (tau as int) * (C_MICRO as int) <= 343_000_000_000_000_000_000)
            by (nonlinear_arith)
            requires
                0 < tau as int <= 1_000_000_000_000,
        ;
        assert(343_000_000_000_000int * 1_000_000 == 343_000_000_000_000_000_000);
        lemma_tdiv_bound((tau as int) * (C_MICRO as int), SCALE as int, 343_000_000_000_000);
        // the two roots are bounded by the bound on the radicands
        assert((a_root as int) <= 400_000_000_000_000_000) by (nonlinear_arith)
            requires
                0 <= a_root as int,
                (a_root as int) * (a_root as int) <= 90_100_000_000_000_000_000_000_000_000_000_000,
        ;
        assert((b_root as int) <= 400_000_000_000_000_000) by (nonlinear_arith)
            requires
                0 <= b_root as int,
                (b_root as int) * (b_root as int) <= 90_100_000_000_000_000_000_000_000_000_000_000,
        ;
    }
    let tc = tdiv_exec(tau * (C_MICRO as i128), SCALE as i128);
    let denom = tc + (a_root as i128) - (b_root as i128);
    if denom <= 0 {
        None
    } else {
        let num: i128 = (C_MICRO as i128) * (SCALE as i128);
        let q = (num as u128) / (denom as u128);
        proof {
            vstd::arithmetic::div_mod::lemma_div_nonincreasing(num as int, denom as int);
            vstd::arithmetic::div_mod::lemma_div_pos_is_pos(num as int, denom as int);
        }
        Some(q as i64)
    }
}

/// The model is defined at every time index below `n`.
pub open spec fn all_defined(p: ParameterVector, tau0: int, n: int) -> bool {
    forall|t: int| 0 <= t < n ==> predict_defined(p, t, tau0)
}

/// Squared residual of the model against the observed value at index `t`.
pub open spec fn residual_sq(p: ParameterVector, tr: Seq<i64>, tau0: int, t: int) -> int {
    (predict_value(p, t, tau0) - tr[t]) * (predict_value(p, t, tau0) - tr[t])
}

/// Sum of squared residuals over the first `n` time indices.
pub open spec fn objective_sum(p: ParameterVector, tr: Seq<i64>, tau0: int, n: int) -> int
    decreases n,
{
    if n <= 0 {
        0
    } else {
        objective_sum(p, tr, tau0, n - 1) + residual_sq(p, tr, tau0, n - 1)
    }
}

/// The scalar objective: the sum over the trace of the squared difference
/// between the model's prediction and the observed value, in squared
/// micro-units; `None` where the model degenerates at some index.
pub fn objective(p: &ParameterVector, trace: &Vec<i64>, tau0: i64) -> (r: Option<u128>)
    requires
        in_box(*p),
        0 < tau0 <= TAU0_MAX_MICRO,
        trace.len() <= MAX_TIME_INDEX,
        forall|k: int|
            0 <= k < trace.len() ==> -TRACE_BOUND_MICRO <= #[trigger] trace@[k]
                <= TRACE_BOUND_MICRO,
    ensures
        (match r {
            Option::Some(v) => all_defined(*p, tau0 as int, trace.len() as int) && v as int
                == objective_sum(*p, trace@, tau0 as int, trace.len() as int),
            Option::None => !all_defined(*p, tau0 as int, trace.len() as int),
        }),
{
    let n = trace.len();
    let mut acc: u128 = 0;
    let mut t: usize = 0;
    while t < n
        invariant
            n == trace.len(),
            n <= MAX_TIME_INDEX,
            in_box(*p),
            0 < tau0 <= TAU0_MAX_MICRO,
            forall|k: int|
                0 <= k < n ==> -TRACE_BOUND_MICRO <= #[trigger] trace@[k] <= TRACE_BOUND_MICRO,
            t <= n,
            forall|k: int| 0 <= k < t ==> predict_defined(*p, k, tau0 as int),
            acc as int == objective_sum(*p, trace@, tau0 as int, t as int),
            acc as int <= (t as int) * 640_000_000_000_000_000_000_000_000_000,
        decreases n - t,
    {
        match predict(p, t, tau0) {
            Option::None => {
                return None;
            },
            Option::Some(v) => {
                let res: i128 = (v as i128) - (trace[t] as i128);
                proof {
                    assert(0 <= (res as int) * (res as int)
                        <= 640_000_000_000_000_000_000_000_000_000) by (nonlinear_arith)
                        requires
                            -800_000_000_000_000 <= res as int <= 800_000_000_000_000,
                    ;
                    assert((t as int + 1) * 640_000_000_000_000_000_000_000_000_000 <= (
                    1_000_000int) * 640_000_000_000_000_000_000_000_000_000) by (nonlinear_arith)
                        requires
                            t as int + 1 <= 1_000_000,
                    ;
                }
                let sq = res * res;
                acc = acc + (sq as u128);
            },
        }
        t += 1;
    }
    Some(acc)
}

/// A trace that the model reproduces exactly has objective zero: every
/// residual vanishes, so the sum of their squares does too.
pub proof fn lemma_objective_zero_on_exact_trace(
    p: ParameterVector,
    tr: Seq<i64>,
    tau0: int,
    n: int,
)
    requires
        n <= tr.len(),
        forall|t: int| 0 <= t < n ==> predict_defined(p, t, tau0),
        forall|t: int| 0 <= t < n ==> (#[trigger] tr[t]) as int == predict_value(p, t, tau0),
    ensures
        all_defined(p, tau0, n),
        objective_sum(p, tr, tau0, n) == 0,
    decreases n,
{
    if n > 0 {
        lemma_objective_zero_on_exact_trace(p, tr, tau0, n - 1);
        assert(tr[n - 1] as int == predict_value(p, n - 1, tau0));
    }
}

/// The trace the model itself predicts over the first `len` time indices;
/// `None` where the model degenerates at one of them.
pub fn predict_trace(p: &ParameterVector, tau0: i64, len: usize) -> (r: Option<Vec<i64>>)
    requires
        in_box(*p),
        0 < tau0 <= TAU0_MAX_MICRO,
        len <= MAX_TIME_INDEX,
    ensures
        (match r {
            Option::Some(v) => {
                &&& v.len() == len
                &&& all_defined(*p, tau0 as int, len as int)
                &&& forall|t: int|
                    0 <= t < len ==> (#[trigger] v@[t]) as int == predict_value(
                        *p,
                        t,
                        tau0 as int,
                    ) && 0 <= v@[t] <= (C_MICRO as i64) * (SCALE as i64)
            },
            Option::None => !all_defined(*p, tau0 as int, len as int),
        }),
{
    let mut out: Vec<i64> = Vec::new();
    let mut t: usize = 0;
    while t < len
        invariant
            in_box(*p),
            0 < tau0 <= TAU0_MAX_MICRO,
            len <= MAX_TIME_INDEX,
            t <= len,
            out.len() == t,
            forall|k: int| 0 <= k < t ==> predict_defined(*p, k, tau0 as int),
            forall|k: int|
                0 <= k < t ==> (#[trigger] out@[k]) as int == predict_value(*p, k, tau0 as int)
                    && 0 <= out@[k] <= (C_MICRO as i64) * (SCALE as i64),
        decreases len - t,
    {
        match predict(p, t, tau0) {
            Option::None => {
                return None;
            },
            Option::Some(v) => {
                out.push(v);
            },
        }
        t += 1;
    }
    Some(out)
}

/// Largest bin index a frequency trace may carry into the objective.
pub const MAX_BIN_INDEX: usize = 100_000_000;

/// A frequency trace of bin indices, rescaled to micro-units so it can serve
/// as the observation vector of the objective. The trace keeps bin-index
/// semantics: the model is fitted against bin indices, not Hertz.
pub fn trace_to_micro(trace: &Vec<usize>) -> (r: Vec<i64>)
    requires
        forall|k: int| 0 <= k < trace.len() ==> #[trigger] trace@[k] <= MAX_BIN_INDEX,
    ensures
        r.len() == trace.len(),
        forall|k: int|
            0 <= k < trace.len() ==> (#[trigger] r@[k]) as int == trace@[k] * (SCALE as int),
        forall|k: int| 0 <= k < trace.len() ==> 0 <= #[trigger] r@[k] <= TRACE_BOUND_MICRO,
{
    let n = trace.len();
    let mut out: Vec<i64> = Vec::new();
    let mut k: usize = 0;
    while k < n
        invariant
            n == trace.len(),
            forall|j: int| 0 <= j < n ==> #[trigger] trace@[j] <= MAX_BIN_INDEX,
            k <= n,
            out.len() == k,
            forall|j: int|
                0 <= j < k ==> (#[trigger] out@[j]) as int == trace@[j] * (SCALE as int),
            forall|j: int| 0 <= j < k ==> 0 <= #[trigger] out@[j] <= TRACE_BOUND_MICRO,
        decreases n - k,
    {
        let v = trace[k];
        proof {
            assert(0 <= (v as int) * (SCALE as int) <= 100_000_000_000_000) by (nonlinear_arith)
                requires
                    0 <= v as int <= 100_000_000,
            ;
        }
        let m: i64 = (v as i64) * SCALE;
        out.push(m);
        k += 1;
    }
    out
}

/// The fitted model: a parameter vector plus the effective time step of the
/// trace it was fitted against. The speed of sound `C_MICRO` is a process-wide
/// constant, not a field.
#[derive(Clone, Copy, Debug, PartialEq, Eq, Structural)]
pub struct SourceModel {
    pub params: ParameterVector,
    pub tau0: i64,
}

/// A well-formed model: parameters in the box, a positive bounded time step.
pub open spec fn source_model_wf(m: SourceModel) -> bool {
    &&& in_box(m.params)
    &&& 0 < m.tau0 <= TAU0_MAX_MICRO
}

impl SourceModel {
    /// Builds a model, rejecting out-of-box parameters and degenerate time
    /// steps.
    pub fn new(params: ParameterVector, tau0: i64) -> (r: Option<SourceModel>)
        ensures
            (match r {
                Option::Some(m) => m.params == params && m.tau0 == tau0 && source_model_wf(m),
                Option::None => !(in_box(params) && 0 < tau0 <= TAU0_MAX_MICRO),
            }),
    {
        if params.x0 >= -PARAM_BOUND_MICRO && params.x0 <= PARAM_BOUND_MICRO && params.d
            >= -PARAM_BOUND_MICRO && params.d <= PARAM_BOUND_MICRO && params.v0
            >= -PARAM_BOUND_MICRO && params.v0 <= PARAM_BOUND_MICRO && tau0 > 0 && tau0
            <= TAU0_MAX_MICRO {
            Some(SourceModel { params, tau0 })
        } else {
            None
        }
    }

    /// The observable this model predicts at time index `t`.
    pub fn predict_at(&self, t: usize) -> (r: Option<i64>)
        requires
            source_model_wf(*self),
            t <= MAX_TIME_INDEX,
        ensures
            (match r {
                Option::Some(v) => predict_defined(self.params, t as int, self.tau0 as int) && v
                    as int == predict_value(self.params, t as int, self.tau0 as int),
                Option::None => !predict_defined(self.params, t as int, self.tau0 as int),
            }),
    {
        predict(&self.params, t, self.tau0)
    }
}

} // verus!
