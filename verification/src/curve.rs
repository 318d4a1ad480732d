//! The shapes handed to the native curve engine.
//!
//! The engine computes the sensitivity transfer function itself; this
//! crate only assembles its argument: the common parameters plus the
//! parameters of one mode's curve, all in fixed point.

use crate::fixed::Fpt;
use crate::params::AccelMode;
use vstd::prelude::*;

verus! {

/// A pair of sensitivity ratios, one per movement axis, as the curve
/// engine returns them.
#[derive(Debug, Clone, Copy, PartialEq, Eq, Structural)]
pub struct Vector {
    pub x: i64,
    pub y: i64,
}

/// Every parameter's current value, one field per tag, mode-agnostic:
/// the full snapshot a front end needs to preview any curve.
#[derive(Debug, Clone, Copy, PartialEq, Eq, Structural)]
pub struct AllParamArgs {
    pub sens_mult: Fpt,
    pub yx_ratio: Fpt,
    pub input_dpi: Fpt,
    pub accel: Fpt,
    pub offset_linear: Fpt,
    pub output_cap: Fpt,
    pub decay_rate: Fpt,
    pub offset_natural: Fpt,
    pub limit: Fpt,
    pub gamma: Fpt,
    pub smooth: Fpt,
    pub motivity: Fpt,
    pub sync_speed: Fpt,
}

/// The linear curve's parameters.
#[derive(Debug, Clone, Copy, PartialEq, Eq, Structural)]
pub struct LinearCurveParams {
    pub accel: Fpt,
    pub offset_linear: Fpt,
    pub output_cap: Fpt,
}

/// The natural curve's parameters.
#[derive(Debug, Clone, Copy, PartialEq, Eq, Structural)]
pub struct NaturalCurveParams {
    pub decay_rate: Fpt,
    pub offset_natural: Fpt,
    pub limit: Fpt,
}

/// The synchronous curve's parameters.
#[derive(Debug, Clone, Copy, PartialEq, Eq, Structural)]
pub struct SynchronousCurveParams {
    pub gamma: Fpt,
    pub smooth: Fpt,
    pub motivity: Fpt,
    pub sync_speed: Fpt,
}

/// The curve-specific parameters of one mode.
#[derive(Debug, Clone, Copy, PartialEq, Eq, Structural)]
pub enum AccelParamsByMode {
    Linear(LinearCurveParams),
    Natural(NaturalCurveParams),
    Synchronous(SynchronousCurveParams),
}

/// The complete argument of the curve engine's sensitivity function:
/// the common parameters and the chosen mode's curve parameters.
#[derive(Debug, Clone, Copy, PartialEq, Eq, Structural)]
pub struct AccelParams {
    pub sens_mult: Fpt,
    pub yx_ratio: Fpt,
    pub input_dpi: Fpt,
    pub by_mode: AccelParamsByMode,
}

impl AllParamArgs {
    /// Select the given mode's parameters out of the snapshot and lay
    /// them out as the curve engine's argument.
    pub fn convert_to_accel_args(&self, mode: AccelMode) -> (r: AccelParams)
        ensures
            r.sens_mult == self.sens_mult,
            r.yx_ratio == self.yx_ratio,
            r.input_dpi == self.input_dpi,
            mode == AccelMode::Linear ==> r.by_mode == AccelParamsByMode::Linear(
                LinearCurveParams {
                    accel: self.accel,
                    offset_linear: self.offset_linear,
                    output_cap: self.output_cap,
                },
            ),
            mode == AccelMode::Natural ==> r.by_mode == AccelParamsByMode::Natural(
                NaturalCurveParams {
                    decay_rate: self.decay_rate,
                    offset_natural: self.offset_natural,
                    limit: self.limit,
                },
            ),
            mode == AccelMode::Synchronous ==> r.by_mode == AccelParamsByMode::Synchronous(
                SynchronousCurveParams {
                    gamma: self.gamma,
                    smooth: self.smooth,
                    motivity: self.motivity,
                    sync_speed: self.sync_speed,
                },
            ),
    {
        let params_by_mode = match mode {
            AccelMode::Linear => AccelParamsByMode::Linear(
                LinearCurveParams {
                    accel: self.accel,
                    offset_linear: self.offset_linear,
                    output_cap: self.output_cap,
                },
            ),
            AccelMode::Natural => AccelParamsByMode::Natural(
                NaturalCurveParams {
                    decay_rate: self.decay_rate,
                    offset_natural: self.offset_natural,
                    limit: self.limit,
                },
            ),
            AccelMode::Synchronous => AccelParamsByMode::Synchronous(
                SynchronousCurveParams {
                    gamma: self.gamma,
                    smooth: self.smooth,
                    motivity: self.motivity,
                    sync_speed: self.sync_speed,
                },
            ),
        };
        AccelParams {
            sens_mult: self.sens_mult,
            yx_ratio: self.yx_ratio,
            input_dpi: self.input_dpi,
            by_mode: params_by_mode,
        }
    }
}

} // verus!
