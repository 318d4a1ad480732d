//! The parameter schema: every setting the driver knows, the mode it
//! belongs to, its names on the privileged interface and on screen, and
//! its validation rule.
//!
//! Parameters are partitioned into a common group, active in every mode,
//! and one group per acceleration mode.  Two parameter tags may share one
//! canonical name (the two offsets both write `OFFSET`); such tags denote
//! the same stored value, which the slot numbering below makes explicit.

use crate::fixed::{Fpt, SCALE};
use vstd::prelude::*;

verus! {

/// One tag per setting recognised by the driver.
#[derive(Debug, Clone, Copy, PartialEq, Eq, Structural)]
pub enum Param {
    SensMult,
    YxRatio,
    InputDpi,
    Accel,
    OffsetLinear,
    OutputCap,
    DecayRate,
    OffsetNatural,
    Limit,
    Gamma,
    Smooth,
    Motivity,
    SyncSpeed,
}

/// The acceleration curve families the driver offers.
#[derive(Debug, Clone, Copy, PartialEq, Eq, Structural)]
pub enum AccelMode {
    Linear,
    Natural,
    Synchronous,
}

impl Default for AccelMode {
    /// The driver starts out in the linear mode.
    fn default() -> (r: AccelMode)
        ensures
            r == AccelMode::Linear,
    {
        AccelMode::Linear
    }
}

/// Every parameter, in the declared order: the common group first, then
/// the linear, natural and synchronous groups.
pub open spec fn all_params_seq() -> Seq<Param> {
    seq![
        Param::SensMult,
        Param::YxRatio,
        Param::InputDpi,
        Param::Accel,
        Param::OffsetLinear,
        Param::OutputCap,
        Param::DecayRate,
        Param::OffsetNatural,
        Param::Limit,
        Param::Gamma,
        Param::Smooth,
        Param::Motivity,
        Param::SyncSpeed,
    ]
}

/// The group a parameter belongs to: `None` for the common group,
/// otherwise the one mode whose curve reads it.
pub open spec fn spec_group(p: Param) -> Option<AccelMode> {
    match p {
        Param::SensMult => None,
        Param::YxRatio => None,
        Param::InputDpi => None,
        Param::Accel => Some(AccelMode::Linear),
        Param::OffsetLinear => Some(AccelMode::Linear),
        Param::OutputCap => Some(AccelMode::Linear),
        Param::DecayRate => Some(AccelMode::Natural),
        Param::OffsetNatural => Some(AccelMode::Natural),
        Param::Limit => Some(AccelMode::Natural),
        Param::Gamma => Some(AccelMode::Synchronous),
        Param::Smooth => Some(AccelMode::Synchronous),
        Param::Motivity => Some(AccelMode::Synchronous),
        Param::SyncSpeed => Some(AccelMode::Synchronous),
    }
}

/// The common parameters, in declared order.
pub open spec fn common_params_seq() -> Seq<Param> {
    seq![Param::SensMult, Param::YxRatio, Param::InputDpi]
}

/// The mode-specific parameters of one mode, in declared order.
pub open spec fn mode_params_seq(mode: AccelMode) -> Seq<Param> {
    match mode {
        AccelMode::Linear => seq![Param::Accel, Param::OffsetLinear, Param::OutputCap],
        AccelMode::Natural => seq![Param::DecayRate, Param::OffsetNatural, Param::Limit],
        AccelMode::Synchronous => seq![
            Param::Gamma,
            Param::Smooth,
            Param::Motivity,
            Param::SyncSpeed,
        ],
    }
}

/// Every parameter, as a vector.
pub fn all_params() -> (r: Vec<Param>)
    ensures
        r@ == all_params_seq(),
{
    let mut r: Vec<Param> = Vec::new();
    r.push(Param::SensMult);
    r.push(Param::YxRatio);
    r.push(Param::InputDpi);
    r.push(Param::Accel);
    r.push(Param::OffsetLinear);
    r.push(Param::OutputCap);
    r.push(Param::DecayRate);
    r.push(Param::OffsetNatural);
    r.push(Param::Limit);
    r.push(Param::Gamma);
    r.push(Param::Smooth);
    r.push(Param::Motivity);
    r.push(Param::SyncSpeed);
    proof {
        assert(r@ =~= all_params_seq());
    }
    r
}

/// The common parameters, as a vector.
pub fn common_params() -> (r: Vec<Param>)
    ensures
        r@ == common_params_seq(),
{
    let mut r: Vec<Param> = Vec::new();
    r.push(Param::SensMult);
    r.push(Param::YxRatio);
    r.push(Param::InputDpi);
    proof {
        assert(r@ =~= common_params_seq());
    }
    r
}

/// The mode-specific parameters of one mode, as a vector.
pub fn mode_params(mode: AccelMode) -> (r: Vec<Param>)
    ensures
        r@ == mode_params_seq(mode),
{
    let mut r: Vec<Param> = Vec::new();
    match mode {
        AccelMode::Linear => {
            r.push(Param::Accel);
            r.push(Param::OffsetLinear);
            r.push(Param::OutputCap);
        },
        AccelMode::Natural => {
            r.push(Param::DecayRate);
            r.push(Param::OffsetNatural);
            r.push(Param::Limit);
        },
        AccelMode::Synchronous => {
            r.push(Param::Gamma);
            r.push(Param::Smooth);
            r.push(Param::Motivity);
            r.push(Param::SyncSpeed);
        },
    }
    proof {
        assert(r@ =~= mode_params_seq(mode));
    }
    r
}

/// Every parameter belongs to exactly one group: the common parameters
/// are exactly those without a mode, each mode group holds exactly its
/// own parameters, and the full list carries each tag once.
pub proof fn lemma_schema_partition()
    ensures
        forall|p: Param| common_params_seq().contains(p) <==> spec_group(p) is None,
        forall|p: Param, m: AccelMode|
            mode_params_seq(m).contains(p) <==> spec_group(p) == Some(m),
        forall|p: Param| all_params_seq().contains(p),
        forall|i: int, j: int|
            0 <= i < j < all_params_seq().len() ==> all_params_seq()[i] != all_params_seq()[j],
{
    assert forall|p: Param| common_params_seq().contains(p) <==> spec_group(p) is None by {
        if spec_group(p) is None {
            match p {
                Param::SensMult => assert(common_params_seq()[0] == p),
                Param::YxRatio => assert(common_params_seq()[1] == p),
                _ => assert(common_params_seq()[2] == p),
            }
        }
    }
    assert forall|p: Param, m: AccelMode|
        mode_params_seq(m).contains(p) <==> spec_group(p) == Some(m) by {
        if spec_group(p) == Some(m) {
            match p {
                Param::Accel => assert(mode_params_seq(m)[0] == p),
                Param::OffsetLinear => assert(mode_params_seq(m)[1] == p),
                Param::OutputCap => assert(mode_params_seq(m)[2] == p),
                Param::DecayRate => assert(mode_params_seq(m)[0] == p),
                Param::OffsetNatural => assert(mode_params_seq(m)[1] == p),
                Param::Limit => assert(mode_params_seq(m)[2] == p),
                Param::Gamma => assert(mode_params_seq(m)[0] == p),
                Param::Smooth => assert(mode_params_seq(m)[1] == p),
                Param::Motivity => assert(mode_params_seq(m)[2] == p),
                Param::SyncSpeed => assert(mode_params_seq(m)[3] == p),
                _ => assert(false),
            }
        }
    }
    assert forall|p: Param| all_params_seq().contains(p) by {
        match p {
            Param::SensMult => assert(all_params_seq()[0] == p),
            Param::YxRatio => assert(all_params_seq()[1] == p),
            Param::InputDpi => assert(all_params_seq()[2] == p),
            Param::Accel => assert(all_params_seq()[3] == p),
            Param::OffsetLinear => assert(all_params_seq()[4] == p),
            Param::OutputCap => assert(all_params_seq()[5] == p),
            Param::DecayRate => assert(all_params_seq()[6] == p),
            Param::OffsetNatural => assert(all_params_seq()[7] == p),
            Param::Limit => assert(all_params_seq()[8] == p),
            Param::Gamma => assert(all_params_seq()[9] == p),
            Param::Smooth => assert(all_params_seq()[10] == p),
            Param::Motivity => assert(all_params_seq()[11] == p),
            Param::SyncSpeed => assert(all_params_seq()[12] == p),
        }
    }
}

// ---------------------------------------------------------------------------
// Names and value slots.
// ---------------------------------------------------------------------------
/// Canonical name of a parameter on the privileged interface.
pub open spec fn spec_name(p: Param) -> Seq<char> {
    match p {
        Param::SensMult => "SENS_MULT"@,
        Param::YxRatio => "YX_RATIO"@,
        Param::InputDpi => "INPUT_DPI"@,
        Param::Accel => "ACCEL"@,
        Param::OffsetLinear => "OFFSET"@,
        Param::OutputCap => "OUTPUT_CAP"@,
        Param::DecayRate => "DECAY_RATE"@,
        Param::OffsetNatural => "OFFSET"@,
        Param::Limit => "LIMIT"@,
        Param::Gamma => "GAMMA"@,
        Param::Smooth => "SMOOTH"@,
        Param::Motivity => "MOTIVITY"@,
        Param::SyncSpeed => "SYNC_SPEED"@,
    }
}

/// Number of distinct stored values: the two offsets share one.
pub const NUM_SLOTS: usize = 12;

/// Index of the stored value a parameter reads and writes.  Two
/// parameters share a slot exactly when they share a canonical name.
pub open spec fn spec_slot(p: Param) -> int {
    match p {
        Param::SensMult => 0,
        Param::YxRatio => 1,
        Param::InputDpi => 2,
        Param::Accel => 3,
        Param::OffsetLinear => 4,
        Param::OutputCap => 5,
        Param::DecayRate => 6,
        Param::OffsetNatural => 4,
        Param::Limit => 7,
        Param::Gamma => 8,
        Param::Smooth => 9,
        Param::Motivity => 10,
        Param::SyncSpeed => 11,
    }
}

impl Param {
    /// The canonical name of the parameter, as defined by the kernel
    /// module: exactly the file name under the privileged parameter
    /// directory.
    pub fn name(&self) -> (r: &'static str)
        ensures
            r@ == spec_name(*self),
    {
        match self {
            Param::SensMult => "SENS_MULT",
            Param::YxRatio => "YX_RATIO",
            Param::InputDpi => "INPUT_DPI",
            Param::Accel => "ACCEL",
            Param::OffsetLinear => "OFFSET",
            Param::OutputCap => "OUTPUT_CAP",
            Param::DecayRate => "DECAY_RATE",
            Param::OffsetNatural => "OFFSET",
            Param::Limit => "LIMIT",
            Param::Gamma => "GAMMA",
            Param::Smooth => "SMOOTH",
            Param::Motivity => "MOTIVITY",
            Param::SyncSpeed => "SYNC_SPEED",
        }
    }

    /// The name shown to the user for this parameter.
    pub fn display_name(&self) -> (r: &'static str)
        ensures
            r@ == spec_display_name(*self),
    {
        match self {
            Param::SensMult => "Sens-Multiplier",
            Param::YxRatio => "Y/x Ratio",
            Param::InputDpi => "Input DPI",
            Param::Accel => "Accel",
            Param::OffsetLinear => "Offset",
            Param::OutputCap => "Output-Cap",
            Param::DecayRate => "Decay-Rate",
            Param::OffsetNatural => "Offset",
            Param::Limit => "Limit",
            Param::Gamma => "Gamma",
            Param::Smooth => "Smooth",
            Param::Motivity => "Motivity",
            Param::SyncSpeed => "Sync Speed",
        }
    }

    /// A short account of what the parameter does.
    pub fn description(&self) -> (r: &'static str)
        ensures
            r@ == spec_description(*self),
    {
        match self {
            Param::SensMult => "Multiplier applied to both axes after acceleration",
            Param::YxRatio => "Extra multiplier applied to the vertical axis",
            Param::InputDpi => "Resolution of the device, used to normalise speed",
            Param::Accel => "Acceleration factor of the linear curve",
            Param::OffsetLinear => "Speed below which no acceleration is applied",
            Param::OutputCap => "Upper bound on the linear curve's output",
            Param::DecayRate => "How fast the natural curve approaches its limit",
            Param::OffsetNatural => "Speed below which no acceleration is applied",
            Param::Limit => "The natural curve's limit value",
            Param::Gamma => "Steepness of the synchronous curve",
            Param::Smooth => "Smoothing factor of the synchronous curve",
            Param::Motivity => "Gain ceiling of the synchronous curve",
            Param::SyncSpeed => "Speed at which the synchronous curve crosses one",
        }
    }

    /// The stored-value slot this parameter reads and writes.
    pub fn slot(&self) -> (r: usize)
        ensures
            r as int == spec_slot(*self),
            r < NUM_SLOTS,
    {
        match self {
            Param::SensMult => 0,
            Param::YxRatio => 1,
            Param::InputDpi => 2,
            Param::Accel => 3,
            Param::OffsetLinear => 4,
            Param::OutputCap => 5,
            Param::DecayRate => 6,
            Param::OffsetNatural => 4,
            Param::Limit => 7,
            Param::Gamma => 8,
            Param::Smooth => 9,
            Param::Motivity => 10,
            Param::SyncSpeed => 11,
        }
    }
}

/// The display name of a parameter.
pub open spec fn spec_display_name(p: Param) -> Seq<char> {
    match p {
        Param::SensMult => "Sens-Multiplier"@,
        Param::YxRatio => "Y/x Ratio"@,
        Param::InputDpi => "Input DPI"@,
        Param::Accel => "Accel"@,
        Param::OffsetLinear => "Offset"@,
        Param::OutputCap => "Output-Cap"@,
        Param::DecayRate => "Decay-Rate"@,
        Param::OffsetNatural => "Offset"@,
        Param::Limit => "Limit"@,
        Param::Gamma => "Gamma"@,
        Param::Smooth => "Smooth"@,
        Param::Motivity => "Motivity"@,
        Param::SyncSpeed => "Sync Speed"@,
    }
}

/// The description of a parameter.
pub open spec fn spec_description(p: Param) -> Seq<char> {
    match p {
        Param::SensMult => "Multiplier applied to both axes after acceleration"@,
        Param::YxRatio => "Extra multiplier applied to the vertical axis"@,
        Param::InputDpi => "Resolution of the device, used to normalise speed"@,
        Param::Accel => "Acceleration factor of the linear curve"@,
        Param::OffsetLinear => "Speed below which no acceleration is applied"@,
        Param::OutputCap => "Upper bound on the linear curve's output"@,
        Param::DecayRate => "How fast the natural curve approaches its limit"@,
        Param::OffsetNatural => "Speed below which no acceleration is applied"@,
        Param::Limit => "The natural curve's limit value"@,
        Param::Gamma => "Steepness of the synchronous curve"@,
        Param::Smooth => "Smoothing factor of the synchronous curve"@,
        Param::Motivity => "Gain ceiling of the synchronous curve"@,
        Param::SyncSpeed => "Speed at which the synchronous curve crosses one"@,
    }
}

/// Two parameters write the same stored value exactly when they carry
/// the same canonical name.
pub proof fn lemma_slot_matches_name(p: Param, q: Param)
    ensures
        spec_slot(p) == spec_slot(q) <==> spec_name(p) == spec_name(q),
{
    reveal_strlit("SENS_MULT");
    reveal_strlit("YX_RATIO");
    reveal_strlit("INPUT_DPI");
    reveal_strlit("ACCEL");
    reveal_strlit("OFFSET");
    reveal_strlit("OUTPUT_CAP");
    reveal_strlit("DECAY_RATE");
    reveal_strlit("LIMIT");
    reveal_strlit("GAMMA");
    reveal_strlit("SMOOTH");
    reveal_strlit("MOTIVITY");
    reveal_strlit("SYNC_SPEED");
    // Each name is told apart from every other by its length and first
    // character; the two offsets share the literal itself.
    if spec_name(p) == spec_name(q) {
        assert(spec_name(p).len() == spec_name(q).len());
        assert(spec_name(p)[0] == spec_name(q)[0]);
        assert(spec_slot(p) == spec_slot(q));
    }
}

// ---------------------------------------------------------------------------
// Mode ordinals.
// ---------------------------------------------------------------------------
/// Every mode, in ordinal order.
pub open spec fn all_modes_seq() -> Seq<AccelMode> {
    seq![AccelMode::Linear, AccelMode::Natural, AccelMode::Synchronous]
}

/// The on-disk ordinal of a mode.
pub open spec fn spec_ordinal(m: AccelMode) -> int {
    match m {
        AccelMode::Linear => 0,
        AccelMode::Natural => 1,
        AccelMode::Synchronous => 2,
    }
}

/// The mode stored under a non-negative ordinal: out-of-range ordinals
/// from another driver version wrap around rather than fail.
pub open spec fn spec_mode_from_ordinal(n: int) -> AccelMode {
    all_modes_seq()[n % 3]
}

/// Every mode, as a vector.
pub fn all_modes() -> (r: Vec<AccelMode>)
    ensures
        r@ == all_modes_seq(),
{
    let mut r: Vec<AccelMode> = Vec::new();
    r.push(AccelMode::Linear);
    r.push(AccelMode::Natural);
    r.push(AccelMode::Synchronous);
    proof {
        assert(r@ =~= all_modes_seq());
    }
    r
}

impl AccelMode {
    /// The heading shown for this mode.
    pub fn as_title(&self) -> (r: &'static str)
        ensures
            r@ == spec_title(*self),
    {
        match self {
            AccelMode::Linear => "Linear Acceleration",
            AccelMode::Natural => "Natural (w/ Gain)",
            AccelMode::Synchronous => "Synchronous",
        }
    }

    /// The ordinal written to the mode file.
    pub fn ordinal(&self) -> (r: i64)
        ensures
            r as int == spec_ordinal(*self),
            0 <= r < 3,
            spec_mode_from_ordinal(r as int) == *self,
    {
        match self {
            AccelMode::Linear => 0,
            AccelMode::Natural => 1,
            AccelMode::Synchronous => 2,
        }
    }

    /// The name of the file holding the current mode's ordinal.
    pub fn param_name() -> (r: &'static str)
        ensures
            r@ == "MODE"@,
    {
        "MODE"
    }
}

/// The title of a mode.
pub open spec fn spec_title(m: AccelMode) -> Seq<char> {
    match m {
        AccelMode::Linear => "Linear Acceleration"@,
        AccelMode::Natural => "Natural (w/ Gain)"@,
        AccelMode::Synchronous => "Synchronous"@,
    }
}

/// Map a stored ordinal into the closed mode set, wrapping out-of-range
/// values from newer or older driver versions.
pub fn mode_from_ordinal(n: u64) -> (r: AccelMode)
    ensures
        r == spec_mode_from_ordinal(n as int),
{
    let k = n % 3;
    if k == 0 {
        AccelMode::Linear
    } else if k == 1 {
        AccelMode::Natural
    } else {
        AccelMode::Synchronous
    }
}

// ---------------------------------------------------------------------------
// Validation.
// ---------------------------------------------------------------------------
/// A value rejected by the schema for one parameter.
#[derive(Debug, Clone, Copy, PartialEq, Eq, Structural)]
pub struct ValidationError {
    pub param: Param,
}

/// The validation rule of each parameter, over the raw fixed-point
/// value: multipliers and ratios are unconstrained; the DPI, decay
/// rate, gamma and synchronous speed must be positive; offsets must be
/// non-negative; the limit is at least one; the smoothing factor lies
/// in the unit interval; the motivity exceeds one.
pub open spec fn spec_validate_ok(p: Param, v: int) -> bool {
    match p {
        Param::SensMult => true,
        Param::YxRatio => true,
        Param::InputDpi => v > 0,
        Param::Accel => true,
        Param::OutputCap => true,
        Param::OffsetLinear => v >= 0,
        Param::OffsetNatural => v >= 0,
        Param::DecayRate => v > 0,
        Param::Limit => v >= SCALE,
        Param::Gamma => v > 0,
        Param::Smooth => 0 <= v <= SCALE,
        Param::Motivity => v > SCALE,
        Param::SyncSpeed => v > 0,
    }
}

/// Check a value against the schema rule of its parameter, without
/// touching any store.  Succeeds exactly on values the rule allows.
pub fn validate(param: Param, value: Fpt) -> (r: Result<(), ValidationError>)
    ensures
        match r {
            Ok(_) => spec_validate_ok(param, value.0 as int),
            Err(e) => !spec_validate_ok(param, value.0 as int) && e.param == param,
        },
{
    let ok = match param {
        Param::SensMult => true,
        Param::YxRatio => true,
        Param::InputDpi => value.0 > 0,
        Param::Accel => true,
        Param::OutputCap => true,
        Param::OffsetLinear => value.0 >= 0,
        Param::OffsetNatural => value.0 >= 0,
        Param::DecayRate => value.0 > 0,
        Param::Limit => value.0 >= SCALE,
        Param::Gamma => value.0 > 0,
        Param::Smooth => 0 <= value.0 && value.0 <= SCALE,
        Param::Motivity => value.0 > SCALE,
        Param::SyncSpeed => value.0 > 0,
    };
    if ok {
        Ok(())
    } else {
        Err(ValidationError { param })
    }
}

} // verus!
