//! The parameter store: validated reads and writes of the driver's
//! stored values.
//!
//! [`ParamStore`] is the interface; [`MemStore`] is a verified in-memory
//! implementation holding the driver's twelve stored values, used by
//! tests and by anything that wants the store semantics without the
//! privileged file tree.  The functions at the end speak the file
//! protocol itself: the raw integer text in the parameter files, and the
//! reset-script text written after each successful write.
//!
//! A store is modelled by a map from value slots (see
//! [`crate::params::spec_slot`]) to fixed-point values, plus the current
//! mode.  Batch setters apply a whole group in its declared order and
//! attempt every member even after a failure, reporting the first error.

use crate::fixed::{
    all_digits, dec_digits, digits_val, is_digit, is_minus, lemma_dec_digits_props,
    lemma_digits_val_bounds, lemma_digits_val_push, push_digits, Fpt,
};
use crate::params::{
    mode_from_ordinal, spec_mode_from_ordinal, spec_name, spec_ordinal, spec_slot,
    spec_validate_ok, validate, AccelMode, Param, NUM_SLOTS,
};
use vstd::prelude::*;
use vstd::string::StringExecFns;

verus! {

/// Why a store operation failed.
#[derive(Debug, Clone, Copy, PartialEq, Eq, Structural)]
pub enum StoreError {
    /// The backing path is absent: the driver is not loaded.
    Unavailable,
    /// Reading or writing failed at the system level.
    Io,
    /// Writing was refused for lack of privilege.
    WritePermission,
    /// The text at the backing path could not be read as a number.
    Malformed,
    /// The value was rejected by schema validation; no write was tried.
    Invalid,
    /// The parameter is not held by this context.
    UnknownParameter,
}

/// Where parameter values live.  An implementation maps each value slot
/// to a fixed-point value and holds a current mode, and says through the
/// acceptance predicates which operations its backing would let through
/// right now (a missing or unwritable file, a tripped failure switch).
/// `set` validates before any write and reports `Invalid` without
/// touching anything; it succeeds exactly on valid, accepted writes; a
/// failed operation leaves the store as it was; store operations never
/// change what the store accepts; setting the mode touches no parameter.
pub trait ParamStore: Sized {
    /// The stored value of each slot.
    open spec fn param_vals(&self) -> Map<int, Fpt> {
        arbitrary()
    }

    /// The stored mode.
    open spec fn mode_val(&self) -> AccelMode {
        arbitrary()
    }

    /// Whether the backing would let a write of this parameter through.
    open spec fn accepts_set(&self, param: Param) -> bool {
        arbitrary()
    }

    /// Whether the backing would let a read of this parameter through.
    open spec fn accepts_get(&self, param: Param) -> bool {
        arbitrary()
    }

    /// Whether the backing would let mode reads and writes through.
    open spec fn accepts_mode(&self) -> bool {
        arbitrary()
    }

    /// Validated write of one parameter.
    fn set(&mut self, param: Param, value: Fpt) -> (r: Result<(), StoreError>)
        ensures
            r is Ok <==> spec_validate_ok(param, value.0 as int) && old(self).accepts_set(param),
            r is Ok ==> final(self).param_vals() == old(self).param_vals().insert(
                spec_slot(param),
                value,
            ) && final(self).mode_val() == old(self).mode_val(),
            r is Err ==> final(self).param_vals() == old(self).param_vals()
                && final(self).mode_val() == old(self).mode_val(),
            !spec_validate_ok(param, value.0 as int) ==> r == Err::<(), StoreError>(
                StoreError::Invalid,
            ),
            forall|q: Param| final(self).accepts_set(q) == old(self).accepts_set(q),
            forall|q: Param| final(self).accepts_get(q) == old(self).accepts_get(q),
            final(self).accepts_mode() == old(self).accepts_mode(),
    ;

    /// Read of one parameter.
    fn get(&self, param: Param) -> (r: Result<Fpt, StoreError>)
        ensures
            r is Ok <==> self.accepts_get(param),
            r matches Ok(v) ==> self.param_vals().contains_key(spec_slot(param)) && v
                == self.param_vals()[spec_slot(param)],
    ;

    /// Set the current acceleration mode.
    fn set_current_accel_mode(&mut self, mode: AccelMode) -> (r: Result<(), StoreError>)
        ensures
            r is Ok <==> old(self).accepts_mode(),
            r is Ok ==> final(self).mode_val() == mode
                && final(self).param_vals() == old(self).param_vals(),
            r is Err ==> final(self).mode_val() == old(self).mode_val() && final(self).param_vals()
                == old(self).param_vals(),
            forall|q: Param| final(self).accepts_set(q) == old(self).accepts_set(q),
            forall|q: Param| final(self).accepts_get(q) == old(self).accepts_get(q),
            final(self).accepts_mode() == old(self).accepts_mode(),
    ;

    /// Read the current acceleration mode.
    fn get_current_accel_mode(&self) -> (r: Result<AccelMode, StoreError>)
        ensures
            r is Ok <==> self.accepts_mode(),
            r matches Ok(m) ==> m == self.mode_val(),
    ;
}

/// Whether two store states accept exactly the same operations.
pub open spec fn same_acceptance<S: ParamStore>(a: &S, b: &S) -> bool {
    &&& forall|p: Param| a.accepts_set(p) == b.accepts_set(p)
    &&& forall|p: Param| a.accepts_get(p) == b.accepts_get(p)
    &&& a.accepts_mode() == b.accepts_mode()
}

/// Whether a write of `value` into `param` would go through on `store`:
/// the value passes validation and the backing accepts the write.
pub open spec fn would_write<S: ParamStore>(store: &S, param: Param, value: Fpt) -> bool {
    spec_validate_ok(param, value.0 as int) && store.accepts_set(param)
}

// ---------------------------------------------------------------------------
// The in-memory store.
// ---------------------------------------------------------------------------
/// An in-memory [`ParamStore`]: the driver's twelve stored values and a
/// stored mode ordinal.  Each slot carries two failure switches so that
/// tests can make a read or a write fail the way the privileged files
/// can.
#[derive(Debug)]
pub struct MemStore {
    values: Vec<Fpt>,
    fail_get: Vec<bool>,
    fail_set: Vec<bool>,
    mode_ord: u64,
}

impl MemStore {
    #[verifier::type_invariant]
    closed spec fn wf(self) -> bool {
        self.values@.len() == NUM_SLOTS && self.fail_get@.len() == NUM_SLOTS
            && self.fail_set@.len() == NUM_SLOTS
    }

    /// A fresh store: every value zero, mode ordinal zero, nothing set
    /// to fail.
    pub fn new() -> (r: MemStore)
        ensures
            forall|i: int|
                0 <= i < NUM_SLOTS ==> r.param_vals().contains_key(i) && r.param_vals()[i] == Fpt(
                    0,
                ),
            r.mode_val() == AccelMode::Linear,
            forall|p: Param| r.accepts_set(p) && r.accepts_get(p),
            r.accepts_mode(),
    {
        let mut values: Vec<Fpt> = Vec::new();
        let mut fail_get: Vec<bool> = Vec::new();
        let mut fail_set: Vec<bool> = Vec::new();
        let mut i: usize = 0;
        while i < NUM_SLOTS
            invariant
                i <= NUM_SLOTS,
                values@.len() == i,
                fail_get@.len() == i,
                fail_set@.len() == i,
                forall|j: int| 0 <= j < i ==> values@[j] == Fpt(0),
                forall|j: int| 0 <= j < i ==> !fail_get@[j] && !fail_set@[j],
            decreases NUM_SLOTS - i,
        {
            values.push(Fpt(0));
            fail_get.push(false);
            fail_set.push(false);
            i = i + 1;
        }
        MemStore { values, fail_get, fail_set, mode_ord: 0 }
    }

    /// Write a slot directly, without validation: what the driver itself
    /// does when it resets a value, and what tests use to lay out a
    /// starting state.
    pub fn seed(&mut self, param: Param, value: Fpt)
        ensures
            final(self).param_vals() == old(self).param_vals().insert(spec_slot(param), value),
            final(self).mode_val() == old(self).mode_val(),
            same_acceptance(old(self), final(self)),
    {
        proof {
            use_type_invariant(&*self);
        }
        let s = param.slot();
        self.values[s] = value;
        proof {
            assert(final(self).param_vals() =~= old(self).param_vals().insert(
                spec_slot(param),
                value,
            ));
        }
    }

    /// Make every later read of this parameter fail, or stop it failing.
    /// The two offsets share one stored value, so the switch covers both.
    pub fn set_fail_get(&mut self, param: Param, fail: bool)
        ensures
            final(self).param_vals() == old(self).param_vals(),
            final(self).mode_val() == old(self).mode_val(),
            forall|q: Param|
                final(self).accepts_get(q) == if spec_slot(q) == spec_slot(param) {
                    !fail
                } else {
                    old(self).accepts_get(q)
                },
            forall|q: Param| final(self).accepts_set(q) == old(self).accepts_set(q),
            final(self).accepts_mode() == old(self).accepts_mode(),
    {
        proof {
            use_type_invariant(&*self);
        }
        let s = param.slot();
        self.fail_get[s] = fail;
        proof {
            assert(final(self).param_vals() =~= old(self).param_vals());
        }
    }

    /// Make every later write of this parameter fail, or stop it failing.
    /// The two offsets share one stored value, so the switch covers both.
    pub fn set_fail_set(&mut self, param: Param, fail: bool)
        ensures
            final(self).param_vals() == old(self).param_vals(),
            final(self).mode_val() == old(self).mode_val(),
            forall|q: Param|
                final(self).accepts_set(q) == if spec_slot(q) == spec_slot(param) {
                    !fail
                } else {
                    old(self).accepts_set(q)
                },
            forall|q: Param| final(self).accepts_get(q) == old(self).accepts_get(q),
            final(self).accepts_mode() == old(self).accepts_mode(),
    {
        proof {
            use_type_invariant(&*self);
        }
        let s = param.slot();
        self.fail_set[s] = fail;
        proof {
            assert(final(self).param_vals() =~= old(self).param_vals());
        }
    }

    /// Store a raw mode ordinal, as another driver version might have
    /// left it; reads wrap it into the mode set.
    pub fn seed_mode_ordinal(&mut self, ord: u64)
        ensures
            final(self).param_vals() == old(self).param_vals(),
            final(self).mode_val() == spec_mode_from_ordinal(ord as int),
            same_acceptance(old(self), final(self)),
    {
        proof {
            use_type_invariant(&*self);
        }
        self.mode_ord = ord;
        proof {
            assert(final(self).param_vals() =~= old(self).param_vals());
        }
    }
}

impl ParamStore for MemStore {
    closed spec fn param_vals(&self) -> Map<int, Fpt> {
        Map::new(|i: int| 0 <= i < NUM_SLOTS, |i: int| self.values@[i])
    }

    closed spec fn mode_val(&self) -> AccelMode {
        spec_mode_from_ordinal(self.mode_ord as int)
    }

    closed spec fn accepts_set(&self, param: Param) -> bool {
        !self.fail_set@[spec_slot(param)]
    }

    closed spec fn accepts_get(&self, param: Param) -> bool {
        !self.fail_get@[spec_slot(param)]
    }

    closed spec fn accepts_mode(&self) -> bool {
        true
    }

    fn set(&mut self, param: Param, value: Fpt) -> (r: Result<(), StoreError>) {
        proof {
            use_type_invariant(&*self);
        }
        match validate(param, value) {
            Err(_) => Err(StoreError::Invalid),
            Ok(_) => {
                let s = param.slot();
                if self.fail_set[s] {
                    Err(StoreError::Io)
                } else {
                    self.values[s] = value;
                    proof {
                        assert(self.param_vals() =~= old(self).param_vals().insert(
                            spec_slot(param),
                            value,
                        ));
                    }
                    Ok(())
                }
            },
        }
    }

    fn get(&self, param: Param) -> (r: Result<Fpt, StoreError>) {
        proof {
            use_type_invariant(self);
        }
        let s = param.slot();
        if self.fail_get[s] {
            Err(StoreError::Unavailable)
        } else {
            Ok(self.values[s])
        }
    }

    fn set_current_accel_mode(&mut self, mode: AccelMode) -> (r: Result<(), StoreError>) {
        proof {
            use_type_invariant(&*self);
        }
        self.mode_ord = mode.ordinal() as u64;
        proof {
            assert(self.param_vals() =~= old(self).param_vals());
        }
        Ok(())
    }

    fn get_current_accel_mode(&self) -> (r: Result<AccelMode, StoreError>) {
        Ok(mode_from_ordinal(self.mode_ord))
    }
}

// ---------------------------------------------------------------------------
// Batch setters: one per parameter group, applied in declared order,
// every member attempted, the first failure reported.
// ---------------------------------------------------------------------------
/// The common parameters and their values, for setting in bulk.
#[derive(Debug, Clone, Copy, PartialEq, Eq, Structural)]
pub struct CommonParamArgs {
    pub sens_mult: Fpt,
    pub yx_ratio: Fpt,
    pub input_dpi: Fpt,
}

/// The linear curve's parameters and their values, for setting in bulk.
#[derive(Debug, Clone, Copy, PartialEq, Eq, Structural)]
pub struct LinearParamArgs {
    pub accel: Fpt,
    pub offset_linear: Fpt,
    pub output_cap: Fpt,
}

/// The natural curve's parameters and their values, for setting in bulk.
#[derive(Debug, Clone, Copy, PartialEq, Eq, Structural)]
pub struct NaturalParamArgs {
    pub decay_rate: Fpt,
    pub offset_natural: Fpt,
    pub limit: Fpt,
}

/// The synchronous curve's parameters and their values, for setting in
/// bulk.
#[derive(Debug, Clone, Copy, PartialEq, Eq, Structural)]
pub struct SynchronousParamArgs {
    pub gamma: Fpt,
    pub smooth: Fpt,
    pub motivity: Fpt,
    pub sync_speed: Fpt,
}

/// The store map after a write that may or may not have happened.
pub open spec fn cond_insert(m: Map<int, Fpt>, written: bool, slot: int, v: Fpt) -> Map<int, Fpt> {
    if written {
        m.insert(slot, v)
    } else {
        m
    }
}

/// Set the three common parameters in declared order.  Every one is
/// attempted whatever happened to the ones before it; the result is the
/// first failure, and success means all three were written.
pub fn set_all_common<S: ParamStore>(store: &mut S, args: CommonParamArgs) -> (r: Result<
    (),
    StoreError,
>)
    ensures
        final(store).mode_val() == old(store).mode_val(),
        same_acceptance(old(store), final(store)),
        final(store).param_vals() == cond_insert(
            cond_insert(
                cond_insert(
                    old(store).param_vals(),
                    would_write(old(store), Param::SensMult, args.sens_mult),
                    spec_slot(Param::SensMult),
                    args.sens_mult,
                ),
                would_write(old(store), Param::YxRatio, args.yx_ratio),
                spec_slot(Param::YxRatio),
                args.yx_ratio,
            ),
            would_write(old(store), Param::InputDpi, args.input_dpi),
            spec_slot(Param::InputDpi),
            args.input_dpi,
        ),
        r is Ok <==> would_write(old(store), Param::SensMult, args.sens_mult) && would_write(
            old(store),
            Param::YxRatio,
            args.yx_ratio,
        ) && would_write(old(store), Param::InputDpi, args.input_dpi),
        r is Ok ==> final(store).param_vals() == old(store).param_vals().insert(
            spec_slot(Param::SensMult),
            args.sens_mult,
        ).insert(spec_slot(Param::YxRatio), args.yx_ratio).insert(
            spec_slot(Param::InputDpi),
            args.input_dpi,
        ),
{
    let r0 = store.set(Param::SensMult, args.sens_mult);
    let ghost m1 = store.param_vals();
    let r1 = store.set(Param::YxRatio, args.yx_ratio);
    let ghost m2 = store.param_vals();
    let r2 = store.set(Param::InputDpi, args.input_dpi);
    let r = if r0.is_err() {
        r0
    } else if r1.is_err() {
        r1
    } else {
        r2
    };
    proof {
        assert(r0 is Ok <==> would_write(old(store), Param::SensMult, args.sens_mult));
        assert(r1 is Ok <==> would_write(old(store), Param::YxRatio, args.yx_ratio));
        assert(r2 is Ok <==> would_write(old(store), Param::InputDpi, args.input_dpi));
        assert(m1 == cond_insert(old(store).param_vals(), r0 is Ok, spec_slot(Param::SensMult), args.sens_mult));
        assert(m2 == cond_insert(m1, r1 is Ok, spec_slot(Param::YxRatio), args.yx_ratio));
        assert(store.param_vals() == cond_insert(m2, r2 is Ok, spec_slot(Param::InputDpi), args.input_dpi));
    }
    r
}

/// Set the linear curve's three parameters in declared order, every one
/// attempted, the first failure reported.
pub fn set_all_linear<S: ParamStore>(store: &mut S, args: LinearParamArgs) -> (r: Result<
    (),
    StoreError,
>)
    ensures
        final(store).mode_val() == old(store).mode_val(),
        same_acceptance(old(store), final(store)),
        final(store).param_vals() == cond_insert(
            cond_insert(
                cond_insert(
                    old(store).param_vals(),
                    would_write(old(store), Param::Accel, args.accel),
                    spec_slot(Param::Accel),
                    args.accel,
                ),
                would_write(old(store), Param::OffsetLinear, args.offset_linear),
                spec_slot(Param::OffsetLinear),
                args.offset_linear,
            ),
            would_write(old(store), Param::OutputCap, args.output_cap),
            spec_slot(Param::OutputCap),
            args.output_cap,
        ),
        r is Ok <==> would_write(old(store), Param::Accel, args.accel) && would_write(
            old(store),
            Param::OffsetLinear,
            args.offset_linear,
        ) && would_write(old(store), Param::OutputCap, args.output_cap),
        r is Ok ==> final(store).param_vals() == old(store).param_vals().insert(
            spec_slot(Param::Accel),
            args.accel,
        ).insert(spec_slot(Param::OffsetLinear), args.offset_linear).insert(
            spec_slot(Param::OutputCap),
            args.output_cap,
        ),
{
    let r0 = store.set(Param::Accel, args.accel);
    let ghost m1 = store.param_vals();
    let r1 = store.set(Param::OffsetLinear, args.offset_linear);
    let ghost m2 = store.param_vals();
    let r2 = store.set(Param::OutputCap, args.output_cap);
    let r = if r0.is_err() {
        r0
    } else if r1.is_err() {
        r1
    } else {
        r2
    };
    proof {
        assert(r0 is Ok <==> would_write(old(store), Param::Accel, args.accel));
        assert(r1 is Ok <==> would_write(old(store), Param::OffsetLinear, args.offset_linear));
        assert(r2 is Ok <==> would_write(old(store), Param::OutputCap, args.output_cap));
        assert(m1 == cond_insert(old(store).param_vals(), r0 is Ok, spec_slot(Param::Accel), args.accel));
        assert(m2 == cond_insert(m1, r1 is Ok, spec_slot(Param::OffsetLinear), args.offset_linear));
        assert(store.param_vals() == cond_insert(m2, r2 is Ok, spec_slot(Param::OutputCap), args.output_cap));
    }
    r
}

/// Set the natural curve's three parameters in declared order, every
/// one attempted, the first failure reported.
pub fn set_all_natural<S: ParamStore>(store: &mut S, args: NaturalParamArgs) -> (r: Result<
    (),
    StoreError,
>)
    ensures
        final(store).mode_val() == old(store).mode_val(),
        same_acceptance(old(store), final(store)),
        final(store).param_vals() == cond_insert(
            cond_insert(
                cond_insert(
                    old(store).param_vals(),
                    would_write(old(store), Param::DecayRate, args.decay_rate),
                    spec_slot(Param::DecayRate),
                    args.decay_rate,
                ),
                would_write(old(store), Param::OffsetNatural, args.offset_natural),
                spec_slot(Param::OffsetNatural),
                args.offset_natural,
            ),
            would_write(old(store), Param::Limit, args.limit),
            spec_slot(Param::Limit),
            args.limit,
        ),
        r is Ok <==> would_write(old(store), Param::DecayRate, args.decay_rate) && would_write(
            old(store),
            Param::OffsetNatural,
            args.offset_natural,
        ) && would_write(old(store), Param::Limit, args.limit),
        r is Ok ==> final(store).param_vals() == old(store).param_vals().insert(
            spec_slot(Param::DecayRate),
            args.decay_rate,
        ).insert(spec_slot(Param::OffsetNatural), args.offset_natural).insert(
            spec_slot(Param::Limit),
            args.limit,
        ),
{
    let r0 = store.set(Param::DecayRate, args.decay_rate);
    let ghost m1 = store.param_vals();
    let r1 = store.set(Param::OffsetNatural, args.offset_natural);
    let ghost m2 = store.param_vals();
    let r2 = store.set(Param::Limit, args.limit);
    let r = if r0.is_err() {
        r0
    } else if r1.is_err() {
        r1
    } else {
        r2
    };
    proof {
        assert(r0 is Ok <==> would_write(old(store), Param::DecayRate, args.decay_rate));
        assert(r1 is Ok <==> would_write(old(store), Param::OffsetNatural, args.offset_natural));
        assert(r2 is Ok <==> would_write(old(store), Param::Limit, args.limit));
        assert(m1 == cond_insert(old(store).param_vals(), r0 is Ok, spec_slot(Param::DecayRate), args.decay_rate));
        assert(m2 == cond_insert(m1, r1 is Ok, spec_slot(Param::OffsetNatural), args.offset_natural));
        assert(store.param_vals() == cond_insert(m2, r2 is Ok, spec_slot(Param::Limit), args.limit));
    }
    r
}

/// Set the synchronous curve's four parameters in declared order, every
/// one attempted, the first failure reported.
pub fn set_all_synchronous<S: ParamStore>(store: &mut S, args: SynchronousParamArgs) -> (r: Result<
    (),
    StoreError,
>)
    ensures
        final(store).mode_val() == old(store).mode_val(),
        same_acceptance(old(store), final(store)),
        final(store).param_vals() == cond_insert(
            cond_insert(
                cond_insert(
                    cond_insert(
                        old(store).param_vals(),
                        would_write(old(store), Param::Gamma, args.gamma),
                        spec_slot(Param::Gamma),
                        args.gamma,
                    ),
                    would_write(old(store), Param::Smooth, args.smooth),
                    spec_slot(Param::Smooth),
                    args.smooth,
                ),
                would_write(old(store), Param::Motivity, args.motivity),
                spec_slot(Param::Motivity),
                args.motivity,
            ),
            would_write(old(store), Param::SyncSpeed, args.sync_speed),
            spec_slot(Param::SyncSpeed),
            args.sync_speed,
        ),
        r is Ok <==> would_write(old(store), Param::Gamma, args.gamma) && would_write(
            old(store),
            Param::Smooth,
            args.smooth,
        ) && would_write(old(store), Param::Motivity, args.motivity) && would_write(
            old(store),
            Param::SyncSpeed,
            args.sync_speed,
        ),
        r is Ok ==> final(store).param_vals() == old(store).param_vals().insert(
            spec_slot(Param::Gamma),
            args.gamma,
        ).insert(spec_slot(Param::Smooth), args.smooth).insert(
            spec_slot(Param::Motivity),
            args.motivity,
        ).insert(spec_slot(Param::SyncSpeed), args.sync_speed),
{
    let r0 = store.set(Param::Gamma, args.gamma);
    let ghost m1 = store.param_vals();
    let r1 = store.set(Param::Smooth, args.smooth);
    let ghost m2 = store.param_vals();
    let r2 = store.set(Param::Motivity, args.motivity);
    let ghost m3 = store.param_vals();
    let r3 = store.set(Param::SyncSpeed, args.sync_speed);
    let r = if r0.is_err() {
        r0
    } else if r1.is_err() {
        r1
    } else if r2.is_err() {
        r2
    } else {
        r3
    };
    proof {
        assert(r0 is Ok <==> would_write(old(store), Param::Gamma, args.gamma));
        assert(r1 is Ok <==> would_write(old(store), Param::Smooth, args.smooth));
        assert(r2 is Ok <==> would_write(old(store), Param::Motivity, args.motivity));
        assert(r3 is Ok <==> would_write(old(store), Param::SyncSpeed, args.sync_speed));
        assert(m1 == cond_insert(old(store).param_vals(), r0 is Ok, spec_slot(Param::Gamma), args.gamma));
        assert(m2 == cond_insert(m1, r1 is Ok, spec_slot(Param::Smooth), args.smooth));
        assert(m3 == cond_insert(m2, r2 is Ok, spec_slot(Param::Motivity), args.motivity));
        assert(store.param_vals() == cond_insert(m3, r3 is Ok, spec_slot(Param::SyncSpeed), args.sync_speed));
    }
    r
}

// ---------------------------------------------------------------------------
// The file protocol: raw integer text and reset scripts.
// ---------------------------------------------------------------------------
/// The raw integer text of a fixed-point value: what a parameter file
/// holds.
pub open spec fn spec_raw_text(v: int) -> Seq<char> {
    if v < 0 {
        seq!['-'] + dec_digits(-v)
    } else {
        dec_digits(v)
    }
}

/// Whitespace accepted around the stored integer when reading it back.
pub open spec fn is_space(c: char) -> bool {
    c as u32 == 32 || c as u32 == 9 || c as u32 == 10 || c as u32 == 13
}

/// `s` without its leading whitespace.
pub open spec fn strip_leading(s: Seq<char>) -> Seq<char>
    decreases s.len(),
{
    if s.len() > 0 && is_space(s[0]) {
        strip_leading(s.drop_first())
    } else {
        s
    }
}

/// `s` without its trailing whitespace.
pub open spec fn strip_trailing(s: Seq<char>) -> Seq<char>
    decreases s.len(),
{
    if s.len() > 0 && is_space(s.last()) {
        strip_trailing(s.drop_last())
    } else {
        s
    }
}

/// `s` without whitespace at either end.
pub open spec fn spec_trimmed(s: Seq<char>) -> Seq<char> {
    strip_trailing(strip_leading(s))
}

/// Whether trimmed text is a raw integer: an optional minus, then at
/// least one digit.
pub open spec fn wf_raw(t: Seq<char>) -> bool {
    if t.len() > 0 && is_minus(t[0]) {
        t.len() >= 2 && all_digits(t.skip(1))
    } else {
        t.len() >= 1 && all_digits(t)
    }
}

/// The integer a well-formed raw text denotes.
pub open spec fn raw_val(t: Seq<char>) -> int {
    if t.len() > 0 && is_minus(t[0]) {
        -digits_val(t.skip(1))
    } else {
        digits_val(t)
    }
}

/// What reading a parameter file's text yields: the integer between
/// the whitespace, if there is one and it fits a signed 64-bit value.
pub open spec fn spec_decode_raw(s: Seq<char>) -> Option<int> {
    let t = spec_trimmed(s);
    if wf_raw(t) && i64::MIN <= raw_val(t) <= i64::MAX {
        Some(raw_val(t))
    } else {
        None
    }
}

/// Write the raw integer text of a value, as the parameter file
/// protocol wants it.
pub fn encode_param_text(value: Fpt) -> (r: String)
    ensures
        r@ == spec_raw_text(value.0 as int),
{
    let mut out = String::new();
    if value.0 < 0 {
        proof {
            reveal_strlit("-");
        }
        out.append("-");
        let a: u64 = (-(value.0 as i128)) as u64;
        push_digits(a, &mut out);
        proof {
            assert(out@ =~= spec_raw_text(value.0 as int));
        }
    } else {
        push_digits(value.0 as u64, &mut out);
        proof {
            assert(out@ =~= spec_raw_text(value.0 as int));
        }
    }
    out
}

proof fn lemma_strip_leading_at(s: Seq<char>, k: int)
    requires
        0 <= k <= s.len(),
        forall|i: int| 0 <= i < k ==> is_space(#[trigger] s[i]),
        k == s.len() || !is_space(s[k]),
    ensures
        strip_leading(s) == s.skip(k),
    decreases k,
{
    if k == 0 {
        assert(s.skip(0) =~= s);
    } else {
        assert(is_space(s[0]));
        lemma_strip_leading_at(s.drop_first(), k - 1);
        assert(s.drop_first().skip(k - 1) =~= s.skip(k));
    }
}

proof fn lemma_strip_trailing_at(s: Seq<char>, j: int)
    requires
        0 <= j <= s.len(),
        forall|i: int| j <= i < s.len() ==> is_space(#[trigger] s[i]),
        j == 0 || !is_space(s[j - 1]),
    ensures
        strip_trailing(s) == s.take(j),
    decreases s.len(),
{
    if j == s.len() {
        assert(s.take(j) =~= s);
    } else {
        assert(is_space(s.last()));
        lemma_strip_trailing_at(s.drop_last(), j);
        assert(s.drop_last().take(j) =~= s.take(j));
    }
}

/// Read a parameter file's text back into a fixed-point value.
/// Fails with `Malformed` exactly when the text between the whitespace
/// is not an integer, or does not fit.
#[verifier::rlimit(60)]
pub fn decode_param_text(s: &str) -> (r: Result<Fpt, StoreError>)
    ensures
        match r {
            Ok(v) => spec_decode_raw(s@) == Some(v.0 as int),
            Err(e) => e == StoreError::Malformed && spec_decode_raw(s@) is None,
        },
{
    let n = s.unicode_len();
    let mut lo: usize = 0;
    while lo < n
        invariant
            lo <= n,
            n == s@.len(),
            forall|i: int| 0 <= i < lo ==> is_space(#[trigger] s@[i]),
        ensures
            lo <= n,
            forall|i: int| 0 <= i < lo ==> is_space(#[trigger] s@[i]),
            lo == n || !is_space(s@[lo as int]),
        decreases n - lo,
    {
        let c = s.get_char(lo);
        let u = c as u32;
        if !(u == 32 || u == 9 || u == 10 || u == 13) {
            break;
        }
        lo = lo + 1;
    }
    let mut hi: usize = n;
    while hi > lo
        invariant
            lo <= hi <= n,
            n == s@.len(),
            forall|i: int| hi <= i < n ==> is_space(#[trigger] s@[i]),
        ensures
            lo <= hi <= n,
            forall|i: int| hi <= i < n ==> is_space(#[trigger] s@[i]),
            hi == lo || !is_space(s@[hi - 1]),
        decreases hi,
    {
        let c = s.get_char(hi - 1);
        let u = c as u32;
        if !(u == 32 || u == 9 || u == 10 || u == 13) {
            break;
        }
        hi = hi - 1;
    }
    let ghost t = s@.subrange(lo as int, hi as int);
    proof {
        lemma_strip_leading_at(s@, lo as int);
        assert forall|i: int| (hi - lo) <= i < s@.skip(lo as int).len() implies is_space(
            #[trigger] s@.skip(lo as int)[i],
        ) by {
            assert(s@.skip(lo as int)[i] == s@[lo + i]);
        }
        lemma_strip_trailing_at(s@.skip(lo as int), (hi - lo) as int);
        assert(s@.skip(lo as int).take((hi - lo) as int) =~= t);
        assert(spec_trimmed(s@) == t);
    }
    if lo == hi {
        return Err(StoreError::Malformed);
    }
    let c0 = s.get_char(lo);
    let neg = c0 as u32 == 45;
    let ds: usize = if neg {
        lo + 1
    } else {
        lo
    };
    proof {
        if neg {
            assert(t.skip(1) =~= s@.subrange(ds as int, hi as int));
        } else {
            assert(t =~= s@.subrange(ds as int, hi as int));
        }
    }
    if ds == hi {
        // A bare minus sign.
        return Err(StoreError::Malformed);
    }
    let mut mag: u64 = 0;
    let mut ovf: bool = false;
    let mut i: usize = ds;
    while i < hi
        invariant
            ds <= i <= hi <= n,
            n == s@.len(),
            lo <= ds <= hi,
            lo < hi,
            t == s@.subrange(lo as int, hi as int),
            spec_trimmed(s@) == t,
            neg <==> is_minus(s@[lo as int]),
            ds == if neg { lo + 1 } else { lo as int },
            neg ==> t.skip(1) == s@.subrange(ds as int, hi as int),
            !neg ==> t == s@.subrange(ds as int, hi as int),
            all_digits(s@.subrange(ds as int, i as int)),
            !ovf ==> mag as int == digits_val(s@.subrange(ds as int, i as int)) && mag
                <= 0x8000_0000_0000_0000,
            ovf ==> digits_val(s@.subrange(ds as int, i as int)) > 0x8000_0000_0000_0000,
        decreases hi - i,
    {
        let c = s.get_char(i);
        let cv = c as u32;
        if cv < 48 || cv > 57 {
            proof {
                let sub = s@.subrange(ds as int, hi as int);
                let j = i - ds;
                assert(sub[j] == s@[i as int]);
                assert(!all_digits(sub));
            }
            return Err(StoreError::Malformed);
        }
        let dg = (cv - 48) as u64;
        proof {
            let pre = s@.subrange(ds as int, i as int);
            assert(s@.subrange(ds as int, i as int + 1) =~= pre.push(s@[i as int]));
            lemma_digits_val_push(pre, s@[i as int]);
            lemma_digits_val_bounds(pre);
        }
        if !ovf {
            if mag > 922337203685477580 {
                ovf = true;
            } else {
                let nv = mag * 10 + dg;
                if nv > 0x8000_0000_0000_0000 {
                    ovf = true;
                } else {
                    mag = nv;
                }
            }
        }
        i = i + 1;
    }
    proof {
        if neg {
            assert(t.skip(1) == s@.subrange(ds as int, hi as int));
        } else {
            assert(t == s@.subrange(ds as int, hi as int));
        }
        assert(wf_raw(t));
    }
    if ovf {
        return Err(StoreError::Malformed);
    }
    if neg {
        let v128: i128 = -(mag as i128);
        let v = v128 as i64;
        Ok(Fpt(v))
    } else {
        if mag > 0x7fff_ffff_ffff_ffff {
            return Err(StoreError::Malformed);
        }
        Ok(Fpt(mag as i64))
    }
}

/// Encoding a value and reading it back yields the value itself: the
/// round-trip law of the raw file protocol.
pub proof fn lemma_raw_round_trip(v: int)
    requires
        i64::MIN <= v <= i64::MAX,
    ensures
        spec_decode_raw(spec_raw_text(v)) == Some(v),
{
    let t = spec_raw_text(v);
    let a = if v < 0 {
        -v
    } else {
        v
    };
    lemma_dec_digits_props(a);
    if v < 0 {
        assert(t[0] == '-');
        assert(t.skip(1) =~= dec_digits(a));
        assert('-' as u32 == 45);
    } else {
        assert(t[0] == dec_digits(a)[0]);
        assert(is_digit(t[0]));
    }
    assert(!is_space(t[0]));
    assert(is_digit(t.last()));
    assert(!is_space(t.last()));
    assert(strip_leading(t) == t);
    assert(strip_trailing(t) == t);
    assert(wf_raw(t));
    assert(raw_val(t) == v);
}

/// The reset script for one parameter: a single line that reissues the
/// last written value on the next boot.
pub open spec fn spec_reset_script(p: Param, v: int) -> Seq<char> {
    "echo "@ + spec_raw_text(v) + " > /sys/module/maccel/parameters/"@ + spec_name(p) + ";"@
}

/// Build the reset script written after every successful parameter
/// write.
pub fn reset_script_contents(param: Param, value: Fpt) -> (r: String)
    ensures
        r@ == spec_reset_script(param, value.0 as int),
{
    let mut out = String::new();
    out.append("echo ");
    let num = encode_param_text(value);
    out.append(num.as_str());
    out.append(" > /sys/module/maccel/parameters/");
    out.append(param.name());
    out.append(";");
    proof {
        assert(out@ =~= spec_reset_script(param, value.0 as int));
    }
    out
}

/// The reset script that restores the current mode on the next boot.
pub open spec fn spec_mode_reset_script(m: AccelMode) -> Seq<char> {
    "echo "@ + spec_raw_text(spec_ordinal(m)) + " > /sys/module/maccel/parameters/MODE;"@
}

/// Build the reset script written after a successful mode change.
pub fn mode_reset_script_contents(mode: AccelMode) -> (r: String)
    ensures
        r@ == spec_mode_reset_script(mode),
{
    let mut out = String::new();
    out.append("echo ");
    let num = encode_param_text(Fpt(mode.ordinal()));
    out.append(num.as_str());
    out.append(" > /sys/module/maccel/parameters/MODE;");
    proof {
        assert(out@ =~= spec_mode_reset_script(mode));
    }
    out
}

/// Read the mode file's text: a non-negative integer no larger than a
/// byte, wrapped into the mode set.
pub fn decode_mode_text(s: &str) -> (r: Result<AccelMode, StoreError>)
    ensures
        match r {
            Ok(m) => spec_decode_raw(s@) matches Some(n) && 0 <= n <= 255 && m
                == spec_mode_from_ordinal(n),
            Err(e) => e == StoreError::Malformed && (match spec_decode_raw(s@) {
                Some(n) => !(0 <= n <= 255),
                None => true,
            }),
        },
{
    match decode_param_text(s) {
        Err(_) => Err(StoreError::Malformed),
        Ok(v) => {
            if v.0 < 0 || v.0 > 255 {
                Err(StoreError::Malformed)
            } else {
                Ok(mode_from_ordinal(v.0 as u64))
            }
        },
    }
}

} // verus!
