use maccel_core::fixed::Fpt;
use maccel_core::params::{mode_from_ordinal, validate, AccelMode, Param};

fn fpt(x: f64) -> Fpt {
    Fpt::from_f64_bits(x.to_bits())
}

#[test]
fn input_dpi_must_be_positive() {
    assert!(validate(Param::InputDpi, fpt(0.0)).is_err());
    assert!(validate(Param::InputDpi, fpt(-1.0)).is_err());
    assert!(validate(Param::InputDpi, fpt(0.0001)).is_ok());
    assert!(validate(Param::InputDpi, fpt(800.0)).is_ok());
}

#[test]
fn limit_is_at_least_one() {
    assert!(validate(Param::Limit, fpt(0.999)).is_err());
    assert!(validate(Param::Limit, fpt(1.0)).is_ok());
    assert!(validate(Param::Limit, fpt(2.5)).is_ok());
}

#[test]
fn smooth_stays_in_the_unit_interval() {
    assert!(validate(Param::Smooth, fpt(1.0001)).is_err());
    assert!(validate(Param::Smooth, fpt(1.0)).is_ok());
    assert!(validate(Param::Smooth, fpt(0.0)).is_ok());
    assert!(validate(Param::Smooth, fpt(-0.0001)).is_err());
}

#[test]
fn offsets_are_non_negative() {
    assert!(validate(Param::OffsetLinear, fpt(-0.1)).is_err());
    assert!(validate(Param::OffsetLinear, fpt(0.0)).is_ok());
    assert!(validate(Param::OffsetNatural, fpt(-0.1)).is_err());
    assert!(validate(Param::OffsetNatural, fpt(3.0)).is_ok());
}

#[test]
fn rates_and_speeds_are_positive() {
    assert!(validate(Param::DecayRate, fpt(0.0)).is_err());
    assert!(validate(Param::DecayRate, fpt(0.1)).is_ok());
    assert!(validate(Param::Gamma, fpt(0.0)).is_err());
    assert!(validate(Param::Gamma, fpt(1.0)).is_ok());
    assert!(validate(Param::SyncSpeed, fpt(-5.0)).is_err());
    assert!(validate(Param::SyncSpeed, fpt(5.0)).is_ok());
}

#[test]
fn motivity_exceeds_one() {
    assert!(validate(Param::Motivity, fpt(1.0)).is_err());
    assert!(validate(Param::Motivity, fpt(1.5)).is_ok());
}

#[test]
fn multipliers_are_unconstrained() {
    assert!(validate(Param::SensMult, fpt(-0.2)).is_ok());
    assert!(validate(Param::YxRatio, fpt(0.0)).is_ok());
    assert!(validate(Param::Accel, fpt(-3.0)).is_ok());
    assert!(validate(Param::OutputCap, fpt(0.0)).is_ok());
}

#[test]
fn validation_error_names_the_parameter() {
    let e = validate(Param::Motivity, fpt(0.5)).unwrap_err();
    assert_eq!(e.param, Param::Motivity);
}

#[test]
fn schema_names_and_groups() {
    assert_eq!(Param::SensMult.name(), "SENS_MULT");
    assert_eq!(Param::OffsetLinear.name(), "OFFSET");
    assert_eq!(Param::OffsetNatural.name(), "OFFSET");
    assert_eq!(Param::OffsetLinear.slot(), Param::OffsetNatural.slot());
    assert_ne!(Param::OffsetLinear.slot(), Param::OutputCap.slot());
    assert_eq!(Param::SyncSpeed.display_name(), "Sync Speed");
    assert_eq!(maccel_core::params::all_params().len(), 13);
    assert_eq!(maccel_core::params::common_params().len(), 3);
    assert_eq!(
        maccel_core::params::mode_params(maccel_core::params::AccelMode::Synchronous).len(),
        4
    );
}

#[test]
fn mode_titles_and_ordinals() {
    assert_eq!(AccelMode::Linear.as_title(), "Linear Acceleration");
    assert_eq!(AccelMode::Natural.as_title(), "Natural (w/ Gain)");
    assert_eq!(AccelMode::Synchronous.as_title(), "Synchronous");
    assert_eq!(AccelMode::Natural.ordinal(), 1);
    assert_eq!(mode_from_ordinal(2), AccelMode::Synchronous);
    // Out-of-range ordinals from another driver version wrap around.
    assert_eq!(mode_from_ordinal(5), AccelMode::Synchronous);
    assert_eq!(mode_from_ordinal(7), AccelMode::Natural);
    assert_eq!(AccelMode::param_name(), "MODE");
    assert_eq!(
        maccel_core::params::all_modes(),
        [AccelMode::Linear, AccelMode::Natural, AccelMode::Synchronous]
    );
}
