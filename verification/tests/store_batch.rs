use maccel_core::fixed::Fpt;
use maccel_core::params::{AccelMode, Param};
use maccel_core::persist::{
    decode_mode_text, mode_reset_script_contents, set_all_common, set_all_linear, set_all_natural, set_all_synchronous,
    CommonParamArgs, LinearParamArgs, MemStore, NaturalParamArgs, ParamStore, StoreError,
    SynchronousParamArgs,
};

fn fpt(x: f64) -> Fpt {
    Fpt::from_f64_bits(x.to_bits())
}

#[test]
fn batch_failure_still_attempts_the_rest() {
    let mut store = MemStore::new();
    store.set_fail_set(Param::OffsetLinear, true);
    let r = set_all_linear(
        &mut store,
        LinearParamArgs { accel: fpt(2.0), offset_linear: fpt(1.0), output_cap: fpt(3.0) },
    );
    assert_eq!(r, Err(StoreError::Io));
    // The parameter before the failure was written...
    assert_eq!(store.get(Param::Accel), Ok(fpt(2.0)));
    // ...the failing one was not...
    assert_eq!(store.get(Param::OffsetLinear), Ok(fpt(0.0)));
    // ...and the one after it was still attempted and written.
    assert_eq!(store.get(Param::OutputCap), Ok(fpt(3.0)));
}

#[test]
fn batch_success_writes_all_in_order() {
    let mut store = MemStore::new();
    assert!(set_all_common(
        &mut store,
        CommonParamArgs { sens_mult: fpt(1.0), yx_ratio: fpt(1.0), input_dpi: fpt(800.0) },
    )
        .is_ok());
    assert_eq!(store.get(Param::SensMult), Ok(fpt(1.0)));
    assert_eq!(store.get(Param::YxRatio), Ok(fpt(1.0)));
    assert_eq!(store.get(Param::InputDpi), Ok(fpt(800.0)));
    assert!(set_all_natural(
        &mut store,
        NaturalParamArgs { decay_rate: fpt(0.1), offset_natural: fpt(2.0), limit: fpt(1.5) },
    )
        .is_ok());
    assert_eq!(store.get(Param::Limit), Ok(fpt(1.5)));
    // The shared offset slot was written through the natural tag.
    assert_eq!(store.get(Param::OffsetLinear), Ok(fpt(2.0)));
}

#[test]
fn batch_invalid_value_skips_only_that_write() {
    let mut store = MemStore::new();
    let r = set_all_synchronous(
        &mut store,
        SynchronousParamArgs {
            gamma: fpt(1.0),
            smooth: fpt(0.5),
            motivity: fpt(1.0),  // must exceed one
            sync_speed: fpt(5.0),
        },
    );
    assert_eq!(r, Err(StoreError::Invalid));
    assert_eq!(store.get(Param::Gamma), Ok(fpt(1.0)));
    assert_eq!(store.get(Param::Smooth), Ok(fpt(0.5)));
    assert_eq!(store.get(Param::Motivity), Ok(fpt(0.0)));
    assert_eq!(store.get(Param::SyncSpeed), Ok(fpt(5.0)));
}

#[test]
fn failure_switches_cover_the_shared_slot() {
    let mut store = MemStore::new();
    store.set_fail_set(Param::OffsetLinear, true);
    assert_eq!(store.set(Param::OffsetNatural, fpt(1.0)), Err(StoreError::Io));
    store.set_fail_set(Param::OffsetLinear, false);
    assert!(store.set(Param::OffsetNatural, fpt(1.0)).is_ok());
}

#[test]
fn mode_round_trips_through_the_store() {
    let mut store = MemStore::new();
    assert_eq!(store.get_current_accel_mode(), Ok(AccelMode::Linear));
    assert!(store.set_current_accel_mode(AccelMode::Synchronous).is_ok());
    assert_eq!(store.get_current_accel_mode(), Ok(AccelMode::Synchronous));
}

#[test]
fn out_of_range_mode_ordinals_wrap() {
    let mut store = MemStore::new();
    store.seed_mode_ordinal(5);
    assert_eq!(store.get_current_accel_mode(), Ok(AccelMode::Synchronous));
    store.seed_mode_ordinal(7);
    assert_eq!(store.get_current_accel_mode(), Ok(AccelMode::Natural));
}

#[test]
fn mode_file_text_is_decoded_defensively() {
    assert_eq!(decode_mode_text("1\n"), Ok(AccelMode::Natural));
    assert_eq!(decode_mode_text(" 2 "), Ok(AccelMode::Synchronous));
    assert_eq!(decode_mode_text("5"), Ok(AccelMode::Synchronous));
    assert_eq!(decode_mode_text("256"), Err(StoreError::Malformed));
    assert_eq!(decode_mode_text("-1"), Err(StoreError::Malformed));
    assert_eq!(decode_mode_text("x"), Err(StoreError::Malformed));
}

#[test]
fn mode_reset_script_matches_the_protocol() {
    assert_eq!(
        mode_reset_script_contents(AccelMode::Natural),
        "echo 1 > /sys/module/maccel/parameters/MODE;"
    );
}
