use maccel_core::context::TuiContext;
use maccel_core::utils::CyclingIdx;
use maccel_core::curve::AccelParamsByMode;
use maccel_core::fixed::Fpt;
use maccel_core::params::{all_params, AccelMode, Param};
use maccel_core::persist::{MemStore, ParamStore, StoreError};

fn fpt(x: f64) -> Fpt {
    Fpt::from_f64_bits(x.to_bits())
}

fn full_context(store: &MemStore) -> TuiContext {
    TuiContext::new(store, all_params().as_slice()).unwrap()
}

#[test]
fn update_writes_through_and_caches() {
    let mut store = MemStore::new();
    let mut ctx = full_context(&store);
    assert!(ctx.update_param_value(&mut store, Param::Accel, fpt(2.0)).is_ok());
    assert_eq!(ctx.parameter(Param::Accel).unwrap().value, fpt(2.0));
    assert_eq!(store.get(Param::Accel), Ok(fpt(2.0)));
}

#[test]
fn failed_write_leaves_the_cache_alone() {
    let mut store = MemStore::new();
    store.seed(Param::Accel, fpt(1.0));
    store.set_fail_set(Param::Accel, true);
    let mut ctx = full_context(&store);
    let before = ctx.parameter(Param::Accel).unwrap().value;
    assert_eq!(ctx.update_param_value(&mut store, Param::Accel, fpt(2.0)), Err(StoreError::Io));
    assert_eq!(ctx.parameter(Param::Accel).unwrap().value, before);
    assert_eq!(store.get(Param::Accel), Ok(fpt(1.0)));
}

#[test]
fn invalid_write_reports_and_changes_nothing() {
    let mut store = MemStore::new();
    store.seed(Param::InputDpi, fpt(800.0));
    let mut ctx = full_context(&store);
    assert_eq!(
        ctx.update_param_value(&mut store, Param::InputDpi, fpt(-1.0)),
        Err(StoreError::Invalid)
    );
    assert_eq!(ctx.parameter(Param::InputDpi).unwrap().value, fpt(800.0));
    assert_eq!(store.get(Param::InputDpi), Ok(fpt(800.0)));
}

#[test]
fn unknown_parameter_is_rejected() {
    let mut store = MemStore::new();
    let subset = [Param::SensMult];
    let mut ctx = TuiContext::new(&store, &subset).unwrap();
    assert_eq!(
        ctx.update_param_value(&mut store, Param::Accel, fpt(1.0)),
        Err(StoreError::UnknownParameter)
    );
    assert!(ctx.parameter(Param::Accel).is_none());
}

#[test]
fn mode_switch_resynchronises_the_cache() {
    let mut store = MemStore::new();
    store.seed(Param::DecayRate, fpt(0.1));
    let mut ctx = full_context(&store);
    // The driver alters values behind the cache's back.
    store.seed(Param::DecayRate, fpt(9.0));
    store.seed(Param::Limit, fpt(1.25));
    assert!(ctx.set_current_mode(&mut store, AccelMode::Natural).is_ok());
    assert_eq!(ctx.current_mode, AccelMode::Natural);
    assert_eq!(store.get_current_accel_mode(), Ok(AccelMode::Natural));
    assert!(ctx.reset_current_parameters(&store).is_ok());
    for p in all_params() {
        assert_eq!(ctx.parameter(p).unwrap().value, store.get(p).unwrap());
    }
    assert_eq!(ctx.parameter(Param::DecayRate).unwrap().value, fpt(9.0));
}

#[test]
fn end_to_end_edit_scenario() {
    let mut store = MemStore::new();
    store.seed(Param::SensMult, fpt(1.0));
    store.seed(Param::Accel, fpt(1.0));
    let mut ctx = full_context(&store);
    assert!(ctx.update_param_value(&mut store, Param::Accel, fpt(-0.2)).is_ok());
    assert_eq!(ctx.parameter(Param::Accel).unwrap().value, fpt(-0.2));
    let dpi_before = ctx.parameter(Param::InputDpi).unwrap().value;
    assert_eq!(
        ctx.update_param_value(&mut store, Param::InputDpi, fpt(-1.0)),
        Err(StoreError::Invalid)
    );
    assert_eq!(ctx.parameter(Param::InputDpi).unwrap().value, dpi_before);
}

#[test]
fn context_init_fails_fast() {
    let mut store = MemStore::new();
    store.set_fail_get(Param::Limit, true);
    assert!(TuiContext::new(&store, all_params().as_slice()).is_err());
}

#[test]
fn snapshot_collects_every_parameter() {
    let mut store = MemStore::new();
    store.seed(Param::SensMult, fpt(1.5));
    store.seed(Param::Gamma, fpt(2.0));
    store.seed(Param::OffsetLinear, fpt(0.25));
    let ctx = full_context(&store);
    let snap = ctx.params_snapshot();
    assert_eq!(snap.sens_mult, fpt(1.5));
    assert_eq!(snap.gamma, fpt(2.0));
    // The two offsets read the same stored value.
    assert_eq!(snap.offset_linear, fpt(0.25));
    assert_eq!(snap.offset_natural, fpt(0.25));
    let args = snap.convert_to_accel_args(AccelMode::Linear);
    assert_eq!(args.sens_mult, fpt(1.5));
    match args.by_mode {
        AccelParamsByMode::Linear(l) => {
            assert_eq!(l.offset_linear, fpt(0.25));
        },
        _ => panic!("wrong curve selected"),
    }
    let args = snap.convert_to_accel_args(AccelMode::Synchronous);
    match args.by_mode {
        AccelParamsByMode::Synchronous(s) => {
            assert_eq!(s.gamma, fpt(2.0));
        },
        _ => panic!("wrong curve selected"),
    }
}

#[test]
fn cycling_index_wraps_both_ways() {
    let mut idx = CyclingIdx::new(3);
    assert_eq!(idx.current(), 0);
    idx.forward();
    assert_eq!(idx.current(), 1);
    idx.forward();
    idx.forward();
    assert_eq!(idx.current(), 0);
    idx.back();
    assert_eq!(idx.current(), 2);
    let mut idx = CyclingIdx::new_starting_at(4, 2);
    idx.back();
    assert_eq!(idx.current(), 1);
}
