use maccel_core::fixed::Fpt;
use maccel_core::params::{all_params, AccelMode, Param};
use maccel_core::persist::{MemStore, ParamStore, StoreError};
use maccel_core::profiles::{param_from_name, Profile, ProfileStore};

fn fpt(x: f64) -> Fpt {
    Fpt::from_f64_bits(x.to_bits())
}

/// A store whose every slot holds a value its parameters accept.
fn valid_store() -> MemStore {
    let mut store = MemStore::new();
    store.seed(Param::SensMult, fpt(1.0));
    store.seed(Param::YxRatio, fpt(1.0));
    store.seed(Param::InputDpi, fpt(800.0));
    store.seed(Param::Accel, fpt(0.3));
    store.seed(Param::OffsetLinear, fpt(2.0));
    store.seed(Param::OutputCap, fpt(2.5));
    store.seed(Param::DecayRate, fpt(0.1));
    store.seed(Param::Limit, fpt(1.5));
    store.seed(Param::Gamma, fpt(1.0));
    store.seed(Param::Smooth, fpt(0.5));
    store.seed(Param::Motivity, fpt(1.4));
    store.seed(Param::SyncSpeed, fpt(5.0));
    store
}

#[test]
fn names_resolve_to_parameters() {
    assert_eq!(param_from_name("ACCEL"), Some(Param::Accel));
    assert_eq!(param_from_name("SENS_MULT"), Some(Param::SensMult));
    // The shared name resolves to the first tag carrying it.
    assert_eq!(param_from_name("OFFSET"), Some(Param::OffsetLinear));
    assert_eq!(param_from_name("SYNC_SPEED"), Some(Param::SyncSpeed));
    assert_eq!(param_from_name("NO_SUCH"), None);
    assert_eq!(param_from_name(""), None);
}

#[test]
fn capture_reads_every_group_once_per_name() {
    let mut store = valid_store();
    store.set_current_accel_mode(AccelMode::Natural).unwrap();
    let p = Profile::from_current_settings("snap".to_string(), &store).unwrap();
    assert_eq!(p.name, "snap");
    assert_eq!(p.mode, AccelMode::Natural);
    // Twelve distinct names: the two offsets collapse into one entry.
    assert_eq!(p.params.len(), 12);
    let offsets: Vec<&(String, Fpt)> = p.params.iter().filter(|e| e.0 == "OFFSET").collect();
    assert_eq!(offsets.len(), 1);
    assert_eq!(offsets[0].1, fpt(2.0));
    for entry in &p.params {
        let tag = param_from_name(entry.0.as_str()).unwrap();
        assert_eq!(store.get(tag).unwrap(), entry.1);
    }
}

#[test]
fn capture_then_apply_is_a_no_op_on_state() {
    let mut store = valid_store();
    store.set_current_accel_mode(AccelMode::Synchronous).unwrap();
    let p = Profile::from_current_settings("p".to_string(), &store).unwrap();
    let before: Vec<Fpt> = all_params().iter().map(|q| store.get(*q).unwrap()).collect();
    assert_eq!(p.apply(&mut store), Ok(()));
    let after: Vec<Fpt> = all_params().iter().map(|q| store.get(*q).unwrap()).collect();
    assert_eq!(before, after);
    assert_eq!(store.get_current_accel_mode(), Ok(AccelMode::Synchronous));
}

#[test]
fn apply_skips_unknown_names_and_keeps_going() {
    let mut store = valid_store();
    let mut p = Profile::new("mix".to_string(), AccelMode::Linear);
    p.params.push(("BOGUS".to_string(), fpt(9.0)));
    p.params.push(("ACCEL".to_string(), fpt(0.7)));
    assert_eq!(p.apply(&mut store), Ok(()));
    assert_eq!(store.get(Param::Accel), Ok(fpt(0.7)));
    assert_eq!(store.get_current_accel_mode(), Ok(AccelMode::Linear));
}

#[test]
fn apply_reports_first_failure_but_attempts_the_rest() {
    let mut store = valid_store();
    let mut p = Profile::new("partial".to_string(), AccelMode::Linear);
    p.params.push(("INPUT_DPI".to_string(), fpt(-5.0)));  // rejected by the schema
    p.params.push(("ACCEL".to_string(), fpt(0.9)));
    assert_eq!(p.apply(&mut store), Err(StoreError::Invalid));
    assert_eq!(store.get(Param::InputDpi), Ok(fpt(800.0)));
    assert_eq!(store.get(Param::Accel), Ok(fpt(0.9)));
}

#[test]
fn profiles_are_kept_by_name() {
    let mut ps = ProfileStore::from_path("/tmp/profiles".to_string());
    assert_eq!(ps.dir(), "/tmp/profiles");
    assert!(!ps.has_profile("a"));
    assert_eq!(ps.load("a").unwrap_err(), StoreError::Unavailable);

    let mut a = Profile::new("a".to_string(), AccelMode::Linear);
    a.created_at = 10;
    ps.save(&a).unwrap();
    assert!(ps.has_profile("a"));
    let got = ps.load("a").unwrap();
    assert_eq!(got.name, "a");
    assert_eq!(got.created_at, 10);

    // Saving under the same name replaces.
    let mut a2 = Profile::new("a".to_string(), AccelMode::Natural);
    a2.created_at = 11;
    ps.save(&a2).unwrap();
    let got = ps.load("a").unwrap();
    assert_eq!(got.mode, AccelMode::Natural);
    assert_eq!(got.created_at, 11);

    assert_eq!(ps.delete("a"), Ok(()));
    assert!(!ps.has_profile("a"));
    assert_eq!(ps.delete("a").unwrap_err(), StoreError::Unavailable);
}

#[test]
fn list_orders_newest_first() {
    let mut ps = ProfileStore::from_path(String::new());
    for (name, t) in [("old", 10i64), ("newest", 30), ("middle", 20)] {
        let mut p = Profile::new(name.to_string(), AccelMode::Linear);
        p.created_at = t;
        ps.save(&p).unwrap();
    }
    let listed = ps.list();
    let names: Vec<&str> = listed.iter().map(|p| p.name.as_str()).collect();
    assert_eq!(names, ["newest", "middle", "old"]);
}
