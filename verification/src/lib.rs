//! Core library for configuring a kernel pointer-acceleration driver.
//!
//! The driver exposes each setting as a virtual file holding a fixed-point
//! number in a textual form.  This crate holds everything that can be stated
//! and proved about that exchange: the fixed-point codec, the parameter
//! schema with its per-parameter validation rules, the store abstraction
//! with an in-memory implementation, the cached context consumed by the
//! interactive front end, and named profile snapshots.

pub mod context;
pub mod curve;
pub mod fixed;
pub mod params;
pub mod persist;
pub mod profiles;
pub mod utils;

pub use fixed::Fpt;
pub use fixed::ParseError;
pub use params::AccelMode;
pub use params::Param;
pub use params::ValidationError;
pub use persist::MemStore;
pub use persist::ParamStore;
pub use persist::StoreError;
pub use context::Parameter;
pub use context::TuiContext;
pub use curve::AllParamArgs;
pub use profiles::Profile;
pub use profiles::ProfileStore;
pub use utils::CyclingIdx;
