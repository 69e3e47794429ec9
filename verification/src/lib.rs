//! minikv: verified core of a distributed key-value store.

pub mod admin_ui;
pub mod cdc;
pub mod chars;
pub mod clock;
pub mod codec;
pub mod error;
pub mod ids;
pub mod index;
pub mod io_uring;
pub mod k8s_operator;
pub mod ops;
pub mod plugin;
pub mod quota;
pub mod replication;
pub mod snapshot;
pub mod sorting;
pub mod strmap;
pub mod text;
pub mod tiering;
pub mod timeseries;

pub use error::{Error, Result};
