pub mod encoding;
pub mod errors;
pub mod kv_store;
pub mod model;
pub mod service;
pub mod smt;
pub mod structures;
pub mod utils;
