//! MD5 checksums for batches of independent messages and live streams,
//! with every scheduler proved to compute RFC 1321 MD5.

pub mod model;
pub mod compress;
pub mod frame;
pub mod state;
pub mod backend;
pub mod platform;
pub mod simd;

pub use backend::digest;
pub use model::Chain;
pub use simd::{hash_many_dispatch, update_many_dispatch};
pub use state::Md5State;
