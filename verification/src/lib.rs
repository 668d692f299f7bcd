//! Authentication handling of one session of a validator network.

pub mod authentication;
pub mod crypto;
pub mod laws;
pub mod network;
pub mod scale;
pub mod session;
pub mod state;
pub mod types;
