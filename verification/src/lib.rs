//! Core logic of a Solana Pay point-of-sale terminal: payment request URLs,
//! tolerant reading of tool arguments, and a hand-written encoder for Solana
//! transaction messages in their real wire format.

pub mod base58;
pub mod transaction;
pub mod text;
pub mod payment;
pub mod args;
