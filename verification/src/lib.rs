//! Verified decoding of the serialized program input that the Solana runtime
//! hands to an on-chain program's entrypoint: the account table (with
//! duplicate accounts resolved to the entry they repeat), the instruction data
//! and the program id.
pub mod decoder;
pub mod input;
pub mod layout;
pub mod program;
pub mod properties;
