//! Names packed into field values, and the authorization of a spend.
//!
//! The crate has two parts. The identifier codec maps a restricted-character
//! name to a value of the scalar field and back, without loss. The
//! authorization aggregator collects the records, signatures and keys of one
//! spend, gives them a fixed binary layout, and derives from them what a
//! prover needs: local data, a program commitment and encrypted records.

pub mod error;
pub mod radix;
pub mod field;
pub mod identifier;
pub mod commitment;
pub mod hex_text;
pub mod parameters;
pub mod record;
pub mod wire;
pub mod schemes;
pub mod authorization;
