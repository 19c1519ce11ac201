//! Conversion between numeric video identifiers ("av" numbers) and their
//! twelve-character public tokens ("BV" tokens).

pub mod alphabet;
pub mod codec;
pub mod digits;
pub mod error;
pub mod laws;

pub use alphabet::rev;
pub use codec::{av2bv, bv2av, MAX_AID, MIN_AID};
pub use error::Error;
