//! Delta encoding of a target buffer against a reference buffer.
//!
//! A sparse index of rolling hashes over the reference locates runs of
//! bytes that the target shares with it. The delta is a sequence of
//! operations, each either a copy of a reference range or a literal run of
//! target bytes, and replaying it against the reference gives the target
//! back.

pub mod buffer;
pub mod codec;
pub mod interval;
pub mod matching;
pub mod modular;
pub mod operation;
pub mod rolling;
pub mod theorems;

pub use codec::{can_restore, delta, restore};
pub use interval::MatchInterval;
pub use matching::{build_index, extract_matches};
pub use modular::modpow;
pub use operation::Compression;
pub use rolling::{RollingHash, SparseHash};
