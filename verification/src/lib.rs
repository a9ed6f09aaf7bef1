//! Persistence and reconciliation of display arrangements.
//!
//! An [`model::Arrangement`] records where each connected display sits on the
//! virtual desktop, keyed by a stable hardware identifier. The library can
//! encode an arrangement into a deterministic textual form and parse it back
//! ([`codec`]), decide which displays a restore operation must move
//! ([`engine`]), and report the outcome. All file, command-line and
//! operating-system work is left to the embedding program.

pub mod codec;
pub mod digits;
pub mod engine;
pub mod model;
pub mod store;
