//! An interactive directory cleaner's verified core: listing order,
//! prefix filtering, and the delete/confirm interaction state machine.
//!
//! The surrounding terminal user interface and the filesystem calls
//! live outside this crate; they hand listings in as plain values and
//! carry the requested actions out.

pub mod entry;
pub mod controller;
pub mod ordering;
