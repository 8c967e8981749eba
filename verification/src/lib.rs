//! A verified core for a manager of portable single-file executables.
//!
//! The library keeps a lockfile of tracked packages, selects release
//! assets for a host architecture, and plans install/update/remove/rename
//! operations; file and network transport live outside, in the thin
//! program shell that calls into this crate.

pub mod cli;
pub mod codec;
pub mod config;
pub mod github;
pub mod hashing;
pub mod lockfile;
pub mod ops;
pub mod text;
