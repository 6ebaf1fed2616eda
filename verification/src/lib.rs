//! Compares the sets of executable file names found in two colon-separated
//! directory lists and reports their symmetric difference.
//!
//! The library holds the whole decision pipeline as verified code: splitting a
//! path list on `:`, deciding executability from an entry's permission bits,
//! collecting names into a sorted set without duplicates, computing the
//! symmetric difference with a tag for the side each name came from, and
//! turning the tagged names into output lines. Reading directories and file
//! metadata, and printing, are left to the surrounding program, which hands
//! this library plain values.

pub mod cli;
pub mod diff;
pub mod executable;
pub mod format;
pub mod names;
pub mod order;
pub mod paths;
