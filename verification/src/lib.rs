//! Free-space monitoring for a Btrfs volume.
//!
//! The library extracts usage figures from the textual reports of the
//! `btrfs filesystem usage` command (raw-byte and human-readable variants)
//! and decides whether free capacity has fallen below a configured
//! percentage threshold, producing a single warning line when it has.
//! Running the external command and printing are left to the caller.

pub mod btrfs;
pub mod num;
pub mod text;
