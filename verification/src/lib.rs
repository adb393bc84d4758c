//! Parity-backed scrub and repair of btrfs data sectors on a NonRAID array.

pub mod array;
pub mod batch_recover;
pub mod btrfs;
pub mod bytes;
pub mod canary;
pub mod cli;
pub mod craft;
pub mod freeze;
pub mod fs;
pub mod hash;
pub mod laws;
pub mod recovery;
pub mod status;
pub mod text;
