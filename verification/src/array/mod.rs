//! The NonRAID array: its layout, where a block lives on each disk, and parity
//! over its stripes.

pub mod config;
pub mod nmdstat;
pub mod parity;
pub mod path;
pub mod recover;
pub mod resolve;
pub mod stripe;
