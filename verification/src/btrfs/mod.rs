//! Reading btrfs: on-disk structures, tree walks, checksum verification and the
//! scrub itself.

pub mod chunk;
pub mod csum;
pub mod csum_strategy;
pub mod dev_extent;
pub mod extent;
pub mod isolate;
pub mod key;
pub mod node;
pub mod open;
pub mod reader;
pub mod root;
pub mod scrub;
pub mod scrub_driver;
pub mod scrub_run;
pub mod superblock;
pub mod tree;
pub mod util;
pub mod walk;

pub use open::{open, BtrfsContext, TreeRoots};
pub use scrub_driver::BtrfsScrub;
pub use superblock::Superblock;
