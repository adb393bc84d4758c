//! What the operations are for: laws that tie their results to the bytes, the
//! counters and the texts they are about.

pub mod arguments;
pub mod array;
pub mod batch;
pub mod calls;
pub mod checksums;
pub mod collecting;
pub mod craft;
pub mod disk_format;
pub mod limits;
pub mod mapping;
pub mod metadata;
pub mod naming;
pub mod opening;
pub mod plan;
pub mod recovery;
pub mod report;
pub mod scrub;
pub mod sector;
pub mod text;
