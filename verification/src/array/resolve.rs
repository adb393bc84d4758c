//! Resolves a (devid, array offset) pair into the raw-rdev path and byte
//! offset.

use vstd::prelude::*;

use crate::array::config::ArrayConfig;

verus! {

/// Where a position in array space actually lives on a raw device.
#[derive(Debug)]
pub struct ResolvedLocation {
    pub devid: u64,
    /// The raw rdev path.
    pub dev_path: String,
    /// `array_phys` plus the disk's rdev offset.
    pub raw_phys: u64,
    pub array_phys: u64,
}

impl Clone for ResolvedLocation {
    fn clone(&self) -> (r: Self)
        ensures
            r == *self,
    {
        ResolvedLocation {
            devid: self.devid,
            dev_path: self.dev_path.clone(),
            raw_phys: self.raw_phys,
            array_phys: self.array_phys,
        }
    }
}

/// Why a position could not be resolved.
#[derive(Debug, Clone, Copy, PartialEq, Eq, Structural)]
pub enum ResolveError {
    /// The device is not a data disk of the array.
    NotADataDisk { devid: u64 },
    /// The position lies outside the address space.
    OutOfRange,
}

/// Looks up the raw-rdev path for `devid` and translates `array_phys` into
/// raw-rdev space.
pub fn resolve(config: &ArrayConfig, devid: u64, array_phys: u64) -> (r: Result<
    ResolvedLocation,
    ResolveError,
>)
    ensures
        match r {
            Ok(l) => {
                &&& l.devid == devid
                &&& l.array_phys == array_phys
                &&& config.dev(devid) == Some(l.dev_path@)
                &&& l.raw_phys == array_phys + config.offset(l.dev_path@)
            },
            Err(ResolveError::NotADataDisk { devid: d }) => d == devid && config.dev(devid) is None,
            Err(ResolveError::OutOfRange) => config.dev(devid) matches Some(p) && array_phys
                + config.offset(p) > u64::MAX,
        },
{
    match config.data_dev(devid) {
        None => Err(ResolveError::NotADataDisk { devid }),
        Some(dev_path) => match config.position(dev_path, array_phys) {
            None => Err(ResolveError::OutOfRange),
            Some(raw_phys) => Ok(
                ResolvedLocation { devid, dev_path: dev_path.to_owned(), raw_phys, array_phys },
            ),
        },
    }
}

} // verus!
