//! Portable POSIX fallback for platforms without a dedicated backend (the BSDs).
//! Everything degrades safely instead of failing: the sector size falls back to
//! the default, `--direct` is unavailable, and the mounted guard is disabled;
//! the safety checks fail towards permissiveness.

use crate::engine::ReadFault;
use crate::params::DEFAULT_SECTOR_SIZE;
use vstd::prelude::*;

verus! {

/// The size of a source is where seeking to the end leads; `None` where that
/// fails, and the copy then runs open-ended.
pub fn detect_size(seeked: Option<u64>) -> (r: Option<u64>)
    ensures
        r == seeked,
{
    seeked
}

/// Probing the logical sector size needs OS-specific ioctls; assume the default.
pub fn detect_sector_size() -> (r: u64)
    ensures
        r == DEFAULT_SECTOR_SIZE,
{
    DEFAULT_SECTOR_SIZE
}

/// Whether this platform can bypass the page cache for source reads
/// (`--direct`). Not without a dedicated backend.
pub fn supports_direct() -> (r: bool)
    ensures
        !r,
{
    false
}

/// Whether a read error means "this spot of the medium is unreadable", the only
/// condition under which sectors are marked `bad` and the copy moves on. `EIO`
/// is the damage signal, `EBADMSG` an integrity failure. Anything else is not
/// positional damage, and skipping past it would sweep the rest of the source
/// into `bad`.
pub fn is_media_error(fault: ReadFault) -> (r: bool)
    ensures
        r == (fault == ReadFault::Io || fault == ReadFault::BadMessage),
{
    match fault {
        ReadFault::Io | ReadFault::BadMessage => true,
        _ => false,
    }
}

/// Mount probing needs an OS-specific source; reporting nothing disables the
/// mounted guard entirely.
pub fn mounted_dev_ids() -> (r: Vec<(u64, u64)>)
    ensures
        r@ == Seq::<(u64, u64)>::empty(),
{
    Vec::new()
}

/// No device is known to be mounted.
pub fn device_is_mounted(mounted: &Vec<(u64, u64)>) -> (r: bool)
    ensures
        !r,
{
    false
}

} // verus!
