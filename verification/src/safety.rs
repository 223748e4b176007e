//! Preflight safety checks, run before the first byte is written: the classic
//! `dd` footguns (copying a file onto itself, writing to a mounted device, a
//! target too small for the copy) are refused up front instead of being
//! discovered as corruption or a write error hours in.
//!
//! All checks fail towards permissiveness where a probe gave nothing: they exist
//! to catch mistakes, not to make exhume unusable in odd environments.

use crate::error::{Error, ErrorView, Result};
use crate::text;
use vstd::prelude::*;

verus! {

/// What kind of file a path leads to.
#[derive(Debug, Clone, Copy, PartialEq, Eq, Structural)]
pub enum FileKind {
    Regular,
    BlockDevice,
    CharDevice,
    Fifo,
    Socket,
    /// Anything else, such as a directory.
    Other,
}

/// What is known of a file: its kind, its length, and its identity (the device
/// it lives on and its number there).
#[derive(Debug, Clone, Copy, PartialEq, Eq, Structural)]
pub struct FileFacts {
    pub kind: FileKind,
    pub length: u64,
    pub device: u64,
    pub inode: u64,
}

impl FileFacts {
    /// A block or character device.
    pub open spec fn is_device(self) -> bool {
        self.kind == FileKind::BlockDevice || self.kind == FileKind::CharDevice
    }
}

/// What a stream as the source is answered.
pub open spec fn stream_text(source: Seq<char>, kind: Seq<char>) -> Seq<char> {
    "source '"@ + source + "' is a "@ + kind
        + " — exhume copies block devices and regular files, not streams (use cat or dd for those)"@
}

/// Refuse a source exhume cannot copy: FIFOs and sockets are not seekable, and
/// the copy reads by offset, so they would die mid-run with a cryptic error.
/// Character devices stay allowed (they can generally be read by offset). A
/// source nothing is known of is left to the open to report.
pub fn ensure_source_supported(source: &str, facts: Option<FileFacts>) -> (r: Result<()>)
    ensures
        r is Ok <==> !(facts matches Some(f) && (f.kind == FileKind::Fifo || f.kind
            == FileKind::Socket)),
        r matches Err(e) ==> e@ == ErrorView::Refused(
            stream_text(
                source@,
                if facts->0.kind == FileKind::Fifo {
                    "pipe (FIFO)"@
                } else {
                    "socket"@
                },
            ),
        ),
{
    let kind = match facts {
        Some(f) => match f.kind {
            FileKind::Fifo => "pipe (FIFO)",
            FileKind::Socket => "socket",
            _ => {
                return Ok(());
            },
        },
        None => {
            return Ok(());
        },
    };
    let mut out = "source '".to_owned();
    out.append(source);
    out.append("' is a ");
    out.append(kind);
    out.append(
        " — exhume copies block devices and regular files, not streams (use cat or dd for those)",
    );
    Err(Error::Refused(out))
}

/// Whether both files are known and one and the same.
pub open spec fn same_file(source: Option<FileFacts>, target: Option<FileFacts>) -> bool {
    match (source, target) {
        (Some(s), Some(t)) => s.device == t.device && s.inode == t.inode,
        _ => false,
    }
}

/// What a copy of a file onto itself is answered.
pub open spec fn same_file_text(source: Seq<char>, target: Seq<char>) -> Seq<char> {
    "source '"@ + source + "' and target '"@ + target
        + "' are the same file; refusing to copy it onto itself"@
}

/// Refuse to copy a file or device onto itself, including aliases via symlinks
/// or hardlinks: reads and writes would hit the same blocks. A missing target is
/// fine.
pub fn ensure_not_same_file(
    source: &str,
    target: &str,
    source_facts: Option<FileFacts>,
    target_facts: Option<FileFacts>,
) -> (r: Result<()>)
    ensures
        r is Err <==> same_file(source_facts, target_facts),
        r matches Err(e) ==> e@ == ErrorView::Refused(same_file_text(source@, target@)),
{
    if let (Some(s), Some(t)) = (source_facts, target_facts) {
        if s.device == t.device && s.inode == t.inode {
            let mut out = "source '".to_owned();
            out.append(source);
            out.append("' and target '");
            out.append(target);
            out.append("' are the same file; refusing to copy it onto itself");
            return Err(Error::Refused(out));
        }
    }
    Ok(())
}

/// What a copy that does not fit its target is answered.
pub open spec fn too_small_text(target: Seq<char>, capacity: u64, needed: u64) -> Seq<char> {
    "target '"@ + target + "' holds "@ + text::human_bytes(capacity) + " ("@ + text::decimal(
        capacity as nat,
    ) + " bytes) but the copy needs "@ + text::human_bytes(needed) + " ("@ + text::decimal(
        needed as nat,
    ) + " bytes); refusing before writing anything"@
}

/// Refuse a block-device target that cannot hold `seek + domain` bytes, instead
/// of failing with a write error at the capacity boundary hours into the copy.
/// `capacity` is that of a block-device target, where it is known; regular files
/// grow and are exempt, and an unknown domain (`0`) cannot be checked.
pub fn ensure_target_capacity(
    target: &str,
    capacity: Option<u64>,
    seek: u64,
    domain: u64,
) -> (r: Result<()>)
    requires
        seek + domain <= u64::MAX,
    ensures
        r is Err <==> domain > 0 && (capacity matches Some(c) && seek + domain > c),
        r matches Err(e) ==> e@ == ErrorView::Refused(
            too_small_text(target@, capacity->0, (seek + domain) as u64),
        ),
{
    if domain == 0 {
        return Ok(());
    }
    if let Some(capacity) = capacity {
        let needed = seek + domain;
        if needed > capacity {
            let mut out = "target '".to_owned();
            out.append(target);
            out.append("' holds ");
            out.append(text::human_bytes_text(capacity).as_str());
            out.append(" (");
            out.append(text::decimal_text(capacity).as_str());
            out.append(" bytes) but the copy needs ");
            out.append(text::human_bytes_text(needed).as_str());
            out.append(" (");
            out.append(text::decimal_text(needed).as_str());
            out.append(" bytes); refusing before writing anything");
            return Err(Error::Refused(out));
        }
    }
    Ok(())
}

/// What the mounted-device guard has to say where it does not refuse.
#[derive(Debug, Clone, Copy, PartialEq, Eq, Structural)]
pub struct MountNotes {
    /// The target is mounted, and the user said to go ahead.
    pub target: bool,
    /// The source is mounted: the image may be inconsistent.
    pub source: bool,
}

/// What a mounted target is answered.
pub open spec fn mounted_text(target: Seq<char>) -> Seq<char> {
    "target '"@ + target
        + "' (or a partition / stacked device on it) is mounted; writing to it would corrupt the live filesystem — unmount it first, or pass --allow-mounted at your own risk"@
}

/// The mounted-device guard. A target block device that is mounted (itself, one
/// of its partitions, or a stacked device on top of it, including active swap)
/// is refused unless `allow_mounted`. A mounted *source* is only noted: imaging
/// a live filesystem is sometimes wanted, but the result may be inconsistent.
pub fn check_mounted(
    target: &str,
    target_mounted: bool,
    source_mounted: bool,
    allow_mounted: bool,
) -> (r: Result<MountNotes>)
    ensures
        r is Err <==> target_mounted && !allow_mounted,
        r matches Err(e) ==> e@ == ErrorView::Refused(mounted_text(target@)),
        r matches Ok(notes) ==> notes.target == target_mounted && notes.source == source_mounted,
{
    if target_mounted && !allow_mounted {
        let mut out = "target '".to_owned();
        out.append(target);
        out.append(
            "' (or a partition / stacked device on it) is mounted; writing to it would corrupt the live filesystem — unmount it first, or pass --allow-mounted at your own risk",
        );
        return Err(Error::Refused(out));
    }
    Ok(MountNotes { target: target_mounted, source: source_mounted })
}

} // verus!
