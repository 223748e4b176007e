//! macOS backend: what disk ioctls and the mount table report.
//!
//! macOS device nodes come in pairs: the buffered block node `/dev/diskN` and
//! the raw character node `/dev/rdiskN`; the latter is the one to image (it
//! bypasses the tiny block-layer cache and is much faster). Both answer the disk
//! ioctls, so everything here treats "block or character device" as a potential
//! disk and lets a failing ioctl say otherwise.

use crate::engine::ReadFault;
use crate::params::DEFAULT_SECTOR_SIZE;
use crate::platform::linux;
use crate::text;
use vstd::prelude::*;

verus! {

/// Capacity of a disk device: block count times block size. `None` if the
/// product is zero or does not fit.
pub fn disk_capacity(count: u64, block: u32) -> (r: Option<u64>)
    ensures
        r == (if 0 < count * block <= u64::MAX {
            Some((count * block) as u64)
        } else {
            None
        }),
{
    match count.checked_mul(block as u64) {
        Some(capacity) => if capacity > 0 {
            Some(capacity)
        } else {
            None
        },
        None => None,
    }
}

/// The size of a source: regular files report their length by seeking to the
/// end. Disk devices report `0` there; their capacity comes from the driver
/// instead.
pub fn detect_size(seeked: Option<u64>, is_disk_node: bool, capacity: Option<u64>) -> (r: Option<
    u64,
>)
    ensures
        r == (if (seeked matches Some(s) && s > 0) || !is_disk_node || capacity is None {
            seeked
        } else {
            capacity
        }),
{
    match seeked {
        Some(s) => if s > 0 {
            return seeked;
        },
        None => {},
    }
    if !is_disk_node {
        return seeked;
    }
    match capacity {
        Some(c) => Some(c),
        None => seeked,
    }
}

/// The logical sector size of a source. Disk devices report it; everything else
/// (regular files, pipes, a failed probe) falls back to the default.
pub fn detect_sector_size(reported: Option<u32>) -> (r: u64)
    ensures
        r == (match reported {
            Some(size) => if size > 0 {
                size as u64
            } else {
                DEFAULT_SECTOR_SIZE
            },
            None => DEFAULT_SECTOR_SIZE,
        }),
{
    match reported {
        Some(size) => if size > 0 {
            size as u64
        } else {
            DEFAULT_SECTOR_SIZE
        },
        None => DEFAULT_SECTOR_SIZE,
    }
}

/// Whether this platform can bypass the page cache for source reads
/// (`--direct`). macOS has `fcntl(F_NOCACHE)`.
pub fn supports_direct() -> (r: bool)
    ensures
        r,
{
    true
}

/// Whether a read error means "this spot of the medium is unreadable", the only
/// condition under which sectors are marked `bad` and the copy moves on. `EIO`
/// is the damage signal, `EBADMSG` an integrity failure. Anything else (a
/// vanished device, a bad fd) is not positional damage, and skipping past it
/// would sweep the rest of the source into `bad`.
pub fn is_media_error(fault: ReadFault) -> (r: bool)
    ensures
        r == (fault == ReadFault::Io || fault == ReadFault::BadMessage),
{
    match fault {
        ReadFault::Io | ReadFault::BadMessage => true,
        _ => false,
    }
}

/// How many decimal digits `s` begins with.
pub open spec fn leading_digits(s: Seq<char>) -> int
    decreases s.len(),
{
    if s.len() == 0 || text::digit_value(s[0]) is None {
        0
    } else {
        1 + leading_digits(s.skip(1))
    }
}

/// A device-node name without the `r` of a raw node.
pub open spec fn base_name(name: Seq<char>) -> Seq<char> {
    if name.len() > 0 && name[0] == 'r' {
        name.skip(1)
    } else {
        name
    }
}

/// The whole-disk unit of a device-node name: `disk` and a number, from the
/// start. `None` for anything that is not a disk node.
pub open spec fn unit_of(name: Seq<char>) -> Option<Seq<char>> {
    let base = base_name(name);
    if base.len() < 4 || base.take(4) != "disk"@ {
        None
    } else {
        let digits = leading_digits(base.skip(4));
        if digits == 0 {
            None
        } else {
            Some(base.take(4 + digits))
        }
    }
}

/// The whole-disk unit of a device-node name: `disk3s1s1` gives `disk3`,
/// `rdisk3s1` gives `disk3`. `None` for anything that is not a disk node.
pub fn disk_unit(name: &str) -> (r: Option<String>)
    ensures
        r is Some <==> unit_of(name@) is Some,
        r matches Some(unit) ==> unit_of(name@) == Some(unit@),
{
    let chars = text::chars_of(name);
    let start: usize = if chars.len() > 0 && chars[0] == 'r' { 1 } else { 0 };
    let ghost base = base_name(name@);
    proof {
        assert(base =~= name@.skip(start as int));
        reveal_strlit("disk");
    }
    if chars.len() - start < 4 {
        return None;
    }
    if chars[start] != 'd' || chars[start + 1] != 'i' || chars[start + 2] != 's' || chars[start + 3]
        != 'k' {
        proof {
            if base.take(4) == "disk"@ {
                assert(base.take(4)[0] == 'd' && base.take(4)[1] == 'i' && base.take(4)[2] == 's'
                    && base.take(4)[3] == 'k');
            }
        }
        return None;
    }
    proof {
        assert(base.take(4) =~= "disk"@);
    }
    let from = start + 4;
    let mut end = from;
    let ghost tail = base.skip(4);
    proof {
        assert(tail.skip(0) =~= tail);
    }
    while end < chars.len() && '0' <= chars[end] && chars[end] <= '9'
        invariant
            from <= end <= chars@.len(),
            tail =~= chars@.skip(from as int),
            leading_digits(tail) == end - from + leading_digits(tail.skip(end - from)),
        decreases chars@.len() - end,
    {
        proof {
            let here = tail.skip(end - from);
            assert(here[0] == chars@[end as int]);
            assert(here.skip(1) =~= tail.skip(end + 1 - from));
        }
        end = end + 1;
    }
    proof {
        let here = tail.skip(end - from);
        if end < chars@.len() {
            assert(here[0] == chars@[end as int]);
        }
        assert(leading_digits(here) == 0);
    }
    if end == from {
        return None;
    }
    let unit = text::text_of(&chars[start..end]);
    proof {
        assert(unit@ =~= base.take(4 + (end - from)));
    }
    Some(unit)
}

/// A node of `/dev` is named for a unit: it is the disk itself or one of its
/// slices, buffered or raw.
pub open spec fn is_of_unit(name: Seq<char>, unit: Seq<char>) -> bool {
    unit_of(name) == Some(unit)
}

/// Whether a disk device carries a mounted filesystem. Its nodes are related by
/// name, since macOS has no sysfs to walk: where the device has a whole-disk
/// unit, it counts as mounted if a node named for that unit is. `unit` is that
/// unit, `own` the number of the device itself, which decides where there is
/// none, and `nodes` are the nodes of `/dev`.
pub fn is_mounted(
    unit: Option<&str>,
    own: (u64, u64),
    nodes: &Vec<(String, (u64, u64))>,
    mounted: &Vec<(u64, u64)>,
) -> (r: bool)
    ensures
        r == (match unit {
            Some(unit) => exists|i: int|
                0 <= i < nodes@.len() && is_of_unit((#[trigger] nodes@[i]).0@, unit@)
                    && mounted@.contains(nodes@[i].1),
            None => mounted@.contains(own),
        }),
{
    let whole = match unit {
        Some(unit) => unit.to_owned(),
        None => {
            return linux::holds_id(mounted, own);
        },
    };
    for i in 0..nodes.len()
        invariant
            unit matches Some(unit) && unit@ == whole@,
            forall|k: int|
                0 <= k < i ==> !(is_of_unit((#[trigger] nodes@[k]).0@, whole@) && mounted@.contains(
                    nodes@[k].1,
                )),
    {
        let (name, id) = (&nodes[i].0, nodes[i].1);
        let named = match disk_unit(name.as_str()) {
            Some(of) => of == whole,
            None => false,
        };
        if named && linux::holds_id(mounted, id) {
            assert(is_of_unit(nodes@[i as int].0@, whole@));
            return true;
        }
    }
    false
}

/// Whether a mount source names a path. Virtual sources (`devfs`,
/// `map auto_home`) do not.
pub fn is_path(source: &str) -> (r: bool)
    ensures
        r == (source@.len() > 0 && source@[0] == '/'),
{
    source.unicode_len() > 0 && source.get_char(0) == '/'
}

/// The unit of a disk is its own unit: slices and raw nodes of a disk have the
/// unit of the whole disk, which has itself.
pub proof fn law_unit_of_a_unit(name: Seq<char>)
    requires
        unit_of(name) is Some,
    ensures
        unit_of(unit_of(name)->0) == unit_of(name),
{
    let base = base_name(name);
    let n = leading_digits(base.skip(4));
    let unit = unit_of(name)->0;
    reveal_strlit("disk");
    lemma_leading_digits(base.skip(4));
    assert(unit[0] == base.take(4)[0]);
    assert(base_name(unit) == unit);
    assert(unit.take(4) =~= base.take(4));
    assert(unit.skip(4) =~= base.skip(4).take(n));
    lemma_all_leading(unit.skip(4));
}

proof fn lemma_leading_digits(s: Seq<char>)
    ensures
        0 <= leading_digits(s) <= s.len(),
        text::all_digits(s.take(leading_digits(s))),
    decreases s.len(),
{
    if s.len() > 0 && text::digit_value(s[0]) is Some {
        let rest = s.skip(1);
        lemma_leading_digits(rest);
        let n = leading_digits(s);
        assert forall|i: int| 0 <= i < n implies #[trigger] text::digit_value(s.take(n)[i])
            is Some by {
            if i > 0 {
                assert(text::digit_value(rest.take(n - 1)[i - 1]) is Some);
                assert(rest.take(n - 1)[i - 1] == s.take(n)[i]);
            }
        }
    }
}

proof fn lemma_all_leading(s: Seq<char>)
    requires
        text::all_digits(s),
    ensures
        leading_digits(s) == s.len(),
    decreases s.len(),
{
    if s.len() > 0 {
        let rest = s.skip(1);
        assert(text::digit_value(s[0]) is Some);
        assert forall|i: int| 0 <= i < rest.len() implies #[trigger] text::digit_value(rest[i])
            is Some by {
            assert(text::digit_value(s[i + 1]) is Some);
        }
        lemma_all_leading(rest);
    }
}

/// Every node of a disk has the unit of the disk: `disk` and its number, whatever is behind
/// the number, and whether it is the raw node or not. Nothing else has a unit.
#[verifier::rlimit(40)]
pub proof fn law_nodes_of_a_disk(digits: Seq<char>, rest: Seq<char>, name: Seq<char>)
    requires
        digits.len() > 0,
        text::all_digits(digits),
        rest.len() > 0 ==> text::digit_value(rest[0]) is None,
    ensures
        unit_of("disk"@ + digits + rest) == Some("disk"@ + digits),
        unit_of("rdisk"@ + digits + rest) == Some("disk"@ + digits),
        unit_of(name) matches Some(unit) ==> {
            &&& unit.len() > 4
            &&& unit.take(4) == "disk"@
            &&& text::all_digits(unit.skip(4))
            &&& exists|behind: Seq<char>|
                name == #[trigger] (unit + behind) || name == seq!['r'] + (unit + behind)
        },
{
    reveal_strlit("disk");
    reveal_strlit("rdisk");
    let unit = "disk"@ + digits;
    let base = unit + rest;
    lemma_leading(digits, rest);
    assert(base.take(4) =~= "disk"@);
    assert(base.skip(4) =~= digits + rest);
    assert(base.take(4 + digits.len() as int) =~= unit);
    assert(base[0] == 'd');
    let raw = "rdisk"@ + digits + rest;
    assert(raw.skip(1) =~= base);
    if unit_of(name) is Some {
        let b = base_name(name);
        let u = unit_of(name)->0;
        lemma_leading_digits(b.skip(4));
        let n = leading_digits(b.skip(4));
        assert(u.take(4) =~= b.take(4));
        assert(u.skip(4) =~= b.skip(4).take(n));
        let behind = b.skip(4 + n);
        assert(b =~= u + behind);
        if name.len() > 0 && name[0] == 'r' {
            assert(name =~= seq!['r'] + (u + behind));
        }
    }
}

proof fn lemma_leading(digits: Seq<char>, rest: Seq<char>)
    requires
        text::all_digits(digits),
        rest.len() > 0 ==> text::digit_value(rest[0]) is None,
    ensures
        leading_digits(digits + rest) == digits.len(),
    decreases digits.len(),
{
    let s = digits + rest;
    if digits.len() > 0 {
        let less = digits.skip(1);
        assert(text::digit_value(digits[0]) is Some);
        assert forall|i: int| 0 <= i < less.len() implies #[trigger] text::digit_value(less[i])
            is Some by {
            assert(text::digit_value(digits[i + 1]) is Some);
        }
        lemma_leading(less, rest);
        assert(s.skip(1) =~= less + rest);
        assert(s[0] == digits[0]);
    } else {
        assert(s =~= rest);
    }
}

} // verus!
