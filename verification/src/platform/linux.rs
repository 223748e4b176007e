//! Linux backend: what block-device ioctls, procfs and sysfs report.

use crate::engine::ReadFault;
use crate::params::DEFAULT_SECTOR_SIZE;
use crate::text;
use crate::text::Stop;
use vstd::prelude::*;

verus! {

/// The size of a source: regular files report their length, block devices their
/// capacity, both by seeking to the end. Non-seekable sources have none.
pub fn detect_size(seeked: Option<u64>) -> (r: Option<u64>)
    ensures
        r == seeked,
{
    seeked
}

/// The logical sector size of a source. Block devices report it; everything else
/// (regular files, pipes, a failed probe, a size that is none) falls back to the
/// default. `reported` is what the probe of a block device gave.
pub fn detect_sector_size(reported: Option<i32>) -> (r: u64)
    ensures
        r == (match reported {
            Some(size) => if size > 0 {
                size as u64
            } else {
                DEFAULT_SECTOR_SIZE
            },
            None => DEFAULT_SECTOR_SIZE,
        }),
{
    match reported {
        Some(size) => if size > 0 {
            size as u64
        } else {
            DEFAULT_SECTOR_SIZE
        },
        None => DEFAULT_SECTOR_SIZE,
    }
}

/// Whether this platform can bypass the page cache for source reads
/// (`--direct`). Linux has `O_DIRECT`.
pub fn supports_direct() -> (r: bool)
    ensures
        r,
{
    true
}

/// Whether a read error means "this spot of the medium is unreadable", the only
/// condition under which sectors are marked `bad` and the copy moves on. `EIO`
/// is the block layer's damage signal, `EREMOTEIO` its USB-bridge cousin,
/// `EBADMSG` an integrity (T10 DIF) failure. Anything else (`EINVAL` from
/// `O_DIRECT` misuse, a vanished device, a bad fd) is not positional damage, and
/// skipping past it would sweep the rest of the source into `bad`.
pub fn is_media_error(fault: ReadFault) -> (r: bool)
    ensures
        r == (fault == ReadFault::Io || fault == ReadFault::RemoteIo || fault
            == ReadFault::BadMessage),
{
    match fault {
        ReadFault::Io | ReadFault::RemoteIo | ReadFault::BadMessage => true,
        _ => false,
    }
}

/// The major number in a raw device number.
pub open spec fn major_of(rdev: u64) -> u64 {
    ((rdev & 0xfff00) >> 8) | ((rdev & 0xffff_f000_0000_0000) >> 32)
}

/// The minor number in a raw device number.
pub open spec fn minor_of(rdev: u64) -> u64 {
    (rdev & 0xff) | ((rdev & 0xfff_fff0_0000) >> 12)
}

/// Split a raw `st_rdev` into `(major, minor)`.
pub fn dev_split(rdev: u64) -> (r: (u64, u64))
    ensures
        r == (major_of(rdev), minor_of(rdev)),
        r.0 <= u32::MAX,
        r.1 <= u32::MAX,
{
    proof {
        assert((((rdev & 0xfff00) >> 8) | ((rdev & 0xffff_f000_0000_0000) >> 32)) <= 0xffff_ffff)
            by (bit_vector);
        assert(((rdev & 0xff) | ((rdev & 0xfff_fff0_0000) >> 12)) <= 0xffff_ffff) by (bit_vector);
    }
    (
        ((rdev & 0xfff00) >> 8) | ((rdev & 0xffff_f000_0000_0000) >> 32),
        (rdev & 0xff) | ((rdev & 0xfff_fff0_0000) >> 12),
    )
}

/// A device number written as `major:minor`.
pub open spec fn read_dev(s: Seq<char>) -> Option<(u64, u64)> {
    let n = text::run_to(s, Stop::At(':'));
    if n < s.len() {
        match (text::read_u64(s.take(n)), text::read_u64(s.skip(n + 1))) {
            (Some(major), Some(minor)) => Some((major, minor)),
            _ => None,
        }
    } else {
        None
    }
}

fn parse_dev_chars(chars: &[char]) -> (r: Option<(u64, u64)>)
    ensures
        r == read_dev(chars@),
{
    proof {
        assert(chars@.skip(0) =~= chars@);
        text::lemma_run_to(chars@, Stop::At(':'));
    }
    let n = text::find_stop(chars, 0, Stop::At(':'));
    if n == chars.len() {
        return None;
    }
    let before = text::text_of(&chars[0..n]);
    let after = text::text_of(&chars[n + 1..chars.len()]);
    proof {
        assert(before@ =~= chars@.take(n as int));
        assert(after@ =~= chars@.skip(n + 1));
    }
    match (text::parse_u64(before.as_str()), text::parse_u64(after.as_str())) {
        (Some(major), Some(minor)) => Some((major, minor)),
        _ => None,
    }
}

/// The device number in a sysfs `dev` file: `major:minor`, with white space
/// around it.
pub fn parse_dev(content: &str) -> (r: Option<(u64, u64)>)
    ensures
        r == read_dev(text::trimmed(content@)),
{
    let chars = text::chars_of(content);
    let inner = text::trim(chars.as_slice());
    parse_dev_chars(inner.as_slice())
}

/// The position of the first `-` among `ws` at or after `from`.
pub open spec fn separator(ws: Seq<Seq<char>>, from: int) -> int
    decreases ws.len() - from,
{
    if from >= ws.len() || ws[from] == "-"@ {
        from
    } else {
        separator(ws, from + 1)
    }
}

/// What a mountinfo line says: the `major:minor` device field (the third word)
/// and the mount source, the second word after the `-` separator. `None` for a
/// line without a device field.
pub open spec fn mount_entry(line: Seq<char>) -> Option<((u64, u64), Option<Seq<char>>)> {
    let ws = text::words(line);
    if ws.len() < 3 || read_dev(ws[2]) is None {
        None
    } else {
        let at = separator(ws, 3) + 2;
        Some(
            (
                read_dev(ws[2])->0,
                if at < ws.len() {
                    Some(ws[at])
                } else {
                    None
                },
            ),
        )
    }
}

/// What the lines of a mountinfo file say, in order.
pub open spec fn mount_entries(ls: Seq<Seq<char>>) -> Seq<((u64, u64), Option<Seq<char>>)>
    decreases ls.len(),
{
    if ls.len() == 0 {
        Seq::empty()
    } else {
        let front = mount_entries(ls.drop_last());
        match mount_entry(ls.last()) {
            Some(entry) => front.push(entry),
            None => front,
        }
    }
}

/// A mount entry with its source as a sequence of characters.
pub open spec fn entry_view(entry: ((u64, u64), Option<String>)) -> (
    (u64, u64),
    Option<Seq<char>>,
) {
    (
        entry.0,
        match entry.1 {
            Some(source) => Some(source@),
            None => None,
        },
    )
}

fn parse_mount_line(line: &[char]) -> (r: Option<((u64, u64), Option<String>)>)
    ensures
        r is Some <==> mount_entry(line@) is Some,
        r matches Some(entry) ==> mount_entry(line@) == Some(entry_view(entry)),
{
    let ws = text::split_words(line);
    let ghost all = text::words(line@);
    if ws.len() < 3 {
        return None;
    }
    proof {
        assert(ws@[2]@ == all[2]);
    }
    let id = match parse_dev_chars(ws[2].as_slice()) {
        Some(id) => id,
        None => {
            return None;
        },
    };
    let mut at: usize = 3;
    while at < ws.len() && !is_dash(ws[at].as_slice())
        invariant
            3 <= at <= ws@.len(),
            ws@.len() == all.len(),
            forall|i: int| 0 <= i < ws@.len() ==> (#[trigger] ws@[i])@ == all[i],
            separator(all, 3) == separator(all, at as int),
        decreases ws@.len() - at,
    {
        at = at + 1;
    }
    proof {
        assert(separator(all, 3) == at);
    }
    if ws.len() - at > 2 {
        let source = text::text_of(ws[at + 2].as_slice());
        proof {
            assert(ws@[at + 2]@ == all[at + 2]);
        }
        Some((id, Some(source)))
    } else {
        Some((id, None))
    }
}

fn is_dash(word: &[char]) -> (r: bool)
    ensures
        r == (word@ == "-"@),
{
    proof {
        reveal_strlit("-");
    }
    if word.len() == 1 && word[0] == '-' {
        assert(word@ =~= "-"@);
        true
    } else {
        assert(word@ != "-"@) by {
            if word@ == "-"@ {
                assert(word@[0] == "-"@[0]);
            }
        }
        false
    }
}

/// Extract, per mountinfo line, the `major:minor` device field and the mount
/// source, e.g. `/dev/mapper/root`. Virtual filesystems yield 0:xx ids and
/// non-path sources (`tmpfs`, `cgroup2`); the caller filters those out.
pub fn parse_mountinfo(content: &str) -> (r: Vec<((u64, u64), Option<String>)>)
    ensures
        r@.map_values(|e: ((u64, u64), Option<String>)| entry_view(e)) == mount_entries(
            text::lines(content@),
        ),
{
    let chars = text::chars_of(content);
    let ls = text::split_lines(chars.as_slice());
    let ghost all = text::lines(content@);
    let ghost view = |e: ((u64, u64), Option<String>)| entry_view(e);
    let mut out: Vec<((u64, u64), Option<String>)> = Vec::new();
    proof {
        assert(out@.map_values(view) =~= mount_entries(all.take(0)));
    }
    for i in 0..ls.len()
        invariant
            view == (|e: ((u64, u64), Option<String>)| entry_view(e)),
            ls@.len() == all.len(),
            forall|k: int| 0 <= k < ls@.len() ==> (#[trigger] ls@[k])@ == all[k],
            out@.map_values(view) == mount_entries(all.take(i as int)),
    {
        let ghost before = out@;
        proof {
            assert(ls@[i as int]@ == all[i as int]);
            assert(all.take(i + 1).drop_last() =~= all.take(i as int));
            assert(all.take(i + 1).last() == all[i as int]);
        }
        match parse_mount_line(ls[i].as_slice()) {
            Some(entry) => {
                out.push(entry);
                proof {
                    assert(out@.map_values(view) =~= before.map_values(view).push(
                        entry_view(entry),
                    ));
                }
            },
            None => {},
        }
    }
    proof {
        assert(all.take(all.len() as int) =~= all);
    }
    out
}

/// The first words of all lines but the first: the swap areas in a `/proc/swaps`
/// file, whose first line is a heading. Lines without a word are passed over.
pub open spec fn swap_paths(ls: Seq<Seq<char>>) -> Seq<Seq<char>>
    decreases ls.len(),
{
    if ls.len() <= 1 {
        Seq::empty()
    } else {
        let front = swap_paths(ls.drop_last());
        let ws = text::words(ls.last());
        if ws.len() > 0 {
            front.push(ws[0])
        } else {
            front
        }
    }
}

/// The paths of the active swap areas. Swap does not appear in mountinfo but is
/// just as live.
pub fn parse_swaps(content: &str) -> (r: Vec<String>)
    ensures
        crate::hash::texts(r@) == swap_paths(text::lines(content@)),
{
    let chars = text::chars_of(content);
    let ls = text::split_lines(chars.as_slice());
    let ghost all = text::lines(content@);
    let mut out: Vec<String> = Vec::new();
    proof {
        assert(crate::hash::texts(out@) =~= swap_paths(all.take(0)));
    }
    for i in 0..ls.len()
        invariant
            ls@.len() == all.len(),
            forall|k: int| 0 <= k < ls@.len() ==> (#[trigger] ls@[k])@ == all[k],
            crate::hash::texts(out@) == swap_paths(all.take(i as int)),
    {
        let ghost before = out@;
        proof {
            assert(ls@[i as int]@ == all[i as int]);
            assert(all.take(i + 1).drop_last() =~= all.take(i as int));
            assert(all.take(i + 1).last() == all[i as int]);
        }
        if i > 0 {
            let ws = text::split_words(ls[i].as_slice());
            if ws.len() > 0 {
                let ghost first = ws@[0]@;
                let path = text::text_of(ws[0].as_slice());
                out.push(path);
                proof {
                    assert(crate::hash::texts(out@) =~= crate::hash::texts(before).push(first));
                }
            }
        }
    }
    proof {
        assert(all.take(all.len() as int) =~= all);
    }
    out
}

/// Whether a mount source names a path: it may then be a block device. (Btrfs
/// and other multi-device filesystems report an anonymous 0:xx id; the mount
/// source names the real block device.)
pub fn is_path(source: &str) -> (r: bool)
    ensures
        r == (source@.len() > 0 && source@[0] == '/'),
{
    source.unicode_len() > 0 && source.get_char(0) == '/'
}

/// The sysfs directory of a block device. Its partitions are subdirectories with
/// a `dev` file of their own, the devices stacked on it are in `holders/`.
pub fn sysfs_dir(id: (u64, u64)) -> (r: String)
    ensures
        r@ == "/sys/dev/block/"@ + text::decimal(id.0 as nat) + ":"@ + text::decimal(id.1 as nat),
{
    let mut out = "/sys/dev/block/".to_owned();
    out.append(text::decimal_text(id.0).as_str());
    out.append(":");
    out.append(text::decimal_text(id.1).as_str());
    out
}

pub(crate) fn holds_id(list: &Vec<(u64, u64)>, id: (u64, u64)) -> (r: bool)
    ensures
        r == list@.contains(id),
{
    for i in 0..list.len()
        invariant
            forall|k: int| 0 <= k < i ==> list@[k] != id,
    {
        if list[i].0 == id.0 && list[i].1 == id.1 {
            assert(list@[i as int] == id);
            return true;
        }
    }
    false
}

/// The transitive device family of a block device as it is being found:
/// partitions and stacked holders, recursively. The driver lists the children of
/// one member after the other.
pub struct DeviceFamily {
    members: Vec<(u64, u64)>,
    asked: usize,
}

/// A [`DeviceFamily`] as a value of the model: the members found, of which the
/// first `asked` have had their children listed.
#[verifier::ext_equal]
pub struct FamilyModel {
    pub members: Seq<(u64, u64)>,
    pub asked: int,
}

/// `members` with those of `children` added that were not among them.
pub open spec fn joined(members: Seq<(u64, u64)>, children: Seq<(u64, u64)>) -> Seq<(u64, u64)>
    decreases children.len(),
{
    if children.len() == 0 {
        members
    } else {
        let front = joined(members, children.drop_last());
        if front.contains(children.last()) {
            front
        } else {
            front.push(children.last())
        }
    }
}

impl View for DeviceFamily {
    type V = FamilyModel;

    closed spec fn view(&self) -> FamilyModel {
        FamilyModel { members: self.members@, asked: self.asked as int }
    }
}

impl DeviceFamily {
    pub closed spec fn wf(&self) -> bool {
        self.asked <= self.members@.len()
    }

    /// A family of which only the device itself is known.
    pub fn new(root: (u64, u64)) -> (r: Self)
        ensures
            r.wf(),
            r@ == (FamilyModel { members: seq![root], asked: 0 }),
    {
        let mut members: Vec<(u64, u64)> = Vec::new();
        members.push(root);
        let r = DeviceFamily { members, asked: 0 };
        assert(r@ =~= FamilyModel { members: seq![root], asked: 0 });
        r
    }

    /// The member whose children are to be listed next; `None` when the family
    /// is complete.
    pub fn next(&self) -> (r: Option<(u64, u64)>)
        requires
            self.wf(),
        ensures
            r == (if self@.asked < self@.members.len() {
                Some(self@.members[self@.asked])
            } else {
                None
            }),
            0 <= self@.asked <= self@.members.len(),
    {
        if self.asked < self.members.len() {
            Some(self.members[self.asked])
        } else {
            None
        }
    }

    /// Take in the children of the member that was next.
    pub fn step(&mut self, children: Vec<(u64, u64)>)
        requires
            old(self).wf(),
            old(self)@.asked < old(self)@.members.len(),
        ensures
            final(self).wf(),
            final(self)@ == (FamilyModel {
                members: joined(old(self)@.members, children@),
                asked: old(self)@.asked + 1,
            }),
    {
        let found: usize = self.members.len();
        assert(self.asked < found);
        self.asked = self.asked + 1;
        let ghost before = old(self)@.members;
        proof {
            assert(joined(before, children@.take(0)) == before);
        }
        for i in 0..children.len()
            invariant
                self.asked == old(self)@.asked + 1,
                before == old(self)@.members,
                self.members@ == joined(before, children@.take(i as int)),
                self.asked <= self.members@.len(),
        {
            let id = children[i];
            proof {
                assert(children@.take(i + 1).drop_last() =~= children@.take(i as int));
                assert(children@.take(i + 1).last() == id);
            }
            if !holds_id(&self.members, id) {
                self.members.push(id);
            }
        }
        proof {
            assert(children@.take(children@.len() as int) =~= children@);
            assert(self@ =~= FamilyModel {
                members: joined(before, children@),
                asked: old(self)@.asked + 1,
            });
        }
    }

    /// Whether a member of the family is among the mounted devices.
    pub fn is_mounted(&self, mounted: &Vec<(u64, u64)>) -> (r: bool)
        ensures
            r == (exists|i: int|
                0 <= i < self@.members.len() && mounted@.contains(#[trigger] self@.members[i])),
    {
        for i in 0..self.members.len()
            invariant
                forall|k: int| 0 <= k < i ==> !mounted@.contains(#[trigger] self@.members[k]),
        {
            if holds_id(mounted, self.members[i]) {
                assert(mounted@.contains(self@.members[i as int]));
                return true;
            }
        }
        false
    }
}

proof fn lemma_joined(members: Seq<(u64, u64)>, children: Seq<(u64, u64)>)
    ensures
        members.len() <= joined(members, children).len(),
        forall|i: int|
            0 <= i < members.len() ==> #[trigger] joined(members, children)[i] == members[i],
        forall|i: int|
            0 <= i < children.len() ==> joined(members, children).contains(#[trigger] children[i]),
        forall|i: int|
            members.len() <= i < joined(members, children).len() ==> children.contains(
                #[trigger] joined(members, children)[i],
            ),
    decreases children.len(),
{
    if children.len() > 0 {
        let rest = children.drop_last();
        let front = joined(members, rest);
        let all = joined(members, children);
        lemma_joined(members, rest);
        assert forall|i: int| 0 <= i < children.len() implies all.contains(
            #[trigger] children[i],
        ) by {
            if i < rest.len() {
                assert(front.contains(rest[i]));
                let k = choose|k: int| 0 <= k < front.len() && front[k] == rest[i];
                assert(all[k] == children[i]);
            } else if front.contains(children.last()) {
                assert(all == front);
            } else {
                assert(all[front.len() as int] == children[i]);
            }
        }
        assert forall|i: int| members.len() <= i < all.len() implies children.contains(
            #[trigger] all[i],
        ) by {
            if i < front.len() {
                assert(rest.contains(front[i]));
                let k = choose|k: int| 0 <= k < rest.len() && rest[k] == front[i];
                assert(children[k] == all[i]);
            } else {
                assert(children[children.len() - 1] == all[i]);
            }
        }
    }
}

/// The devices on the way from `root` by way of `children`.
pub open spec fn within_reach(
    children: spec_fn((u64, u64)) -> Seq<(u64, u64)>,
    root: (u64, u64),
    id: (u64, u64),
    steps: nat,
) -> bool
    decreases steps,
{
    id == root || (steps > 0 && exists|parent: (u64, u64)|
        within_reach(children, root, parent, (steps - 1) as nat) && #[trigger] children(
            parent,
        ).contains(id))
}

/// Whether `id` is the device itself or reached from it by children of children.
pub open spec fn reached(
    children: spec_fn((u64, u64)) -> Seq<(u64, u64)>,
    root: (u64, u64),
    id: (u64, u64),
) -> bool {
    exists|steps: nat| #[trigger] within_reach(children, root, id, steps)
}

/// What the search for a family keeps: every member is within reach of the
/// device, and the children of every member asked so far are members.
pub open spec fn family_kept(
    m: FamilyModel,
    children: spec_fn((u64, u64)) -> Seq<(u64, u64)>,
    root: (u64, u64),
) -> bool {
    &&& m.members.contains(root)
    &&& forall|i: int|
        0 <= i < m.members.len() ==> reached(children, root, #[trigger] m.members[i])
    &&& forall|i: int, id: (u64, u64)|
        0 <= i < m.asked && #[trigger] children(m.members[i]).contains(id) ==> m.members.contains(
            id,
        )
}

/// The search keeps it: given the children of the member that was next, every
/// member is still within reach, and one more has its children among them. So
/// when all have been asked, the members are closed under taking children: they
/// are the whole family and nothing else.
pub proof fn law_family_step_keeps(
    m: FamilyModel,
    children: spec_fn((u64, u64)) -> Seq<(u64, u64)>,
    root: (u64, u64),
)
    requires
        0 <= m.asked < m.members.len(),
        family_kept(m, children, root),
    ensures
        family_kept(
            FamilyModel {
                members: joined(m.members, children(m.members[m.asked])),
                asked: m.asked + 1,
            },
            children,
            root,
        ),
{
    let parent = m.members[m.asked];
    let found = children(parent);
    let all = joined(m.members, found);
    lemma_joined(m.members, found);
    let r = choose|r: int| 0 <= r < m.members.len() && m.members[r] == root;
    assert(all[r] == root);
    assert(all.contains(root));
    assert forall|i: int| 0 <= i < all.len() implies reached(
        children,
        root,
        #[trigger] all[i],
    ) by {
        if i < m.members.len() {
            assert(all[i] == m.members[i]);
        } else {
            assert(found.contains(all[i]));
            assert(reached(children, root, parent));
            let n = choose|n: nat| #[trigger] within_reach(children, root, parent, n);
            assert(children(parent).contains(all[i]));
            assert(within_reach(children, root, all[i], n + 1));
        }
    }
    assert forall|i: int, id: (u64, u64)|
        0 <= i < m.asked + 1 && #[trigger] children(all[i]).contains(id) implies all.contains(
        id,
    ) by {
        assert(all[i] == m.members[i]);
        if i < m.asked {
            assert(children(m.members[i]).contains(id));
            assert(m.members.contains(id));
            let k = choose|k: int| 0 <= k < m.members.len() && m.members[k] == id;
            assert(all[k] == id);
        } else {
            let k = choose|k: int| 0 <= k < found.len() && found[k] == id;
            assert(all.contains(found[k]));
        }
    }
}

// ---------------------------------------------------------------------------
// Laws of what the kernel reports.

/// A device number as the kernel hands it to programs: the low byte of the minor number, 12
/// bits of the major number, the rest of the minor number, the rest of the major number.
pub open spec fn made_of(major: u64, minor: u64) -> u64 {
    ((major & 0xffff_f000) << 32) | ((major & 0xfff) << 8) | ((minor & 0xffff_ff00) << 12) | (minor
        & 0xff)
}

/// Splitting undoes composing, for every pair of numbers of 32 bits, and no two device
/// numbers split alike.
pub proof fn law_device_numbers(major: u64, minor: u64, rdev: u64)
    requires
        major <= u32::MAX,
        minor <= u32::MAX,
    ensures
        major_of(made_of(major, minor)) == major,
        minor_of(made_of(major, minor)) == minor,
        made_of(major_of(rdev), minor_of(rdev)) == rdev,
{
    assert(major_of(made_of(major, minor)) == major && minor_of(made_of(major, minor)) == minor)
        by (bit_vector)
        requires
            major <= 0xffff_ffff,
            minor <= 0xffff_ffff,
    ;
    assert(made_of(major_of(rdev), minor_of(rdev)) == rdev) by (bit_vector);
}

/// Two numbers with a colon between them are read as these two; nothing without a colon is.
#[verifier::rlimit(40)]
pub proof fn law_device_fields(major: u64, minor: u64, s: Seq<char>)
    ensures
        read_dev(text::decimal(major as nat) + ":"@ + text::decimal(minor as nat)) == Some(
            (major, minor),
        ),
        read_dev(s) is Some ==> exists|i: int| 0 < i < s.len() - 1 && #[trigger] s[i] == ':',
        text::lacks(s, Stop::At(':')) ==> read_dev(s) is None,
{
    reveal_strlit(":");
    let a = text::decimal(major as nat);
    let b = text::decimal(minor as nat);
    text::lemma_digits_read(major as nat);
    text::lemma_digits_read(minor as nat);
    assert forall|i: int| 0 <= i < a.len() implies !Stop::At(':').stops(#[trigger] a[i]) by {
        assert(text::digit_value(a[i]) is Some);
    }
    let tail = ":"@ + b;
    let whole = a + ":"@ + b;
    assert(whole =~= a + tail);
    text::lemma_run_to_is(a, tail, Stop::At(':'));
    assert(whole.skip(a.len() as int + 1) =~= b);
    assert(text::digit_value(a[0]) is Some);
    assert(text::digit_value(b[0]) is Some);
    text::lemma_run_to(s, Stop::At(':'));
    let n = text::run_to(s, Stop::At(':'));
    if read_dev(s) is Some {
        assert(Stop::At(':').stops(s[n]));
        text::law_only_numbers_are_read(s.take(n), '0');
        text::law_only_numbers_are_read(s.skip(n + 1), '0');
        assert(s.take(n).len() == n);
        assert(s.skip(n + 1).len() == s.len() - n - 1);
        assert(s[n] == ':');
    }
}

/// The first dash is where the separator is.
proof fn lemma_separator(ws: Seq<Seq<char>>, from: int, k: int)
    requires
        0 <= from <= k <= ws.len(),
        forall|i: int| from <= i < k ==> #[trigger] ws[i] != "-"@,
        k < ws.len() ==> ws[k] == "-"@,
    ensures
        separator(ws, from) == k,
    decreases k - from,
{
    if from < k {
        assert(ws[from] != "-"@);
        lemma_separator(ws, from + 1, k);
    }
}

/// What is mounted is found in its line: the device is the third field, whatever the first
/// two are, and the source is the second field behind the dash, however many optional fields
/// are before it.
pub proof fn law_mounts_are_found(line: Seq<char>, major: u64, minor: u64, k: int)
    requires
        ({
            let fields = text::words(line);
            &&& 3 <= k < fields.len() - 2
            &&& fields[2] == text::decimal(major as nat) + ":"@ + text::decimal(minor as nat)
            &&& fields[k] == "-"@
            &&& forall|i: int| 3 <= i < k ==> #[trigger] fields[i] != "-"@
        }),
    ensures
        mount_entry(line) == Some(((major, minor), Some(text::words(line)[k + 2]))),
{
    law_device_fields(major, minor, line);
    lemma_separator(text::words(line), 3, k);
}

/// A line without a device field says nothing; one without a source still names its device.
pub proof fn law_short_mount_lines(line: Seq<char>)
    ensures
        text::words(line).len() < 3 ==> mount_entry(line) is None,
        text::words(line).len() >= 3 ==> (mount_entry(line) is None <==> read_dev(
            text::words(line)[2],
        ) is None),
        mount_entry(line) matches Some(entry) ==> Some(entry.0) == read_dev(text::words(line)[2]),
        mount_entry(line) is Some && text::words(line).len() <= 5 ==> (mount_entry(line)->0).1
            is None,
        mount_entry(line) is Some && !text::words(line).skip(3).contains("-"@) ==> (mount_entry(
            line,
        )->0).1 is None,
{
    let ws = text::words(line);
    if ws.len() >= 3 {
        lemma_separator_is_behind(ws, 3);
        if !ws.skip(3).contains("-"@) {
            assert forall|i: int| 3 <= i < ws.len() implies #[trigger] ws[i] != "-"@ by {
                assert(ws.skip(3)[i - 3] == ws[i]);
            }
            lemma_separator(ws, 3, ws.len() as int);
        }
    }
}

proof fn lemma_separator_is_behind(ws: Seq<Seq<char>>, from: int)
    ensures
        separator(ws, from) >= from,
    decreases ws.len() - from,
{
    if from < ws.len() && ws[from] != "-"@ {
        lemma_separator_is_behind(ws, from + 1);
    }
}

/// Every line is read for itself, in order.
#[verifier::rlimit(40)]
pub proof fn law_mounts_line_by_line(before: Seq<Seq<char>>, line: Seq<char>, after: Seq<Seq<char>>)
    ensures
        mount_entries(before + seq![line] + after) == mount_entries(before) + (match mount_entry(
            line,
        ) {
            Some(entry) => seq![entry],
            None => Seq::empty(),
        }) + mount_entries(after),
        mount_entries(Seq::empty()) == Seq::<((u64, u64), Option<Seq<char>>)>::empty(),
    decreases after.len(),
{
    let all = before + seq![line] + after;
    let own = match mount_entry(line) {
        Some(entry) => seq![entry],
        None => Seq::empty(),
    };
    if after.len() > 0 {
        let less = after.drop_last();
        law_mounts_line_by_line(before, line, less);
        assert(all.drop_last() =~= before + seq![line] + less);
        assert(all.last() == after.last());
        assert(mount_entries(all) =~= mount_entries(before) + own + mount_entries(after));
    } else {
        assert(all.drop_last() =~= before);
        assert(all.last() == line);
        assert(mount_entries(all) =~= mount_entries(before) + own + mount_entries(after));
    }
}

/// Every swap area is found: the first line is a heading, whatever it says, and the first
/// word of every other line is a path.
#[verifier::rlimit(40)]
pub proof fn law_swaps_line_by_line(
    heading: Seq<char>,
    before: Seq<Seq<char>>,
    line: Seq<char>,
    after: Seq<Seq<char>>,
)
    ensures
        swap_paths(seq![heading]) == Seq::<Seq<char>>::empty(),
        swap_paths(seq![heading] + before + seq![line] + after) == swap_paths(
            seq![heading] + before,
        ) + (if text::words(line).len() > 0 {
            seq![text::words(line)[0]]
        } else {
            Seq::empty()
        }) + swap_paths(seq![heading] + after),
    decreases after.len(),
{
    let all = seq![heading] + before + seq![line] + after;
    let own = if text::words(line).len() > 0 {
        seq![text::words(line)[0]]
    } else {
        Seq::empty()
    };
    let behind = seq![heading] + after;
    if after.len() > 0 {
        let less = after.drop_last();
        law_swaps_line_by_line(heading, before, line, less);
        assert(all.drop_last() =~= seq![heading] + before + seq![line] + less);
        assert(behind.drop_last() =~= seq![heading] + less);
        assert(all.last() == after.last());
        assert(behind.last() == after.last());
        assert(swap_paths(all) =~= swap_paths(seq![heading] + before) + own + swap_paths(behind));
    } else {
        assert(behind =~= seq![heading]);
        assert(all.drop_last() =~= seq![heading] + before);
        assert(all.last() == line);
        assert(swap_paths(all) =~= swap_paths(seq![heading] + before) + own + swap_paths(behind));
    }
}

/// The search begins with the device, and ends with its whole family and nothing else.
pub proof fn law_whole_family(
    m: FamilyModel,
    children: spec_fn((u64, u64)) -> Seq<(u64, u64)>,
    root: (u64, u64),
    id: (u64, u64),
)
    ensures
        family_kept(FamilyModel { members: seq![root], asked: 0 }, children, root),
        family_kept(m, children, root) && m.asked == m.members.len() ==> (m.members.contains(id)
            <==> reached(children, root, id)),
{
    let start = FamilyModel { members: seq![root], asked: 0 };
    assert(start.members[0] == root);
    assert(within_reach(children, root, root, 0));
    if family_kept(m, children, root) && m.asked == m.members.len() {
        if m.members.contains(id) {
            let i = choose|i: int| 0 <= i < m.members.len() && m.members[i] == id;
            assert(reached(children, root, m.members[i]));
        }
        if reached(children, root, id) {
            let steps = choose|steps: nat| #[trigger] within_reach(children, root, id, steps);
            lemma_within_family(m, children, root, id, steps);
        }
    }
}

proof fn lemma_within_family(
    m: FamilyModel,
    children: spec_fn((u64, u64)) -> Seq<(u64, u64)>,
    root: (u64, u64),
    id: (u64, u64),
    steps: nat,
)
    requires
        family_kept(m, children, root),
        m.asked == m.members.len(),
        within_reach(children, root, id, steps),
    ensures
        m.members.contains(id),
    decreases steps,
{
    if id != root {
        let parent = choose|parent: (u64, u64)|
            within_reach(children, root, parent, (steps - 1) as nat) && #[trigger] children(
                parent,
            ).contains(id);
        lemma_within_family(m, children, root, parent, (steps - 1) as nat);
        let i = choose|i: int| 0 <= i < m.members.len() && m.members[i] == parent;
        assert(children(m.members[i]).contains(id));
    }
}

/// No device is listed twice, so the search ends once every device has been asked.
pub proof fn law_no_member_twice(members: Seq<(u64, u64)>, children: Seq<(u64, u64)>)
    requires
        members.no_duplicates(),
    ensures
        joined(members, children).no_duplicates(),
        forall|id: (u64, u64)|
            #[trigger] joined(members, children).contains(id) <==> members.contains(id)
                || children.contains(id),
    decreases children.len(),
{
    if children.len() > 0 {
        law_no_member_twice(members, children.drop_last());
    }
    lemma_joined(members, children);
    let all = joined(members, children);
    assert forall|id: (u64, u64)| #[trigger]
        all.contains(id) <==> members.contains(id) || children.contains(id) by {
        if all.contains(id) {
            let i = choose|i: int| 0 <= i < all.len() && all[i] == id;
            if i < members.len() {
                assert(members[i] == id);
            } else {
                assert(children.contains(all[i]));
            }
        }
        if members.contains(id) {
            let i = choose|i: int| 0 <= i < members.len() && members[i] == id;
            assert(all[i] == id);
        }
        if children.contains(id) {
            let i = choose|i: int| 0 <= i < children.len() && children[i] == id;
            assert(all.contains(children[i]));
        }
    }
}

} // verus!
