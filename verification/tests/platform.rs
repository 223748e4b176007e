use exhume::engine::{fault_of, FaultCodes, ReadFault};
use exhume::platform::linux::{dev_split, parse_dev, parse_mountinfo, parse_swaps, DeviceFamily};
use exhume::platform::macos::{disk_capacity, disk_unit};
use exhume::platform::{fallback, linux, macos};

#[test]
fn mountinfo_yields_device_ids_and_sources() {
    let text = "\
36 35 98:0 / /mnt1 rw,noatime master:1 - ext3 /dev/root rw,errors=continue
37 35 8:17 / /mnt2 rw,relatime shared:2 - ext4 /dev/sdb1 rw
38 35 0:25 / /sys/fs/cgroup ro - cgroup2 cgroup2 rw
39 35 0:31 /root / rw shared:1 - btrfs /dev/mapper/root rw,ssd";
    let entries = parse_mountinfo(text);
    let entries: Vec<((u64, u64), Option<&str>)> = entries
        .iter()
        .map(|(id, source)| (*id, source.as_deref()))
        .collect();
    assert_eq!(
        entries,
        vec![
            ((98, 0), Some("/dev/root")),
            ((8, 17), Some("/dev/sdb1")),
            ((0, 25), Some("cgroup2")),
            // Btrfs: anonymous device id; the source names the real one.
            ((0, 31), Some("/dev/mapper/root")),
        ]
    );
}

#[test]
fn disk_unit_strips_slices_and_raw_prefix() {
    assert_eq!(disk_unit("disk3").as_deref(), Some("disk3"));
    assert_eq!(disk_unit("disk3s1s1").as_deref(), Some("disk3"));
    assert_eq!(disk_unit("rdisk14s2").as_deref(), Some("disk14"));
    // Not disk nodes: no unit.
    assert_eq!(disk_unit("null"), None);
    assert_eq!(disk_unit("diskette"), None);
    assert_eq!(disk_unit("random"), None);
}

#[test]
fn a_unit_is_its_own_unit() {
    for name in ["disk3", "disk3s1s1", "rdisk14s2"] {
        let unit = disk_unit(name).unwrap();
        assert_eq!(disk_unit(&unit), Some(unit.clone()));
    }
    assert_eq!(disk_unit("rrdisk1"), None);
    assert_eq!(disk_unit("r"), None);
}

#[test]
fn broken_mountinfo_lines_are_passed_over() {
    let text = "too short\n1 2 nodev / - a b\n1 2 8:x / - a b\r\n\n1 2 8:1 / no separator\n1 2 8:2 - type\n1 2 +8:3 - type src\r\n";
    let entries = parse_mountinfo(text);
    assert_eq!(
        entries,
        vec![
            ((8, 1), None),
            ((8, 2), None),
            ((8, 3), Some("src".to_string())),
        ]
    );
    assert!(parse_mountinfo("").is_empty());
}

#[test]
fn swap_areas_come_after_the_heading() {
    let text = "Filename\t\tType\tSize\n/dev/sda2   partition 1 0 -2\n\n/swapfile file 5 0 -3\n";
    assert_eq!(parse_swaps(text), vec!["/dev/sda2", "/swapfile"]);
    assert!(parse_swaps("Filename Type\n").is_empty());
}

#[test]
fn sysfs_device_numbers_are_read() {
    assert_eq!(parse_dev(" 8:17\n"), Some((8, 17)));
    assert_eq!(parse_dev("8"), None);
    assert_eq!(parse_dev("8:17:1"), None);
    assert_eq!(parse_dev("18446744073709551615:0"), Some((u64::MAX, 0)));
    assert_eq!(parse_dev("18446744073709551616:0"), None);
    assert_eq!(linux::sysfs_dir((259, 3)), "/sys/dev/block/259:3");
    assert!(linux::is_path("/dev/sdb1") && !linux::is_path("tmpfs") && !linux::is_path(""));
    assert!(macos::is_path("/dev/disk1") && !macos::is_path("map auto_home"));
}

#[test]
fn device_numbers_split_as_the_c_library_splits_them() {
    for rdev in [0u64, 0x811, 0x10302, 0xfff_ffff, 0x1234_5678_9abc_def0, u64::MAX] {
        assert_eq!(
            dev_split(rdev),
            (
                u64::from(nix::libc::major(rdev)),
                u64::from(nix::libc::minor(rdev))
            )
        );
    }
    assert_eq!(dev_split(0x811), (8, 17));
}

#[test]
fn a_device_family_is_closed_under_children() {
    // sda has two partitions; the second carries a volume group with two
    // volumes, one of which sits on the first partition too.
    let children = |id: (u64, u64)| -> Vec<(u64, u64)> {
        match id {
            (8, 0) => vec![(8, 1), (8, 2)],
            (8, 2) => vec![(253, 0), (253, 1)],
            (8, 1) => vec![(253, 1)],
            _ => vec![],
        }
    };
    let mut family = DeviceFamily::new((8, 0));
    let mut asked = 0;
    while let Some(id) = family.next() {
        family.step(children(id));
        asked += 1;
    }
    assert_eq!(asked, 5);
    assert!(family.is_mounted(&vec![(253, 1)]));
    assert!(family.is_mounted(&vec![(9, 9), (8, 0)]));
    assert!(!family.is_mounted(&vec![(8, 16)]));
    assert!(!family.is_mounted(&vec![]));
}

#[test]
fn media_errors_differ_by_platform() {
    assert!(linux::is_media_error(ReadFault::Io));
    assert!(linux::is_media_error(ReadFault::RemoteIo));
    assert!(linux::is_media_error(ReadFault::BadMessage));
    assert!(!linux::is_media_error(ReadFault::Invalid));
    assert!(!linux::is_media_error(ReadFault::Other));
    assert!(macos::is_media_error(ReadFault::Io));
    assert!(!macos::is_media_error(ReadFault::RemoteIo));
    assert!(fallback::is_media_error(ReadFault::BadMessage));
    assert!(!fallback::is_media_error(ReadFault::RemoteIo));
}

#[test]
fn error_numbers_tell_faults_apart() {
    let linux_codes = FaultCodes {
        io: 5,
        bad_message: 74,
        invalid: 22,
        remote_io: Some(121),
    };
    assert_eq!(fault_of(Some(5), linux_codes), ReadFault::Io);
    assert_eq!(fault_of(Some(74), linux_codes), ReadFault::BadMessage);
    assert_eq!(fault_of(Some(22), linux_codes), ReadFault::Invalid);
    assert_eq!(fault_of(Some(121), linux_codes), ReadFault::RemoteIo);
    assert_eq!(fault_of(Some(19), linux_codes), ReadFault::Other);
    assert_eq!(fault_of(None, linux_codes), ReadFault::Other);
    // A system without `EREMOTEIO` does not know that number, and has its own
    // for an integrity failure.
    let macos_codes = FaultCodes {
        io: 5,
        bad_message: 94,
        invalid: 22,
        remote_io: None,
    };
    assert_eq!(fault_of(Some(121), macos_codes), ReadFault::Other);
    assert_eq!(fault_of(Some(94), macos_codes), ReadFault::BadMessage);
    assert_eq!(fault_of(Some(74), macos_codes), ReadFault::Other);
}

#[test]
fn a_disk_is_mounted_if_a_node_of_its_unit_is() {
    let node = |name: &str, id: (u64, u64)| (name.to_string(), id);
    let nodes = vec![
        node("disk3", (1, 10)),
        node("rdisk3", (14, 10)),
        node("disk3s1s1", (1, 12)),
        node("disk31", (1, 40)),
        node("null", (3, 2)),
    ];
    // The raw node of a disk with a mounted slice.
    assert!(macos::is_mounted(Some("disk3"), (14, 10), &nodes, &vec![(1, 12)]));
    // A mounted disk with a longer number is another one.
    assert!(!macos::is_mounted(Some("disk3"), (14, 10), &nodes, &vec![(1, 40)]));
    assert!(macos::is_mounted(Some("disk31"), (1, 40), &nodes, &vec![(1, 40)]));
    assert!(!macos::is_mounted(Some("disk3"), (14, 10), &nodes, &vec![]));
    // What is no disk node counts by its own number.
    assert!(macos::is_mounted(None, (3, 2), &nodes, &vec![(3, 2)]));
    assert!(!macos::is_mounted(None, (3, 2), &nodes, &vec![(1, 12)]));
}

#[test]
fn probes_fall_back_to_defaults() {
    assert_eq!(linux::detect_sector_size(Some(4096)), 4096);
    assert_eq!(linux::detect_sector_size(Some(0)), 512);
    assert_eq!(linux::detect_sector_size(Some(-1)), 512);
    assert_eq!(linux::detect_sector_size(None), 512);
    assert_eq!(macos::detect_sector_size(Some(2048)), 2048);
    assert_eq!(macos::detect_sector_size(None), 512);
    assert_eq!(fallback::detect_sector_size(), 512);
    assert_eq!(linux::detect_size(Some(7)), Some(7));
    assert_eq!(fallback::detect_size(None), None);
    assert!(linux::supports_direct() && macos::supports_direct());
    assert!(!fallback::supports_direct());
    assert!(fallback::mounted_dev_ids().is_empty());
    assert!(!fallback::device_is_mounted(&vec![(8, 0)]));
}

#[test]
fn disk_sizes_come_from_the_driver() {
    assert_eq!(disk_capacity(1000, 512), Some(512_000));
    assert_eq!(disk_capacity(0, 512), None);
    assert_eq!(disk_capacity(u64::MAX, 2), None);
    assert_eq!(macos::detect_size(Some(5), true, Some(9)), Some(5));
    assert_eq!(macos::detect_size(Some(0), true, Some(9)), Some(9));
    assert_eq!(macos::detect_size(Some(0), false, Some(9)), Some(0));
    assert_eq!(macos::detect_size(None, true, None), None);
}
