use exhume::cli::Cli;
use exhume::copier::{align_down, align_up, is_all_zero};
use exhume::engine::{
    align_offset, default_state_name, default_state_path, direct_mode, domain_length,
    effective_transfer, gap_failure_context, guard_target, initial_map, needs_extending,
    prepare_refresh, processed_at_start, resolve_params, sector_size_differs, setup_hashing,
    target_occupied, validate_resume, verify_direct, verify_failure_context, DirectMode, ReadFault,
    TargetFacts, FLUSH_INTERVAL,
};
use exhume::error::Error;
use exhume::params::RunParams;
use exhume::region::{RegionMap, RegionStatus};
use exhume::safety::{check_mounted, ensure_target_capacity, FileFacts, FileKind};
use exhume::state::Hashes;

fn cli() -> Cli {
    Cli {
        source: "/dev/sdb".to_string(),
        target: None,
        state: None,
        sector_size: None,
        transfer_size: None,
        length: None,
        skip: None,
        seek: None,
        skip_unchanged: None,
        skip_zeros: None,
        hash_chunk: None,
        refresh: false,
        verify: false,
        retry: false,
        export_map: None,
        direct: false,
        status: false,
        force: false,
        allow_mounted: false,
        quiet: false,
        json: false,
        json_progress: false,
        verbose: 0,
    }
}

fn facts(kind: FileKind, length: u64, inode: u64) -> FileFacts {
    FileFacts {
        kind,
        length,
        device: 1,
        inode,
    }
}

#[test]
fn default_state_path_appends_extension() {
    assert_eq!(default_state_path("grave.img", false), "grave.img.state");
    // A missing target (fresh image) behaves like a file path.
    assert_eq!(
        default_state_path("/nonexistent/dir/new.img", false),
        "/nonexistent/dir/new.img.state"
    );
}

#[test]
fn default_state_path_for_a_device_lands_in_the_cwd() {
    // The state must not be derived onto devtmpfs, where it dies with the next
    // boot.
    assert_eq!(default_state_path("/dev/null", true), "null.state");
    assert_eq!(default_state_path("/dev/mapper/root", true), "root.state");
    // A path without a final component keeps all of it.
    assert_eq!(default_state_path("/..", true), "/...state");
    assert_eq!(default_state_name("sdb".to_string()), "sdb.state");
}

#[test]
fn domain_respects_skip_and_count() {
    // Whole source.
    assert_eq!(domain_length(Some(1000), 0, 0), 1000);
    // Skip reduces the domain.
    assert_eq!(domain_length(Some(1000), 200, 0), 800);
    // Count caps it.
    assert_eq!(domain_length(Some(1000), 0, 100), 100);
    assert_eq!(domain_length(Some(1000), 200, 100), 100);
    // Count larger than what is left is clamped by the source.
    assert_eq!(domain_length(Some(1000), 950, 100), 50);
    // Unknown size: only count bounds it.
    assert_eq!(domain_length(None, 0, 0), 0);
    assert_eq!(domain_length(None, 0, 100), 100);
}

#[test]
fn transfers_are_whole_sectors() {
    assert_eq!(effective_transfer(1 << 20, 512), 1 << 20);
    assert_eq!(effective_transfer(5000, 512), 4608);
    assert_eq!(effective_transfer(100, 512), 512);
    assert_eq!(align_down(1000, 0), 1000);
    assert_eq!(align_down(1000, 512), 512);
    assert_eq!(align_up(1000, 512), 1024);
    assert_eq!(align_up(1024, 512), 1024);
    assert_eq!(align_up(7, 0), 7);
    assert_eq!(align_offset(4096, 512), 0);
    assert_eq!(align_offset(4097, 512), 511);
    assert!(is_all_zero(&[]) && is_all_zero(&[0; 9]) && !is_all_zero(&[0, 1]));
    assert_eq!(FLUSH_INTERVAL, 2);
}

#[test]
fn zero_sizes_are_invalid() {
    let mut c = cli();
    c.transfer_size = Some(0);
    let err = resolve_params(&c, "t".to_string(), None, 512).unwrap_err();
    assert_eq!(
        err.message(),
        "invalid size: sector size and transfer size must be greater than 0"
    );
    let mut c = cli();
    c.seek = Some(700);
    let err = resolve_params(&c, "t".to_string(), None, 512).unwrap_err();
    assert!(err.message().starts_with("--seek 700 is not a multiple"));
}

#[test]
fn a_resume_has_to_describe_the_same_copy() {
    let prev = RunParams {
        source: "/dev/sdb".to_string(),
        target: "dir/grave.img".to_string(),
        sector_size: 4096,
        transfer_size: 1 << 20,
        skip: 4096,
        seek: 0,
        length: 0,
        skip_unchanged: false,
        skip_zeros: false,
    };
    let mut now = prev.clone();
    now.source = "/dev/sdc".to_string();
    // Another source path is fine, and so is another spelling of the target.
    now.target = "dir//./grave.img".to_string();
    assert!(validate_resume(&cli(), &now, &prev).is_ok());
    now.target = "dir/../grave.img".to_string();
    assert_eq!(
        validate_resume(&cli(), &now, &prev).unwrap_err().message(),
        "the state file records target 'dir/grave.img' but the current target is \
         'dir/../grave.img'; use the recorded target or a different (or no) state file"
    );
    let mut c = cli();
    c.sector_size = Some(512);
    assert_eq!(
        validate_resume(&c, &prev, &prev).unwrap_err().message(),
        "--sector-size 512 conflicts with the resumed state's sector size 4096 (the region map \
         is aligned to the latter; edit or remove the state file to change it)"
    );
    let mut c = cli();
    c.seek = Some(4096);
    assert_eq!(
        validate_resume(&c, &prev, &prev).unwrap_err().message(),
        "--seek 4096 conflicts with the resumed state's seek 0 (the region map is relative to \
         it; remove the state file to start over)"
    );
    let mut c = cli();
    c.skip = Some(4096);
    assert!(validate_resume(&c, &prev, &prev).is_ok());
    assert!(sector_size_differs(&cli(), &prev, 512));
    assert!(!sector_size_differs(&cli(), &prev, 4096));
}

#[test]
fn a_recorded_manifest_fixes_the_grid() {
    let manifest = |algorithm: &str, chunk_size: u64| Hashes {
        algorithm: algorithm.to_string(),
        chunk_size,
        chunks: vec!["aa".to_string()],
    };
    assert_eq!(
        setup_hashing(None, None, 512, 0).unwrap().chunk_size(),
        64 << 20
    );
    let hasher = setup_hashing(None, Some(&manifest("blake3", 4096)), 512, 8192).unwrap();
    assert_eq!(hasher.chunk_size(), 4096);
    assert_eq!(hasher.get(0), Some("aa"));
    let refusal = |r: Result<exhume::hash::ChunkHasher, Error>| match r {
        Ok(_) => panic!("accepted"),
        Err(e) => e.message(),
    };
    assert_eq!(
        refusal(setup_hashing(Some(8192), Some(&manifest("blake3", 4096)), 512, 0)),
        "--hash-chunk 8192 conflicts with the manifest's chunk size 4096 (the grid is fixed \
         once recorded; remove the [hashes] section to re-grid)"
    );
    assert_eq!(
        refusal(setup_hashing(None, Some(&manifest("sha256", 4096)), 512, 0)),
        "the state file's hash manifest uses 'sha256'; this exhume only supports 'blake3' \
         (remove the [hashes] section to re-create the manifest)"
    );
    assert_eq!(
        refusal(setup_hashing(Some(1000), None, 512, 0)),
        "invalid size: --hash-chunk 1000 must be a positive multiple of the 512-byte sector size"
    );
    assert_eq!(
        refusal(setup_hashing(Some(0), None, 512, 0)),
        "invalid size: --hash-chunk 0 must be a positive multiple of the 512-byte sector size"
    );
}

#[test]
fn direct_reads_need_a_known_size_and_a_power_of_two() {
    assert_eq!(direct_mode(false, 10, true, 3), Ok(DirectMode::Off));
    assert_eq!(direct_mode(true, 0, true, 3), Ok(DirectMode::NotSeekable));
    assert_eq!(direct_mode(true, 10, false, 3), Ok(DirectMode::Unsupported));
    assert_eq!(direct_mode(true, 10, true, 4096), Ok(DirectMode::On));
    assert_eq!(direct_mode(true, 10, true, 1), Ok(DirectMode::On));
    assert_eq!(
        direct_mode(true, 10, true, 1000).unwrap_err().message(),
        "invalid size: --direct requires a power-of-two sector size (O_DIRECT alignment), but \
         the effective sector size is 1000"
    );
    assert!(direct_mode(true, 10, true, 0).is_err());
    assert!(verify_direct(None, String::new()).is_ok());
    assert!(verify_direct(Some(ReadFault::Io), "EIO".to_string()).is_ok());
    assert_eq!(
        verify_direct(Some(ReadFault::Invalid), "EINVAL".to_string())
            .unwrap_err()
            .message(),
        "--direct is not supported for this source or filesystem; retry without it: EINVAL"
    );
}

#[test]
fn occupied_targets_need_consent() {
    let device = Some(facts(FileKind::BlockDevice, 0, 2));
    assert!(!target_occupied(None));
    assert!(!target_occupied(Some(facts(FileKind::Regular, 0, 2))));
    assert!(target_occupied(Some(facts(FileKind::Regular, 1, 2))));
    assert!(target_occupied(device));
    let around = TargetFacts {
        source: Some(facts(FileKind::BlockDevice, 0, 1)),
        target: device,
        source_mounted: true,
        target_mounted: false,
    };
    assert_eq!(
        guard_target(&cli(), "/dev/sdc", false, around),
        Err(Error::TargetExists("/dev/sdc".to_string()))
    );
    assert_eq!(
        Error::TargetExists("/dev/sdc".to_string()).message(),
        "target '/dev/sdc' already exists; pass --force to overwrite (a matching state file \
         enables resume instead)"
    );
    let (occupied, notes) = guard_target(&cli(), "/dev/sdc", true, around).unwrap();
    assert!(occupied && notes.source && !notes.target);
    let mut c = cli();
    c.refresh = true;
    assert!(guard_target(&c, "/dev/sdc", false, around).is_ok());
}

#[test]
fn a_mounted_target_is_refused_even_with_force() {
    let around = TargetFacts {
        source: None,
        target: Some(facts(FileKind::BlockDevice, 0, 2)),
        source_mounted: false,
        target_mounted: true,
    };
    let mut c = cli();
    c.force = true;
    let err = guard_target(&c, "/dev/sdc", false, around).unwrap_err();
    assert_eq!(
        err.message(),
        "target '/dev/sdc' (or a partition / stacked device on it) is mounted; writing to it \
         would corrupt the live filesystem — unmount it first, or pass --allow-mounted at your \
         own risk"
    );
    c.allow_mounted = true;
    let (_, notes) = guard_target(&c, "/dev/sdc", false, around).unwrap();
    assert!(notes.target);
    assert!(check_mounted("t", true, false, false).is_err());
    assert!(check_mounted("t", false, true, false).unwrap().source);
}

#[test]
fn a_target_that_is_too_small_is_refused() {
    assert!(ensure_target_capacity("/dev/sdc", Some(4096), 1024, 3072).is_ok());
    assert!(ensure_target_capacity("/dev/sdc", None, 1024, 4096).is_ok());
    assert!(ensure_target_capacity("/dev/sdc", Some(0), 1024, 0).is_ok());
    assert_eq!(
        ensure_target_capacity("/dev/sdc", Some(4096), 1024, 4096)
            .unwrap_err()
            .message(),
        "target '/dev/sdc' holds 4.00 KiB (4096 bytes) but the copy needs 5.00 KiB (5120 \
         bytes); refusing before writing anything"
    );
}

#[test]
fn a_refresh_reopens_a_completed_map_only() {
    let mut map = RegionMap::from_total(1000);
    map.mark(0, 900, RegionStatus::Done);
    map.mark(900, 100, RegionStatus::Bad);
    assert_eq!(prepare_refresh(&mut map, 1000), Ok(true));
    assert_eq!(map.bytes_with(RegionStatus::Untried), 900);
    assert_eq!(map.bytes_with(RegionStatus::Bad), 100);
    map.mark(0, 500, RegionStatus::Done);
    let before = map.clone();
    assert_eq!(prepare_refresh(&mut map, 1000), Ok(false));
    assert_eq!(map, before);
    assert_eq!(
        prepare_refresh(&mut map, 0).unwrap_err().message(),
        "--refresh needs a source with a detectable size"
    );
    assert_eq!(processed_at_start(&map, 1000), 600);
    assert_eq!(processed_at_start(&map, 100), 0);
    assert_eq!(initial_map(None, 1000), RegionMap::from_total(1000));
}

#[test]
fn only_short_regular_files_are_extended() {
    assert!(needs_extending(facts(FileKind::Regular, 10, 1), 11));
    assert!(!needs_extending(facts(FileKind::Regular, 11, 1), 11));
    assert!(!needs_extending(facts(FileKind::BlockDevice, 0, 1), 11));
    assert_eq!(
        gap_failure_context(4096),
        "reading target back at offset 4096 for hashing"
    );
    assert_eq!(
        verify_failure_context(512),
        "reading target back at offset 512"
    );
}

#[test]
fn every_error_has_its_message() {
    let text = |e: Error| e.message();
    assert_eq!(
        text(Error::io("opening".to_string(), "gone".to_string())),
        "opening: gone"
    );
    assert_eq!(text(Error::InvalidSize("x".to_string())), "invalid size: x");
    assert_eq!(text(Error::Misaligned("m".to_string())), "m");
    assert_eq!(text(Error::Refused("r".to_string())), "r");
    assert_eq!(text(Error::StateConflict("c".to_string())), "c");
    assert_eq!(
        text(Error::StateParse {
            path: "a.state".to_string(),
            source: "bad".to_string()
        }),
        "failed to parse state file 'a.state': bad"
    );
    assert_eq!(
        text(Error::StateSerialise("s".to_string())),
        "failed to serialise state: s"
    );
    assert_eq!(
        text(Error::Signal("no".to_string())),
        "failed to install signal handler: no"
    );
}
