//! Whole runs against a disk held in memory: the library decides, the harness
//! carries the actions out.

use exhume::cli::Cli;
use exhume::copier::{Action, Outcome, Reply, Signals};
use exhume::engine::{
    copy_options, default_state_path, discards_state, failure_context, guard_target,
    needs_extending, resolve_params, setup_hashing, skip_zeros_is_risky, start_copy, summarize,
    target_of, DirectMode, Summary, TargetFacts, WriteCounters,
};
use exhume::error::Error;
use exhume::gapfill::GapFiller;
use exhume::hash::digest;
use exhume::mapfile;
use exhume::params::RunParams;
use exhume::plan::{after_copy, begin, check, prepare, AfterCopy};
use exhume::readback::{ReadAction, ReadReply};
use exhume::region::{Region, RegionMap, RegionStatus};
use exhume::report::{copy_summary, exit_code, status_label, verify_summary};
use exhume::safety::{ensure_not_same_file, ensure_source_supported, FileFacts, FileKind};
use exhume::state::{
    manifest_of, verify_carry, Hashes, Meta, Progress, StateFile, VerifyState,
};
use exhume::status;
use exhume::time::Timestamp;
use exhume::verify::Verifier;

/// Deterministic pseudo-random bytes.
fn pattern(len: usize) -> Vec<u8> {
    let mut state: u64 = 0x9E37_79B9_7F4A_7C15;
    (0..len)
        .map(|_| {
            state = state
                .wrapping_mul(6_364_136_223_846_793_005)
                .wrapping_add(1_442_695_040_888_963_407);
            (state >> 33) as u8
        })
        .collect()
}

fn now() -> Timestamp {
    Timestamp::new(1_781_769_600, 0).unwrap()
}

fn cli() -> Cli {
    Cli {
        source: "src.img".to_string(),
        target: Some("out.img".to_string()),
        state: Some("run.state".to_string()),
        sector_size: None,
        transfer_size: None,
        length: None,
        skip: None,
        seek: None,
        skip_unchanged: None,
        skip_zeros: None,
        hash_chunk: None,
        refresh: false,
        verify: false,
        retry: false,
        export_map: None,
        direct: false,
        status: false,
        force: false,
        allow_mounted: false,
        quiet: false,
        json: false,
        json_progress: false,
        verbose: 0,
    }
}

/// A source and a target, and what happens to the run that works on them.
struct Disk {
    source: Vec<u8>,
    target: Option<Vec<u8>>,
    /// Source offsets `[from, to)` that give media errors.
    dead: Vec<(usize, usize)>,
    /// Raise the signal once this many actions were carried out.
    stop_after: usize,
    /// Give no more than this many bytes per read.
    most: usize,
    flush_always: bool,
    source_reads: usize,
    target_reads: usize,
    writes: usize,
    flushes: usize,
    readahead_calls: usize,
}

impl Disk {
    fn new(source: &[u8]) -> Self {
        Disk {
            source: source.to_vec(),
            target: None,
            dead: Vec::new(),
            stop_after: usize::MAX,
            most: usize::MAX,
            flush_always: false,
            source_reads: 0,
            target_reads: 0,
            writes: 0,
            flushes: 0,
            readahead_calls: 0,
        }
    }

    fn with_target(source: &[u8], target: &[u8]) -> Self {
        let mut disk = Disk::new(source);
        disk.target = Some(target.to_vec());
        disk
    }

    fn read_source(&mut self, offset: u64, request: u64) -> Reply {
        self.source_reads += 1;
        let from = (offset as usize).min(self.source.len());
        let to = from
            .saturating_add(request as usize)
            .min(self.source.len())
            .min(from.saturating_add(self.most));
        if self.dead.iter().any(|&(a, b)| from < b && a < to) {
            return Reply::MediaError;
        }
        Reply::Source(self.source[from..to].to_vec())
    }

    fn read_target(&mut self, offset: u64, length: u64) -> Vec<u8> {
        self.target_reads += 1;
        let bytes = self.bytes();
        let from = (offset as usize).min(bytes.len());
        let to = from.saturating_add(length as usize).min(bytes.len());
        bytes[from..to].to_vec()
    }

    fn write(&mut self, offset: u64, data: &[u8]) {
        self.writes += 1;
        let target = self.target.get_or_insert_with(Vec::new);
        let from = offset as usize;
        if target.len() < from + data.len() {
            target.resize(from + data.len(), 0);
        }
        target[from..from + data.len()].copy_from_slice(data);
    }

    fn bytes(&self) -> &[u8] {
        self.target.as_deref().unwrap_or(&[])
    }

    fn facts(len: usize, inode: u64) -> FileFacts {
        FileFacts {
            kind: FileKind::Regular,
            length: len as u64,
            device: 1,
            inode,
        }
    }
}

/// Run a copy as the command line says; the summary and the state it leaves.
fn run(
    disk: &mut Disk,
    cli: &Cli,
    existing: Option<&StateFile>,
) -> Result<(Summary, StateFile), Error> {
    let target = target_of(cli);
    let source_facts = Some(Disk::facts(disk.source.len(), 1));
    let target_facts = disk.target.as_ref().map(|t| Disk::facts(t.len(), 2));
    ensure_source_supported(&cli.source, source_facts)?;
    let checked = check(
        cli,
        &target,
        existing,
        512,
        TargetFacts {
            source: source_facts,
            target: target_facts,
            source_mounted: false,
            target_mounted: false,
        },
    )?;
    let params = checked.params;
    disk.target.get_or_insert_with(Vec::new);
    let size = Some(disk.source.len() as u64);
    let prepared = prepare(cli, &target, &params, existing, size, None, true)?;
    let domain = prepared.domain;
    let map = prepared.map;
    let direct = prepared.direct == DirectMode::On;
    let done_at_start = map.bytes_with(RegionStatus::Done);
    let prior_verify = existing.and_then(|s| s.verify.clone());
    let mut copier =
        begin(cli, &params, existing, domain, map, direct)?.expect("a small copy fits");
    let options = copier.options();

    let mut steps = 0usize;
    let interrupted = loop {
        let signals = Signals {
            interrupted: steps >= disk.stop_after,
            flush_due: disk.flush_always,
        };
        steps += 1;
        let action = copier.action();
        let reply = match action {
            Action::Begin => Reply::Done,
            Action::ReadSource {
                offset, request, ..
            } => disk.read_source(offset, request),
            Action::ReadTarget { offset, length } => {
                Reply::Target(Some(disk.read_target(offset, length)))
            }
            Action::Write { offset, length } => {
                let data = copier.payload().to_vec();
                assert_eq!(data.len() as u64, length);
                disk.write(offset, &data);
                Reply::Done
            }
            Action::DisableReadahead => {
                disk.readahead_calls += 1;
                Reply::Done
            }
            Action::Flush => {
                disk.flushes += 1;
                Reply::Done
            }
            Action::Stop(Outcome::Finished) => break false,
            Action::Stop(Outcome::Interrupted) => break true,
            Action::Stop(Outcome::Failed) => {
                return Err(Error::io(failure_context(action), "failed".to_string()))
            }
        };
        copier.step(reply, signals);
    };
    let parts = copier.into_parts();
    let after = after_copy(cli, interrupted);
    let (map, hasher) = if !after.fill_gaps {
        (parts.map, parts.hasher)
    } else {
        let mut filler = GapFiller::new(
            params.seek,
            domain,
            options.transfer,
            parts.map,
            parts.hasher,
        );
        loop {
            let reply = match filler.action() {
                ReadAction::ReadTarget { offset, length } => {
                    ReadReply::Data(disk.read_target(offset, length))
                }
                ReadAction::Stop(_) => break,
                _ => ReadReply::Done,
            };
            filler.step(reply, false);
        }
        filler.into_parts()
    };
    let spanned = params.seek + map.covered_end();
    if needs_extending(Disk::facts(disk.bytes().len(), 2), spanned) {
        disk.target
            .get_or_insert_with(Vec::new)
            .resize(spanned as usize, 0);
    }
    let mut section = verify_carry(&prior_verify, parts.wrote_this_run);
    let mut verify = None;
    let mut manifest = manifest_of(&hasher);
    if after.verify {
        let mut verifier = Verifier::new(
            params.seek,
            domain,
            options.transfer,
            hasher,
            section.clone(),
            now(),
        );
        loop {
            let reply = match verifier.action() {
                ReadAction::ReadTarget { offset, length } => {
                    ReadReply::Data(disk.read_target(offset, length))
                }
                ReadAction::Save => {
                    section = Some(verifier.section(now()));
                    ReadReply::Done
                }
                ReadAction::Stop(_) => break,
                ReadAction::Begin => ReadReply::Done,
            };
            verifier.step(
                reply,
                Signals {
                    interrupted: false,
                    flush_due: disk.flush_always,
                },
            );
        }
        verify = Some(verifier.outcome());
        manifest = manifest_of(verifier.hasher());
    }
    let state = StateFile::build(
        &params,
        &map,
        domain,
        existing.map_or(now(), |s| s.meta.created),
        now(),
        parts.bytes_written,
        Some(manifest),
        section,
    );
    let summary = summarize(
        params,
        target,
        "run.state".to_string(),
        domain,
        &map,
        WriteCounters {
            bytes_written: parts.bytes_written,
            bytes_written_this_run: parts.bytes_written_this_run,
            bytes_skipped_by_hash: parts.bytes_skipped_by_hash,
            done_at_start,
        },
        cli.refresh,
        interrupted,
        verify,
    );
    Ok((summary, state))
}

/// A state as an earlier run left it.
fn seeded(
    transfer_size: u64,
    bytes_written: u64,
    regions: Vec<(u64, u64, RegionStatus)>,
    hashes: Option<Hashes>,
) -> StateFile {
    let regions: Vec<Region> = regions
        .into_iter()
        .map(|(start, length, status)| Region {
            start,
            length,
            status,
        })
        .collect();
    StateFile {
        meta: Meta {
            version: 1,
            program: "exhume".to_string(),
            program_version: "0.0.0".to_string(),
            created: now(),
            updated: now(),
        },
        params: RunParams {
            source: "src.img".to_string(),
            target: "out.img".to_string(),
            sector_size: 512,
            transfer_size,
            skip: 0,
            seek: 0,
            length: 0,
            skip_unchanged: false,
            skip_zeros: false,
        },
        progress: Progress {
            bytes_total: 16384,
            bytes_done: bytes_written,
            bytes_written,
            errors: 0,
        },
        hashes,
        verify: None,
        regions,
    }
}

fn one_bad_region() -> StateFile {
    seeded(
        4096,
        12288,
        vec![
            (0, 8192, RegionStatus::Done),
            (8192, 4096, RegionStatus::Bad),
            (12288, 4096, RegionStatus::Done),
        ],
        None,
    )
}

fn assert_manifest(state: &StateFile, data: &[u8], chunk: usize) {
    let manifest = state.hashes.as_ref().expect("a manifest");
    let expect: Vec<String> = data.chunks(chunk).map(digest).collect();
    assert_eq!(manifest.algorithm, "blake3");
    assert_eq!(manifest.chunks, expect);
}

#[test]
fn copies_a_file_byte_for_byte() {
    let data = pattern(300 * 1024); // spans several transfer blocks
    let mut disk = Disk::new(&data);
    let mut c = cli();
    c.state = None;
    c.transfer_size = Some(64 * 1024);
    let (summary, _) = run(&mut disk, &c, None).unwrap();
    assert!(copy_summary(&summary).contains("Done"));
    assert_eq!(disk.bytes(), &data[..], "target must match source");
    assert_eq!(disk.source_reads, 5);
    assert_eq!(summary.bytes_written, data.len() as u64);
    assert_eq!(summary.bytes_written_this_run, summary.bytes_done_this_run);
    // An auto-named state file is removed after a clean, error-free copy.
    assert!(discards_state(c.state.is_some(), summary.completed));
}

#[test]
fn rerunning_a_completed_copy_is_a_noop() {
    let mut disk = Disk::new(&pattern(128 * 1024));
    let c = cli();
    let (first, state) = run(&mut disk, &c, None).unwrap();
    assert!(
        !discards_state(c.state.is_some(), first.completed),
        "an explicit state file is kept after a clean copy"
    );
    let (writes, reads) = (disk.writes, disk.source_reads);
    let (summary, again) = run(&mut disk, &c, Some(&state)).unwrap();
    assert!(copy_summary(&summary).contains("Already complete"));
    assert_eq!(disk.writes, writes);
    assert_eq!(disk.source_reads, reads);
    assert_eq!(disk.bytes(), &disk.source[..]);
    assert!(summary.completed);
    assert_eq!(summary.bytes_done, first.bytes_done);
    assert_eq!(summary.bytes_done_this_run, 0);
    assert_eq!(summary.bytes_written_this_run, 0);
    assert_eq!(again.regions, state.regions);
    assert_eq!(again.hashes, state.hashes);
}

#[test]
fn what_follows_a_copy_depends_on_how_it_ended() {
    let mut c = cli();
    let gaps_only = AfterCopy {
        fill_gaps: true,
        verify: false,
        verify_skipped: false,
    };
    let nothing = AfterCopy {
        fill_gaps: false,
        verify: false,
        verify_skipped: false,
    };
    assert_eq!(after_copy(&c, false), gaps_only);
    assert_eq!(after_copy(&c, true), nothing);
    c.verify = true;
    assert_eq!(after_copy(&c, false), AfterCopy { verify: true, ..gaps_only });
    assert_eq!(after_copy(&c, true), AfterCopy { verify_skipped: true, ..nothing });
}

#[test]
fn refuses_to_overwrite_without_force() {
    let data = pattern(4096);
    let mut disk = Disk::with_target(&data, b"important pre-existing data");
    // No state file present and a non-empty target: must fail.
    let err = run(&mut disk, &cli(), None).unwrap_err();
    assert!(err.message().contains("already exists"));
    // The pre-existing data is untouched.
    assert_eq!(disk.bytes(), b"important pre-existing data");
    // With --force it overwrites.
    let mut c = cli();
    c.force = true;
    run(&mut disk, &c, None).unwrap();
    assert_eq!(disk.bytes(), &data[..]);
}

#[test]
fn honours_skip_seek_and_length() {
    let data = pattern(8192);
    let mut disk = Disk::new(&data);
    // Copy bytes [1024, 1024+2048) of the source to offset 512 of the target.
    let mut c = cli();
    c.skip = Some(1024);
    c.seek = Some(512);
    c.length = Some(2048);
    c.transfer_size = Some(512);
    run(&mut disk, &c, None).unwrap();
    let out = disk.bytes();
    assert_eq!(out.len(), 512 + 2048);
    assert_eq!(&out[512..512 + 2048], &data[1024..1024 + 2048]);
}

#[test]
fn rejects_a_misaligned_offset_with_a_helpful_hint() {
    let mut disk = Disk::new(&pattern(4096));
    // A regular file detects the 512-byte fallback sector; --skip 100 is not a
    // multiple of it, so the run is refused with a suggestion of both neighbours.
    let mut c = cli();
    c.skip = Some(100);
    let message = run(&mut disk, &c, None).unwrap_err().message();
    assert!(message.contains("not a multiple of the 512-byte sector size"));
    assert!(message.contains("512 (up)"));
    // Nothing was written.
    assert!(disk.target.is_none());
}

#[test]
fn stateless_refresh_writes_only_changed_blocks() {
    let data = pattern(16 * 1024);
    // Target identical to the source except for one clobbered 4 KiB block.
    let mut clone = data.clone();
    clone[8192..12288].fill(0);
    let mut disk = Disk::with_target(&data, &clone);
    // --refresh without a state: consent to write the occupied target (no
    // --force), per-block target comparison, minimal writes.
    let mut c = cli();
    c.refresh = true;
    c.transfer_size = Some(4096);
    let (summary, _) = run(&mut disk, &c, None).unwrap();
    // The target matches the source again, with exactly one block written.
    assert_eq!(disk.bytes(), &data[..]);
    assert!(summary.refreshed);
    assert_eq!(summary.bytes_written_this_run, 4096);
}

#[test]
fn skip_zeros_leaves_zero_blocks_unwritten_but_correct() {
    // Four 4 KiB blocks: non-zero, zero, non-zero, zero (trailing zero block).
    let mut data = pattern(16 * 1024);
    data[4096..8192].fill(0);
    data[12288..16384].fill(0);
    let mut disk = Disk::new(&data);
    let mut c = cli();
    c.skip_zeros = Some(true);
    c.transfer_size = Some(4096);
    let (summary, state) = run(&mut disk, &c, None).unwrap();
    assert!(copy_summary(&summary).contains("zero blocks left sparse"));
    // Despite skipping the zero blocks (incl. the trailing one), the target is
    // the full size and byte-identical to the source (holes read back as zeros).
    assert_eq!(disk.bytes(), &data[..]);
    // Only the two non-zero 4 KiB blocks were actually written.
    assert_eq!(state.progress.bytes_written, 8192);
}

#[test]
fn retry_recovers_bad_regions_from_a_readable_source() {
    let data = pattern(16 * 1024);
    // The target already holds the correct data except [8K,12K), which the
    // seeded state records as bad and which is left zeroed here.
    let mut clone = data.clone();
    clone[8192..12288].fill(0);
    let mut disk = Disk::with_target(&data, &clone);
    // Without --retry the bad region is left alone: exit code 2 (finished with
    // errors) and the target stays unrecovered.
    let (summary, _) = run(&mut disk, &cli(), Some(&one_bad_region())).unwrap();
    assert_eq!(exit_code(&summary), 2);
    assert_eq!(&disk.bytes()[8192..12288], &[0u8; 4096][..]);
    // Retry: the bad region is re-read from the readable source and recovered.
    let mut c = cli();
    c.retry = true;
    let (summary, state) = run(&mut disk, &c, Some(&one_bad_region())).unwrap();
    assert!(copy_summary(&summary).contains("Done"));
    assert_eq!(exit_code(&summary), 0);
    assert_eq!(disk.bytes(), &data[..]);
    assert!(state.regions.iter().all(|r| r.status != RegionStatus::Bad));
}

#[test]
fn resuming_with_a_different_target_is_refused() {
    let mut disk = Disk::new(&pattern(64 * 1024));
    let mut c = cli();
    c.target = Some("targetA.img".to_string());
    let (_, state) = run(&mut disk, &c, None).unwrap();
    // The state file records targetA; reusing it with targetB would credit
    // targetA's progress to targetB (an all-zero file reported as "Done").
    let mut other = Disk::new(&pattern(64 * 1024));
    c.target = Some("targetB.img".to_string());
    let err = run(&mut other, &c, Some(&state)).unwrap_err();
    assert!(err.message().contains("records target"));
    assert!(other.target.is_none(), "the refused run must not touch targetB");
}

#[test]
fn resuming_with_a_conflicting_skip_is_refused() {
    let mut disk = Disk::new(&pattern(64 * 1024));
    let (_, state) = run(&mut disk, &cli(), None).unwrap();
    // The region map is relative to the recorded skip; a different value on
    // resume would shift the whole coordinate system.
    let mut c = cli();
    c.skip = Some(512);
    let err = run(&mut disk, &c, Some(&state)).unwrap_err();
    assert!(err
        .message()
        .contains("conflicts with the resumed state's skip"));
}

#[test]
fn resume_with_a_larger_length_copies_the_new_tail() {
    let data = pattern(64 * 1024);
    let mut disk = Disk::new(&data);
    let mut c = cli();
    c.length = Some(32 * 1024);
    let (_, state) = run(&mut disk, &c, None).unwrap();
    assert_eq!(disk.bytes().len(), 32 * 1024);
    // The resumed map only covers the first 32K; the grown domain's tail must
    // be copied too, not silently reported as complete.
    c.length = Some(64 * 1024);
    let (summary, _) = run(&mut disk, &c, Some(&state)).unwrap();
    assert!(copy_summary(&summary).contains("Done"));
    assert_eq!(disk.bytes(), &data[..]);
}

#[test]
fn resumes_from_a_partial_state() {
    let data = pattern(16 * 1024);
    // The interrupted run got the first 8 KiB onto the target.
    let mut disk = Disk::with_target(&data, &data[..8192]);
    let state = seeded(
        4096,
        8192,
        vec![
            (0, 8192, RegionStatus::Done),
            (8192, 8192, RegionStatus::Untried),
        ],
        None,
    );
    let (summary, after) = run(&mut disk, &cli(), Some(&state)).unwrap();
    assert!(copy_summary(&summary).contains("Done"));
    assert_eq!(disk.bytes(), &data[..]);
    // Only the untried half was written; the write counter carries across.
    assert_eq!(after.progress.bytes_written, 16384);
    assert_eq!(summary.bytes_written_this_run, 8192);
}

#[test]
fn direct_refuses_a_non_power_of_two_sector_size() {
    let mut disk = Disk::new(&pattern(8000));
    // 1000 divides the offsets fine but violates O_DIRECT's alignment; without
    // the up-front check every read would fail with EINVAL.
    let mut c = cli();
    c.direct = true;
    c.sector_size = Some(1000);
    let err = run(&mut disk, &c, None).unwrap_err();
    assert!(err.message().contains("power-of-two sector size"));
}

#[test]
fn refuses_to_copy_a_file_onto_itself() {
    // Also aliased through a symlink: same inode, different path.
    let facts = Some(Disk::facts(4096, 7));
    let mut c = cli();
    c.force = true;
    for target in ["src.img", "alias.img"] {
        let err = guard_target(
            &c,
            target,
            false,
            TargetFacts {
                source: facts,
                target: facts,
                source_mounted: false,
                target_mounted: false,
            },
        )
        .unwrap_err();
        assert!(err.message().contains("same file"));
    }
}

#[test]
fn same_file_is_detected_through_a_symlink() {
    let file = Some(Disk::facts(1, 7));
    assert!(ensure_not_same_file("data.img", "alias.img", file, file).is_err());
    assert!(ensure_not_same_file("data.img", "other.img", file, None).is_ok());
    assert!(ensure_not_same_file("data.img", "b", file, Some(Disk::facts(1, 8))).is_ok());
}

#[test]
fn refuses_a_fifo_source() {
    let stream = |kind| FileFacts {
        kind,
        length: 0,
        device: 1,
        inode: 1,
    };
    let err = ensure_source_supported("stream", Some(stream(FileKind::Fifo))).unwrap_err();
    assert!(err.message().contains("pipe (FIFO)"));
    let err = ensure_source_supported("stream", Some(stream(FileKind::Socket))).unwrap_err();
    assert_eq!(
        err.message(),
        "source 'stream' is a socket — exhume copies block devices and regular files, \
         not streams (use cat or dd for those)"
    );
    assert!(ensure_source_supported("dev", Some(stream(FileKind::CharDevice))).is_ok());
    assert!(ensure_source_supported("missing", None).is_ok());
}

#[test]
fn defaults_target_to_grave_img() {
    let mut disk = Disk::new(&pattern(4096));
    let mut c = cli();
    c.target = None;
    c.state = None;
    let (summary, _) = run(&mut disk, &c, None).unwrap();
    assert_eq!(summary.target, "grave.img");
    assert_eq!(default_state_path(&target_of(&c), false), "grave.img.state");
    // The auto-named state file is removed after the clean copy.
    assert!(discards_state(false, summary.completed));
}

#[test]
fn explicit_state_records_a_hash_manifest() {
    let data = pattern(16 * 1024);
    let mut disk = Disk::new(&data);
    let mut c = cli();
    c.hash_chunk = Some(4096);
    let (_, state) = run(&mut disk, &c, None).unwrap();
    assert_manifest(&state, &data, 4096);
    assert_eq!(disk.target_reads, 0, "hashed on the fly");
}

#[test]
fn hashing_is_always_on() {
    let data = pattern(8 * 1024);
    let mut disk = Disk::new(&data);
    let (_, state) = run(&mut disk, &cli(), None).unwrap();
    assert_manifest(&state, &data, 64 << 20);
}

#[test]
fn resume_fills_manifest_gaps_from_the_target() {
    let data = pattern(16 * 1024);
    // The earlier (interrupted) run copied the first 6 KiB, mid-chunk with a
    // 4 KiB grid, so chunk 1 can never be streamed in one piece on resume.
    let mut disk = Disk::with_target(&data, &data[..6144]);
    let state = seeded(
        2048,
        6144,
        vec![
            (0, 6144, RegionStatus::Done),
            (6144, 10240, RegionStatus::Untried),
        ],
        Some(Hashes {
            algorithm: "blake3".to_string(),
            chunk_size: 4096,
            chunks: vec![digest(&data[..4096])],
        }),
    );
    let (_, after) = run(&mut disk, &cli(), Some(&state)).unwrap();
    assert_eq!(disk.bytes(), &data[..]);
    // All four chunks must end up hashed: 0 from the prior run, 2 and 3
    // streamed inline on resume, and 1 (the resume seam) via target read-back.
    assert_manifest(&after, &data, 4096);
    assert_eq!(disk.target_reads, 2);
}

#[test]
fn verify_confirms_an_intact_target() {
    let mut disk = Disk::new(&pattern(16 * 1024));
    let mut c = cli();
    c.hash_chunk = Some(4096);
    c.verify = true;
    let (summary, _) = run(&mut disk, &c, None).unwrap();
    let outcome = summary.verify.as_ref().unwrap();
    assert!(verify_summary(outcome).contains("Verified"));
    assert!(outcome.ok());
    assert_eq!(exit_code(&summary), 0);
}

#[test]
fn verify_detects_target_corruption() {
    let mut disk = Disk::new(&pattern(16 * 1024));
    let mut c = cli();
    c.hash_chunk = Some(4096);
    let (_, state) = run(&mut disk, &c, None).unwrap();
    // Bit-rot strikes: flip one byte in the third chunk.
    disk.target.as_mut().unwrap()[9000] ^= 0xFF;
    // Re-running the completed command with --verify copies nothing and checks
    // the target against the manifest: exit 3, mismatch at 8192.
    let mut c = cli();
    c.verify = true;
    let (summary, _) = run(&mut disk, &c, Some(&state)).unwrap();
    assert_eq!(exit_code(&summary), 3);
    assert_eq!(status_label(&summary), "completed");
    let outcome = summary.verify.as_ref().unwrap();
    assert!(!outcome.ok());
    assert_eq!(outcome.mismatches, vec![8192]);
    assert_eq!(
        verify_summary(outcome),
        "Verify FAILED — 1 of 4 chunk(s) differ from the manifest (first at offset 8192)."
    );
}

#[test]
fn refresh_skips_unchanged_chunks_via_manifest() {
    let mut disk = Disk::new(&pattern(16 * 1024));
    let mut c = cli();
    c.hash_chunk = Some(4096);
    let (_, state) = run(&mut disk, &c, None).unwrap();
    // Nothing changed: the whole domain is skipped via the manifest, without a
    // single write.
    let mut c = cli();
    c.refresh = true;
    let writes = disk.writes;
    let (summary, _) = run(&mut disk, &c, Some(&state)).unwrap();
    assert!(summary.refreshed);
    assert_eq!(summary.bytes_skipped_by_hash, 16 * 1024);
    assert_eq!(summary.bytes_written_this_run, 0);
    assert_eq!(status_label(&summary), "completed");
    assert_eq!(disk.writes, writes);
    assert_eq!(disk.target_reads, 0, "no target I/O at all");
}

#[test]
fn refresh_writes_only_changed_blocks_and_updates_the_digest() {
    let mut data = pattern(16 * 1024);
    let mut disk = Disk::new(&data);
    let mut c = cli();
    c.hash_chunk = Some(4096);
    c.transfer_size = Some(2048);
    let (_, state) = run(&mut disk, &c, None).unwrap();
    // One byte changes inside chunk 2 (offsets 8K..12K), transfer block 2K.
    data[9000] ^= 0xFF;
    disk.source = data.clone();
    let mut c = cli();
    c.refresh = true;
    let (summary, state) = run(&mut disk, &c, Some(&state)).unwrap();
    // Three chunks skipped via manifest; in the changed chunk only the one
    // differing 2 KiB transfer block is written.
    assert_eq!(summary.bytes_skipped_by_hash, 12 * 1024);
    assert_eq!(summary.bytes_written_this_run, 2048);
    // The target matches the new source, and the manifest carries the new
    // digest of the changed chunk.
    assert_eq!(disk.bytes(), &data[..]);
    assert_manifest(&state, &data, 4096);
    // A --verify right after confirms the refreshed image.
    let mut c = cli();
    c.verify = true;
    let (summary, _) = run(&mut disk, &c, Some(&state)).unwrap();
    assert!(verify_summary(summary.verify.as_ref().unwrap()).contains("Verified"));
    assert_eq!(exit_code(&summary), 0);
}

#[test]
fn verify_finds_rot_and_the_next_refresh_repairs_it() {
    let data = pattern(16 * 1024);
    let mut disk = Disk::new(&data);
    let mut c = cli();
    c.hash_chunk = Some(4096);
    c.transfer_size = Some(2048);
    let (_, state) = run(&mut disk, &c, None).unwrap();
    // The target rots, the source does not: a plain refresh trusts the manifest
    // and skips the chunk ...
    let mut rotten = data.clone();
    rotten[5000] ^= 0xFF;
    disk.target = Some(rotten.clone());
    let mut refresh = cli();
    refresh.refresh = true;
    let (_, state) = run(&mut disk, &refresh, Some(&state)).unwrap();
    assert_eq!(disk.bytes(), &rotten[..], "refresh alone skips rot");
    // ... --verify finds and records it (chunk 1, offset 4096) ...
    let mut verify = cli();
    verify.verify = true;
    let (summary, state) = run(&mut disk, &verify, Some(&state)).unwrap();
    assert_eq!(exit_code(&summary), 3);
    assert_eq!(state.verify.as_ref().unwrap().mismatches, vec![4096]);
    // ... and the next refresh repairs exactly the rotted block.
    let (summary, state) = run(&mut disk, &refresh, Some(&state)).unwrap();
    assert_eq!(summary.bytes_written_this_run, 2048);
    assert_eq!(disk.bytes(), &data[..]);
    // The circle closes: verify is happy again.
    let (summary, _) = run(&mut disk, &verify, Some(&state)).unwrap();
    assert_eq!(exit_code(&summary), 0);
    assert!(verify_summary(summary.verify.as_ref().unwrap()).contains("Verified"));
}

#[test]
fn an_unfinished_verify_does_not_trigger_repairs() {
    let data = pattern(16 * 1024);
    let mut disk = Disk::new(&data);
    let mut c = cli();
    c.hash_chunk = Some(4096);
    let (_, mut state) = run(&mut disk, &c, None).unwrap();
    let mut rotten = data.clone();
    rotten[5000] ^= 0xFF;
    disk.target = Some(rotten.clone());
    // Seed an interrupted verify that already recorded the mismatch: its list
    // is incomplete by definition, so the refresh must not act on it.
    state.verify = Some(VerifyState {
        cursor: Some(3),
        mismatches: vec![4096],
        started: now(),
        finished: None,
        ok: None,
    });
    let mut c = cli();
    c.refresh = true;
    let (summary, _) = run(&mut disk, &c, Some(&state)).unwrap();
    assert_eq!(summary.bytes_written_this_run, 0, "no repairs yet");
    assert_eq!(disk.bytes(), &rotten[..], "rot untouched");
}

#[test]
fn refresh_without_a_state_compares_against_the_target() {
    let data = pattern(8 * 1024);
    // Occupied, different content; no state, no --force: --refresh is the
    // consent.
    let mut disk = Disk::with_target(&data, &pattern(4096));
    let mut c = cli();
    c.state = None;
    c.refresh = true;
    let (summary, _) = run(&mut disk, &c, None).unwrap();
    assert!(copy_summary(&summary).contains("Refreshed"));
    assert_eq!(disk.bytes(), &data[..]);
}

#[test]
fn refresh_bootstraps_a_missing_manifest() {
    let data = pattern(16 * 1024);
    let mut disk = Disk::with_target(&data, &data);
    // A state without a manifest, e.g. written by an old version.
    let state = seeded(4096, 16384, vec![(0, 16384, RegionStatus::Done)], None);
    // The refresh falls back to target comparison and records a manifest.
    let mut c = cli();
    c.refresh = true;
    c.hash_chunk = Some(4096);
    let (summary, after) = run(&mut disk, &c, Some(&state)).unwrap();
    assert_manifest(&after, &data, 4096);
    assert_eq!(summary.bytes_written_this_run, 0);
}

#[test]
fn verify_records_its_result_in_the_state() {
    let mut disk = Disk::new(&pattern(16 * 1024));
    let mut c = cli();
    c.hash_chunk = Some(4096);
    c.verify = true;
    let (_, state) = run(&mut disk, &c, None).unwrap();
    let section = state.verify.as_ref().unwrap();
    assert_eq!(section.ok, Some(true));
    assert_eq!(section.cursor, None, "completed pass keeps no cursor");
    // --status shows the recorded result.
    let report = status::report("run.state".to_string(), &state);
    assert!(status::render(&report, "100.0").contains("Verify:   ok"));
}

#[test]
fn verify_resumes_from_a_saved_cursor() {
    let mut disk = Disk::new(&pattern(16 * 1024));
    let mut c = cli();
    c.hash_chunk = Some(4096);
    let (_, mut state) = run(&mut disk, &c, None).unwrap();
    // Corrupt chunk 0, behind the seeded cursor, and chunk 3, ahead of it.
    disk.target.as_mut().unwrap()[100] ^= 0xFF;
    disk.target.as_mut().unwrap()[13000] ^= 0xFF;
    // Seed an interrupted pass that already checked chunks 0 and 1.
    state.verify = Some(VerifyState {
        cursor: Some(2),
        mismatches: vec![],
        started: now(),
        finished: None,
        ok: None,
    });
    // The resumed pass checks chunks 2..4 only: it finds the mismatch at 12288
    // (chunk 3) but not the one at 0.
    let mut c = cli();
    c.verify = true;
    let (summary, state) = run(&mut disk, &c, Some(&state)).unwrap();
    assert_eq!(exit_code(&summary), 3);
    let outcome = summary.verify.as_ref().unwrap();
    assert_eq!(outcome.chunks_checked, 2, "resumed at chunk 2");
    assert_eq!(outcome.mismatches, vec![12288]);
    // A fresh pass (no cursor left) starts over and finds both.
    let (summary, _) = run(&mut disk, &c, Some(&state)).unwrap();
    assert_eq!(exit_code(&summary), 3);
    let outcome = summary.verify.as_ref().unwrap();
    assert_eq!(outcome.chunks_checked, 4);
    assert_eq!(outcome.mismatches, vec![0, 12288]);
}

#[test]
fn a_write_invalidates_the_recorded_verify() {
    let data = pattern(16 * 1024);
    let mut disk = Disk::new(&data[..8192]);
    let mut c = cli();
    c.hash_chunk = Some(4096);
    c.verify = true;
    let (_, state) = run(&mut disk, &c, None).unwrap();
    assert!(state.verify.is_some());
    // The source grows; the resume copies the new tail, a target write, so the
    // recorded verify result no longer describes the target.
    disk.source = data;
    let (_, state) = run(&mut disk, &cli(), Some(&state)).unwrap();
    assert!(
        state.verify.is_none(),
        "a write must drop the stale verify result"
    );
}

#[test]
fn verify_works_one_shot_with_an_auto_state() {
    let mut disk = Disk::new(&pattern(8 * 1024));
    // Hashing is always on, so copy-and-check works without naming a state; the
    // auto-state is still cleaned up afterwards.
    let mut c = cli();
    c.state = None;
    c.verify = true;
    let (summary, _) = run(&mut disk, &c, None).unwrap();
    assert!(verify_summary(summary.verify.as_ref().unwrap()).contains("Verified"));
    assert!(discards_state(c.state.is_some(), summary.completed));
}

#[test]
fn status_renders_a_state_file() {
    let mut disk = Disk::new(&pattern(16 * 1024));
    let mut c = cli();
    c.hash_chunk = Some(4096);
    let (_, state) = run(&mut disk, &c, None).unwrap();
    let report = status::report("run.state".to_string(), &state);
    let text = status::render(&report, "100.0");
    assert!(text.contains("Progress: 16.00 KiB"));
    assert!(text.contains("blake3"));
    assert!(text.contains("4 of 4 hashed"));
    assert_eq!(report.bytes_done, 16 * 1024);
    assert_eq!(report.bytes_untried, 0);
    assert_eq!(report.hashes.as_ref().unwrap().chunks_hashed, 4);
}

#[test]
fn export_map_writes_a_ddrescue_mapfile() {
    let data = pattern(16 * 1024);
    let mut clone = data.clone();
    clone[8192..12288].fill(0);
    let mut disk = Disk::with_target(&data, &clone);
    // Without --retry the bad region stays; the run exits 2 and the exported
    // mapfile shows it as a ddrescue bad-sector extent.
    let (summary, state) = run(&mut disk, &cli(), Some(&one_bad_region())).unwrap();
    assert_eq!(exit_code(&summary), 2);
    let text = mapfile::render(&state.region_map(), 0);
    let extents: Vec<&str> = text.lines().filter(|l| !l.starts_with('#')).collect();
    assert_eq!(
        extents,
        vec![
            "0x00002000     ?               1", // current_pos = the bad region
            "0x00000000  0x00002000  +",
            "0x00002000  0x00001000  -",
            "0x00003000  0x00001000  +",
        ],
        "mapfile was:\n{text}"
    );
}

#[test]
fn device_target_gets_its_auto_state_in_the_cwd() {
    // A state derived as /dev/null.state would not be writable, and devtmpfs
    // would not survive a reboot anyway.
    assert_eq!(default_state_path("/dev/null", true), "null.state");
    let mut disk = Disk::new(&pattern(8192));
    let mut c = cli();
    c.target = Some("/dev/null".to_string());
    c.state = None;
    c.force = true;
    let (summary, _) = run(&mut disk, &c, None).unwrap();
    assert!(discards_state(c.state.is_some(), summary.completed));
}

#[test]
fn json_flag_emits_a_machine_readable_summary() {
    let data = pattern(128 * 1024);
    let mut disk = Disk::new(&data);
    let (report, _) = run(&mut disk, &cli(), None).unwrap();
    assert_eq!(status_label(&report), "completed");
    assert_eq!(report.bytes_total, data.len() as u64);
    assert_eq!(report.bytes_done, data.len() as u64);
    assert_eq!(report.bytes_written, data.len() as u64);
    assert_eq!(report.bad_regions, 0);
    assert!(report.completed);
    assert!(!report.interrupted);
    assert_eq!(report.target, "out.img");
}

#[test]
fn a_dead_sector_costs_one_sector() {
    let data = pattern(16 * 1024);
    let mut disk = Disk::new(&data);
    disk.dead = vec![(5000, 5001)];
    let mut c = cli();
    c.transfer_size = Some(4096);
    c.hash_chunk = Some(4096);
    let (summary, state) = run(&mut disk, &c, None).unwrap();
    // Byte 5000 lies in the sector [4608, 5120).
    assert_eq!(summary.bad_bytes, 512);
    assert_eq!(summary.bad_regions, 1);
    assert_eq!(
        state.region_map().next_with(RegionStatus::Bad, 0),
        Some((4608, 5120))
    );
    let mut expect = data.clone();
    expect[4608..5120].fill(0);
    assert_eq!(disk.bytes(), &expect[..]);
    assert_eq!(disk.readahead_calls, 1, "read-ahead is switched off once");
    // The chunk with the hole has no digest, the others have theirs.
    let chunks = &state.hashes.as_ref().unwrap().chunks;
    assert_eq!(chunks[0], digest(&data[..4096]));
    assert_eq!(chunks[1], "");
    assert_eq!(chunks[3], digest(&data[12288..]));
    assert_eq!(exit_code(&summary), 2);
    assert_eq!(
        copy_summary(&summary),
        "Finished with errors — 15.50 KiB copied, 512 B unreadable in 1 bad region(s). \
         Re-run to retry (state: run.state)."
    );

    // The sector comes back: a retry recovers it, and the manifest is filled
    // from the target.
    disk.dead.clear();
    let mut c = cli();
    c.retry = true;
    c.verify = true;
    let (summary, state) = run(&mut disk, &c, Some(&state)).unwrap();
    assert_eq!(disk.bytes(), &data[..]);
    assert_eq!(summary.bytes_done_this_run, 512);
    assert_manifest(&state, &data, 4096);
    assert_eq!(exit_code(&summary), 0);
}

#[test]
fn a_retry_leaves_what_still_fails() {
    let data = pattern(16 * 1024);
    let mut disk = Disk::new(&data);
    disk.dead = vec![(5000, 5001), (9000, 9001)];
    let mut c = cli();
    c.transfer_size = Some(4096);
    let (first, state) = run(&mut disk, &c, None).unwrap();
    assert_eq!(first.bad_bytes, 1024);
    // One of the two sectors comes back, the other stays bad.
    disk.dead.remove(1);
    c.retry = true;
    let (second, state) = run(&mut disk, &c, Some(&state)).unwrap();
    assert_eq!(second.bad_bytes, 512);
    assert_eq!(second.bytes_done_this_run, 512);
    assert!(!second.completed);
    assert_eq!(
        state.region_map().next_with(RegionStatus::Bad, 0),
        Some((4608, 5120))
    );
    let mut expect = data.clone();
    expect[4608..5120].fill(0);
    assert_eq!(disk.bytes(), &expect[..]);
}

#[test]
fn an_interrupted_run_resumes_where_it_stopped() {
    let data = pattern(16 * 1024);
    // A signal during the last block comes too late: the copy is through.
    for stop_after in 0..15 {
        let mut disk = Disk::new(&data);
        disk.stop_after = stop_after;
        let mut c = cli();
        c.transfer_size = Some(2048);
        c.hash_chunk = Some(4096);
        let (first, state) = run(&mut disk, &c, None).unwrap();
        assert!(first.interrupted);
        assert_eq!(exit_code(&first), 130);
        assert!(copy_summary(&first).contains("Resume with the same command"));
        assert_eq!(disk.flushes, 1, "the state is saved before the stop");
        // What is marked done is on the target.
        let done = first.bytes_done as usize;
        assert_eq!(&disk.bytes()[..done], &data[..done]);
        disk.stop_after = usize::MAX;
        let (second, state) = run(&mut disk, &cli(), Some(&state)).unwrap();
        assert!(second.completed);
        assert_eq!(second.bytes_done_this_run, (data.len() - done) as u64);
        assert_eq!(second.bytes_written, data.len() as u64);
        assert_eq!(disk.bytes(), &data[..]);
        assert_manifest(&state, &data, 4096);
    }
}

#[test]
fn short_reads_and_frequent_flushes_change_nothing() {
    let data = pattern(10_000);
    let mut plain = Disk::new(&data);
    let mut slow = Disk::new(&data);
    slow.most = 700;
    slow.flush_always = true;
    let mut c = cli();
    c.transfer_size = Some(4096);
    c.hash_chunk = Some(1024);
    let (_, one) = run(&mut plain, &c, None).unwrap();
    let (_, two) = run(&mut slow, &c, None).unwrap();
    assert_eq!(plain.bytes(), slow.bytes());
    assert_eq!(one.hashes, two.hashes);
    assert_eq!(one.regions, two.regions);
    assert_eq!(plain.flushes, 0);
    assert!(slow.flushes >= 10);
}

#[test]
fn a_source_that_ends_early_leaves_the_rest_untried() {
    let data = pattern(8192);
    let mut disk = Disk::new(&data);
    let mut c = cli();
    c.transfer_size = Some(4096);
    let (_, state) = run(&mut disk, &c, None).unwrap();
    assert_eq!(state.progress.bytes_total, 8192);
    // A state that promises more than the source gives: the domain is clipped.
    let grown = seeded(4096, 0, vec![(0, 16384, RegionStatus::Untried)], None);
    let mut disk = Disk::new(&data);
    let (summary, _) = run(&mut disk, &cli(), Some(&grown)).unwrap();
    assert!(summary.completed);
    assert_eq!(summary.bytes_total, 8192);
}

#[test]
fn a_refresh_overwrites_stale_data_with_zeros() {
    // The first run kept the target sparse; the mode sticks, but a refresh must
    // not assume a zeroed target.
    let mut data = pattern(8192);
    let mut disk = Disk::new(&data);
    let mut c = cli();
    c.skip_zeros = Some(true);
    c.hash_chunk = Some(4096);
    let (_, state) = run(&mut disk, &c, None).unwrap();
    assert!(state.params.skip_zeros);
    data[4096..].fill(0);
    disk.source = data.clone();
    let mut c = cli();
    c.refresh = true;
    let (summary, state) = run(&mut disk, &c, Some(&state)).unwrap();
    assert_eq!(disk.bytes(), &data[..]);
    assert!(state.params.skip_zeros, "still recorded");
    assert!(!summary.skip_zeros, "but not what this run did");
}

#[test]
fn a_refresh_with_skip_unchanged_goes_by_the_target() {
    let data = pattern(16 * 1024);
    let mut disk = Disk::new(&data);
    let mut c = cli();
    c.hash_chunk = Some(4096);
    c.transfer_size = Some(1024);
    let (_, state) = run(&mut disk, &c, None).unwrap();
    // A byte of the target rots; source and manifest are as they were.
    disk.target.as_mut().unwrap()[5000] ^= 1;
    let rotten = disk.bytes().to_vec();
    let mut c = cli();
    c.refresh = true;
    let reads = disk.target_reads;
    let (summary, state) = run(&mut disk, &c, Some(&state)).unwrap();
    assert_eq!(disk.bytes(), &rotten[..], "the manifest vouches for every chunk");
    assert_eq!(summary.bytes_skipped_by_hash, 16 * 1024);
    assert_eq!(disk.target_reads, reads);
    // Compared with the target, the block with the rot is written, and no other.
    c.skip_unchanged = Some(true);
    let (summary, state) = run(&mut disk, &c, Some(&state)).unwrap();
    assert_eq!(disk.bytes(), &data[..]);
    assert_eq!(summary.bytes_skipped_by_hash, 0);
    assert_eq!(summary.bytes_written_this_run, 1024);
    assert_manifest(&state, &data, 4096);
}

#[test]
fn bad_bytes_wait_for_a_retry() {
    let data = pattern(16 * 1024);
    let mut disk = Disk::with_target(&data, &[7u8; 16 * 1024]);
    let mut state = one_bad_region();
    state.regions[2].status = RegionStatus::Untried;
    let (summary, state) = run(&mut disk, &cli(), Some(&state)).unwrap();
    assert_eq!(summary.bad_bytes, 4096);
    assert_eq!(&disk.bytes()[8192..12288], &[7u8; 4096][..]);
    assert_eq!(&disk.bytes()[12288..], &data[12288..]);
    assert_eq!(
        state.region_map().next_with(RegionStatus::Bad, 0),
        Some((8192, 12288))
    );
}

#[test]
fn a_checkpoint_older_than_the_target_is_resumed() {
    // Zeros are left out; the run was cut off in the middle of its third write,
    // and only the first block is on record.
    let mut data = pattern(16 * 1024);
    data[8192..12288].fill(0);
    let mut torn = data[..4096].to_vec();
    torn.extend_from_slice(&data[4096..8192]);
    torn.resize(12288, 0);
    torn.extend_from_slice(&data[12288..13000]);
    let mut disk = Disk::with_target(&data, &torn);
    let mut state = seeded(
        4096,
        4096,
        vec![
            (0, 4096, RegionStatus::Done),
            (4096, 12288, RegionStatus::Untried),
        ],
        None,
    );
    state.params.skip_zeros = true;
    let (summary, _) = run(&mut disk, &cli(), Some(&state)).unwrap();
    assert!(summary.completed);
    assert_eq!(disk.bytes(), &data[..]);
    assert_eq!(summary.bytes_written_this_run, 8192);
}

#[test]
fn a_resume_follows_a_changed_domain() {
    let data = pattern(16 * 1024);
    // The source has grown since.
    let mut disk = Disk::new(&data[..10_000]);
    let (first, state) = run(&mut disk, &cli(), None).unwrap();
    assert_eq!(first.bytes_total, 10_000);
    disk.source = data.clone();
    let (second, state) = run(&mut disk, &cli(), Some(&state)).unwrap();
    assert!(second.completed);
    assert_eq!(second.bytes_total, 16 * 1024);
    assert_eq!(second.bytes_written_this_run, 16 * 1024 - 10_000);
    assert_eq!(disk.bytes(), &data[..]);
    // A smaller limit clips the map, and leaves nothing to do.
    let mut c = cli();
    c.length = Some(8192);
    let (third, _) = run(&mut disk, &c, Some(&state)).unwrap();
    assert_eq!(third.bytes_total, 8192);
    assert_eq!(third.bytes_done, 8192);
    assert_eq!(third.bytes_written_this_run, 0);
    assert_eq!(disk.bytes(), &data[..]);
}

#[test]
fn skip_unchanged_compares_before_it_writes() {
    let data = pattern(8192);
    let mut clone = data.clone();
    clone[5000] ^= 1;
    let mut disk = Disk::with_target(&data, &clone);
    let mut c = cli();
    c.force = true;
    c.skip_unchanged = Some(true);
    c.transfer_size = Some(1024);
    let (summary, _) = run(&mut disk, &c, None).unwrap();
    assert_eq!(summary.bytes_written, 1024);
    assert_eq!(disk.bytes(), &data[..]);
    assert_eq!(
        copy_summary(&summary),
        "Done — scanned 8.00 KiB from src.img, wrote 1.00 KiB to out.img (rest already matched)."
    );
    assert!(skip_zeros_is_risky(true, true, false));
    assert!(!skip_zeros_is_risky(true, true, true));
}

#[test]
fn direct_reads_ask_for_whole_sectors() {
    // An odd tail: the request is rounded up, the surplus is not used.
    let data = pattern(3000);
    let mut c = cli();
    c.direct = true;
    let params = resolve_params(&c, "out.img".to_string(), None, 512).unwrap();
    let options = copy_options(&c, &params, 2900, true);
    let hasher = setup_hashing(None, None, 512, 2900).unwrap();
    let mut copier =
        start_copy(options, RegionMap::from_total(2900), hasher, Vec::new(), 0).unwrap();
    let quiet = Signals {
        interrupted: false,
        flush_due: false,
    };
    copier.step(Reply::Done, quiet);
    assert_eq!(
        copier.action(),
        Action::ReadSource {
            offset: 0,
            want: 2900,
            request: 3072
        }
    );
    copier.step(Reply::Source(data.clone()), quiet);
    assert_eq!(copier.payload(), &data[..2900]);
    copier.step(Reply::Done, quiet);
    assert_eq!(copier.action(), Action::Stop(Outcome::Finished));
    assert_eq!(copier.processed(), 2900);
}

#[test]
fn a_source_of_unknown_size_is_copied_to_its_end() {
    let data = pattern(5000);
    let c = cli();
    let mut params = resolve_params(&c, "out.img".to_string(), None, 512).unwrap();
    params.transfer_size = 2048;
    let options = copy_options(&c, &params, 0, false);
    let hasher = setup_hashing(Some(2048), None, 512, 0).unwrap();
    let mut copier =
        start_copy(options, RegionMap::from_total(0), hasher, Vec::new(), 0).unwrap();
    let mut disk = Disk::new(&data);
    let quiet = Signals {
        interrupted: false,
        flush_due: false,
    };
    loop {
        let reply = match copier.action() {
            Action::ReadSource {
                offset, request, ..
            } => disk.read_source(offset, request),
            Action::Write { offset, .. } => {
                let block = copier.payload().to_vec();
                disk.write(offset, &block);
                Reply::Done
            }
            Action::Stop(outcome) => {
                assert_eq!(outcome, Outcome::Finished);
                break;
            }
            _ => Reply::Done,
        };
        copier.step(reply, quiet);
    }
    assert!(copier.wrote_this_run());
    assert_eq!(copier.bytes_written(), 5000);
    assert_eq!(disk.bytes(), &data[..]);
    let expect: Vec<String> = data.chunks(2048).map(digest).collect();
    assert_eq!(copier.hasher().chunks(), &expect[..]);
    assert_eq!(copier.map().covered_end(), 5000);

    // A verify pass over the target finds all of it intact, the tail too.
    let parts = copier.into_parts();
    let manifest = manifest_of(&parts.hasher);
    let mut verifier = Verifier::new(0, 0, 2048, parts.hasher, None, now());
    loop {
        let reply = match verifier.action() {
            ReadAction::ReadTarget { offset, length } => {
                ReadReply::Data(disk.read_target(offset, length))
            }
            ReadAction::Stop(_) => break,
            _ => ReadReply::Done,
        };
        verifier.step(reply, quiet);
    }
    assert!(verifier.outcome().ok());
    assert_eq!(verifier.outcome().bytes_verified, 5000);

    // Run again, the first read finds the end, and nothing changes.
    let hasher = setup_hashing(None, Some(&manifest), 512, 0).unwrap();
    let before = parts.map.clone();
    let mut copier = start_copy(options, parts.map, hasher, Vec::new(), 5000).unwrap();
    copier.step(Reply::Done, quiet);
    let Action::ReadSource { offset, request, .. } = copier.action() else {
        panic!("the end is looked for");
    };
    assert_eq!(offset, 5000);
    copier.step(disk.read_source(offset, request), quiet);
    assert_eq!(copier.action(), Action::Stop(Outcome::Finished));
    assert!(!copier.wrote_this_run());
    assert_eq!(copier.bytes_written(), 5000);
    assert_eq!(*copier.map(), before);
    assert_eq!(copier.hasher().chunks(), &expect[..]);

    // A media error is fatal there: without a domain nothing can be skipped.
    let hasher = setup_hashing(Some(2048), None, 512, 0).unwrap();
    let mut copier =
        start_copy(options, RegionMap::from_total(0), hasher, Vec::new(), 0).unwrap();
    copier.step(Reply::Done, quiet);
    let action = copier.action();
    copier.step(Reply::MediaError, quiet);
    assert_eq!(copier.action(), Action::Stop(Outcome::Failed));
    assert_eq!(failure_context(action), "reading at source offset 0");
}

#[test]
fn a_failed_write_stops_the_copy() {
    let c = cli();
    let params = resolve_params(&c, "out.img".to_string(), None, 512).unwrap();
    let options = copy_options(&c, &params, 1000, false);
    let hasher = setup_hashing(None, None, 512, 1000).unwrap();
    let mut copier =
        start_copy(options, RegionMap::from_total(1000), hasher, Vec::new(), 0).unwrap();
    let quiet = Signals {
        interrupted: false,
        flush_due: false,
    };
    copier.step(Reply::Done, quiet);
    copier.step(Reply::Source(pattern(1000)), quiet);
    let action = copier.action();
    assert_eq!(
        failure_context(action),
        "writing 1000 bytes at target offset 0"
    );
    copier.step(Reply::Failed, quiet);
    assert_eq!(copier.action(), Action::Stop(Outcome::Failed));
    // Nothing that was not written is marked done.
    assert_eq!(copier.map().bytes_with(RegionStatus::Done), 0);
}

#[test]
fn a_run_notes_what_is_worth_a_warning() {
    let mut c = cli();
    c.source = "/dev/sdc".to_string();
    c.allow_mounted = true;
    let mut state = one_bad_region();
    state.params.sector_size = 4096;
    let around = TargetFacts {
        source: None,
        target: Some(Disk::facts(10, 2)),
        source_mounted: true,
        target_mounted: true,
    };
    let notes = check(&c, "out.img", Some(&state), 512, around).unwrap().notes;
    assert!(notes.other_source && notes.other_sector);
    assert!(notes.source_mounted && notes.target_mounted);
    assert!(!notes.stale_zeros, "a resume knows what is on the target");
    c.force = true;
    c.skip_zeros = Some(true);
    let notes = check(&c, "out.img", None, 512, around).unwrap().notes;
    assert!(!notes.other_source && !notes.other_sector && notes.stale_zeros);
}

#[test]
fn a_run_is_refused_before_it_writes() {
    let mut c = cli();
    c.seek = Some(512);
    let params = resolve_params(&c, "out.img".to_string(), None, 512).unwrap();
    let refusal = |r: Result<exhume::plan::Prepared, Error>| match r {
        Ok(_) => panic!("accepted"),
        Err(e) => e.message(),
    };
    assert!(refusal(prepare(&c, "out.img", &params, None, Some(4096), Some(4096), true))
        .contains("refusing before writing anything"));
    c.refresh = true;
    assert!(refusal(prepare(&c, "out.img", &params, None, None, None, true))
        .contains("detectable size"));
    let done = seeded(4096, 16384, vec![(0, 16384, RegionStatus::Done)], None);
    let prepared = prepare(&c, "out.img", &params, Some(&done), Some(16384), None, true).unwrap();
    assert!(prepared.reopened);
    assert_eq!(prepared.map, RegionMap::from_total(16384));
}

#[test]
fn extents_that_do_not_fit_are_not_started() {
    let mut c = cli();
    c.skip = Some(u64::MAX - 511);
    let params = resolve_params(&c, "out.img".to_string(), None, 512).unwrap();
    let options = copy_options(&c, &params, 1024, false);
    let hasher = setup_hashing(None, None, 512, 1024).unwrap();
    assert!(start_copy(options, RegionMap::from_total(1024), hasher, Vec::new(), 0).is_none());
}
