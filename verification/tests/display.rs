use exhume::cli::Cli;
use exhume::engine::Summary;
use exhume::params::RunParams;
use exhume::region::{RegionMap, RegionStatus};
use exhume::report::{copy_summary, exit_code, skip_reason, status_label, verify_summary};
use exhume::state::{Hashes, StateFile, VerifyState};
use exhume::status::{render, report, resolve_state_path};
use exhume::text::{
    chars_of, decimal_text, find_stop, hex8_text, pad, parse_u64, space, split_lines, split_words,
    text_of, trim, Stop,
};
use exhume::time::{Timestamp, MAX_SECONDS, MIN_SECONDS};
use exhume::verify::VerifyOutcome;

fn at(secs: i64) -> Timestamp {
    Timestamp::new(secs, 0).unwrap()
}

fn summary() -> Summary {
    Summary {
        source: "/dev/sdb".to_string(),
        target: "grave.img".to_string(),
        state_path: "grave.img.state".to_string(),
        bytes_total: 3 << 20,
        bytes_done: 3 << 20,
        bytes_done_this_run: 1 << 20,
        bytes_written: 2 << 20,
        bytes_written_this_run: 1500,
        bytes_skipped_by_hash: 0,
        refreshed: false,
        bad_bytes: 0,
        bad_regions: 0,
        skip_unchanged: false,
        skip_zeros: false,
        completed: true,
        interrupted: false,
        verify: None,
    }
}

fn outcome() -> VerifyOutcome {
    VerifyOutcome {
        chunks_checked: 4,
        bytes_verified: 16384,
        chunks_unhashed: 0,
        mismatches: vec![],
        interrupted: false,
    }
}

fn state(regions: &RegionMap, total: u64) -> StateFile {
    let params = RunParams {
        source: "/dev/sdb".to_string(),
        target: "grave.img".to_string(),
        sector_size: 512,
        transfer_size: 1 << 20,
        skip: 1 << 20,
        seek: 0,
        length: 0,
        skip_unchanged: false,
        skip_zeros: true,
    };
    StateFile::build(
        &params,
        regions,
        total,
        at(1_781_769_600),
        at(1_781_769_600),
        2048,
        None,
        None,
    )
}

#[test]
fn summaries_read_as_the_run_went() {
    let mut s = summary();
    assert_eq!(
        copy_summary(&s),
        "Done — copied 3.00 MiB from /dev/sdb to grave.img."
    );
    s.skip_zeros = true;
    assert_eq!(skip_reason(&s), "zero blocks left sparse");
    assert_eq!(
        copy_summary(&s),
        "Done — scanned 3.00 MiB from /dev/sdb, wrote 2.00 MiB to grave.img (zero blocks left sparse)."
    );
    s.skip_unchanged = true;
    assert_eq!(skip_reason(&s), "unchanged and zero blocks skipped");
    s.skip_zeros = false;
    assert_eq!(skip_reason(&s), "rest already matched");
    s.bytes_done_this_run = 0;
    assert_eq!(
        copy_summary(&s),
        "Already complete — 3.00 MiB in grave.img; nothing copied this run."
    );
    s.refreshed = true;
    s.bytes_done_this_run = 1 << 20;
    assert_eq!(
        copy_summary(&s),
        "Refreshed — scanned 1.00 MiB from /dev/sdb, wrote 1.46 KiB to grave.img (target comparison)."
    );
    s.bytes_skipped_by_hash = 4096;
    assert!(copy_summary(&s).ends_with("(4.00 KiB unchanged per manifest)."));
    s.completed = false;
    s.bad_bytes = 512;
    s.bad_regions = 1;
    assert_eq!(
        copy_summary(&s),
        "Finished with errors — 3.00 MiB copied, 512 B unreadable in 1 bad region(s). Re-run to \
         retry (state: grave.img.state)."
    );
    s.interrupted = true;
    assert_eq!(
        copy_summary(&s),
        "Interrupted — 3.00 MiB copied so far. Resume with the same command (state: grave.img.state)."
    );
    assert_eq!(skip_reason(&summary()), "");
}

#[test]
fn verify_summaries_name_the_first_mismatch() {
    let mut v = outcome();
    assert_eq!(
        verify_summary(&v),
        "Verified — 16.00 KiB in 4 chunk(s) match the manifest."
    );
    v.chunks_unhashed = 2;
    v.mismatches = vec![8192, 12288];
    assert_eq!(
        verify_summary(&v),
        "Verify FAILED — 2 of 4 chunk(s) differ from the manifest (first at offset 8192). (2 \
         chunk(s) have no digest and were skipped)"
    );
    v.interrupted = true;
    assert_eq!(
        verify_summary(&v),
        "Verify interrupted — re-run with --verify to check again."
    );
}

#[test]
fn exit_codes_tell_the_outcome() {
    let mut s = summary();
    assert_eq!((exit_code(&s), status_label(&s)), (0, "completed"));
    s.verify = Some(outcome());
    assert_eq!(exit_code(&s), 0);
    s.verify.as_mut().unwrap().mismatches.push(0);
    assert_eq!(exit_code(&s), 3);
    s.completed = false;
    assert_eq!((exit_code(&s), status_label(&s)), (2, "errors"));
    s.verify.as_mut().unwrap().interrupted = true;
    assert_eq!(exit_code(&s), 130);
    s.verify = None;
    s.interrupted = true;
    assert_eq!((exit_code(&s), status_label(&s)), (130, "interrupted"));
}

#[test]
fn a_status_names_everything() {
    let mut map = RegionMap::from_total(4096);
    map.mark(0, 2048, RegionStatus::Done);
    map.mark(2048, 512, RegionStatus::Bad);
    let mut s = state(&map, 4096);
    s.hashes = Some(Hashes {
        algorithm: "blake3".to_string(),
        chunk_size: 1024,
        chunks: vec!["a".to_string(), String::new(), "b".to_string()],
    });
    let r = report("run.state".to_string(), &s);
    assert_eq!(r.bytes_untried, 1536);
    assert_eq!(r.bad_bytes, 512);
    assert_eq!(r.hashes.as_ref().unwrap().chunks_total, 4);
    assert_eq!(
        render(&r, "50.0"),
        "State:    run.state (updated 2026-06-18 08:00:00 UTC)\n\
         Copy:     /dev/sdb -> grave.img\n\
         Grid:     512 B sectors, 1.00 MiB transfer, skip 1.00 MiB, skip-zeros\n\
         Progress: 2.00 KiB of 4.00 KiB done (50.0%), 1.50 KiB untried, 512 B bad\n\
         Written:  2.00 KiB\n\
         Hashes:   blake3 over 1.00 KiB chunks - 2 of 4 hashed\n\
         Bad regions (1):\n\
         \x20 offset           2048  512 B\n"
    );
}

#[test]
fn a_status_of_unknown_size_has_no_percentage() {
    let map = RegionMap::from_total(0);
    let mut s = state(&map, 0);
    s.hashes = Some(Hashes {
        algorithm: "blake3".to_string(),
        chunk_size: 1024,
        chunks: vec!["a".to_string()],
    });
    let text = render(&report("s".to_string(), &s), "0.0");
    assert!(text.contains("Progress: 0 B done, 0 B untried, 0 B bad\n"));
    assert!(text.contains("1 of 1 hashed"));
}

#[test]
fn long_lists_of_bad_regions_are_capped() {
    let mut map = RegionMap::from_total(100_000);
    for i in 0..22u64 {
        map.mark(i * 1024, 512, RegionStatus::Bad);
    }
    let text = render(&report("s".to_string(), &state(&map, 100_000)), "0.0");
    assert!(text.contains("Bad regions (22):\n"));
    assert!(text.contains("  offset          19456  512 B\n  ... and 2 more\n"));
    assert!(!text.contains("20480"));
}

#[test]
fn a_status_shows_the_last_verify() {
    let map = RegionMap::from_total(10);
    let mut s = state(&map, 10);
    let section = |cursor, mismatches, ok| VerifyState {
        cursor,
        mismatches,
        started: at(1_781_769_600),
        finished: Some(at(1_781_769_660)),
        ok,
    };
    s.verify = Some(section(None, vec![], Some(true)));
    let text = render(&report("s".to_string(), &s), "0.0");
    assert!(text.contains("Verify:   ok (last verified 2026-06-18 08:01:00 UTC)"));
    s.verify = Some(section(None, vec![1, 2], Some(false)));
    let text = render(&report("s".to_string(), &s), "0.0");
    assert!(text.contains("Verify:   FAILED"));
    s.verify = Some(section(Some(7), vec![], None));
    let text = render(&report("s".to_string(), &s), "0.0");
    assert!(text.contains("Verify:   interrupted at chunk 7"));
}

#[test]
fn the_state_path_follows_the_command_line() {
    let mut cli = Cli {
        source: "run.state".to_string(),
        target: None,
        state: Some("given.state".to_string()),
        sector_size: None,
        transfer_size: None,
        length: None,
        skip: None,
        seek: None,
        skip_unchanged: None,
        skip_zeros: None,
        hash_chunk: None,
        refresh: false,
        verify: false,
        retry: false,
        export_map: None,
        direct: false,
        status: true,
        force: false,
        allow_mounted: false,
        quiet: false,
        json: false,
        json_progress: false,
        verbose: 0,
    };
    assert_eq!(resolve_state_path(&cli, true, false), "given.state");
    cli.state = None;
    assert_eq!(resolve_state_path(&cli, true, false), "run.state");
    assert_eq!(resolve_state_path(&cli, false, false), "grave.img.state");
    cli.target = Some("/dev/sdc".to_string());
    assert_eq!(resolve_state_path(&cli, true, true), "sdc.state");
}

#[test]
fn times_are_shown_in_utc() {
    assert_eq!(at(0).utc(), "1970-01-01 00:00:00 UTC");
    assert_eq!(at(-1).utc(), "1969-12-31 23:59:59 UTC");
    let t = Timestamp::new(1_781_769_600, 999_999_999).unwrap();
    assert_eq!(t.utc(), "2026-06-18 08:00:00 UTC");
    assert_eq!((t.seconds(), t.nanoseconds()), (1_781_769_600, 999_999_999));
    assert_eq!(Timestamp::new(0, 2_000_000_000), None);
    assert_eq!(Timestamp::new(MAX_SECONDS + 1, 0), None);
    assert_eq!(Timestamp::new(MIN_SECONDS - 1, 0), None);
    assert!(Timestamp::new(MAX_SECONDS, 0).is_some());
    assert!(Timestamp::new(MIN_SECONDS, 0).is_some());
}

#[test]
fn every_time_that_can_be_held_can_be_shown() {
    for secs in [MIN_SECONDS, -62_135_596_801, 0, 253_402_300_800, MAX_SECONDS] {
        assert!(chrono::DateTime::from_timestamp(secs, 0).is_some());
        assert!(at(secs).utc().ends_with(" UTC"));
    }
    // A leap second is the one second with more than a thousand million
    // nanoseconds.
    for (secs, nanos) in [(59, 1_999_999_999), (58, 1_000_000_000), (59, 2_000_000_000)] {
        assert_eq!(
            Timestamp::new(secs, nanos).is_some(),
            chrono::DateTime::from_timestamp(secs, nanos).is_some()
        );
    }
    assert_eq!(
        chrono::DateTime::from_timestamp(MAX_SECONDS + 1, 0),
        None
    );
    assert_eq!(
        chrono::DateTime::from_timestamp(MIN_SECONDS - 1, 0),
        None
    );
}

#[test]
fn numbers_are_written_and_read_back() {
    for n in [0, 7, 10, 12_345, u64::MAX] {
        assert_eq!(decimal_text(n), n.to_string());
        assert_eq!(parse_u64(&decimal_text(n)), Some(n));
        assert_eq!(hex8_text(n), format!("{n:08X}"));
    }
    assert_eq!(parse_u64("+42"), Some(42));
    assert_eq!(parse_u64("007"), Some(7));
    for bad in ["", "+", "-1", "1 ", "18446744073709551616", "1x"] {
        assert_eq!(parse_u64(bad), None, "{bad}");
    }
    assert_eq!(pad("42".to_string(), 5, ' '), "   42");
    assert_eq!(pad("123456".to_string(), 5, ' '), "123456");
}

#[test]
fn text_splits_as_the_standard_library_splits_it() {
    let text = "  a\tbc \u{2003}d\r\n\nlast line\u{85} \r";
    let chars = chars_of(text);
    assert_eq!(text_of(&chars), text);
    let words: Vec<String> = split_words(&chars).iter().map(|w| text_of(w)).collect();
    let expect: Vec<&str> = text.split_whitespace().collect();
    assert_eq!(words, expect);
    let lines: Vec<String> = split_lines(&chars).iter().map(|l| text_of(l)).collect();
    let expect: Vec<&str> = text.lines().collect();
    assert_eq!(lines, expect);
    assert_eq!(text_of(&trim(&chars)), text.trim());
    for c in ['a', ' ', '\u{a0}', '\u{200b}', '\u{3000}', '\u{1680}', '\u{b}', '\u{1c}'] {
        assert_eq!(space(c), c.is_whitespace(), "{c:?}");
    }
    assert_eq!(find_stop(&chars, 0, Stop::Word), 2);
}
