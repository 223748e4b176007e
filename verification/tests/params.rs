use exhume::cli::Cli;
use exhume::error::Error;
use exhume::params::{human_if_exact, require_sector_aligned, RunParams};

fn cli() -> Cli {
    Cli {
        source: "/dev/sdb".to_string(),
        target: None,
        state: None,
        sector_size: None,
        transfer_size: None,
        length: None,
        skip: None,
        seek: None,
        skip_unchanged: None,
        skip_zeros: None,
        hash_chunk: None,
        refresh: false,
        verify: false,
        retry: false,
        export_map: None,
        direct: false,
        status: false,
        force: false,
        allow_mounted: false,
        quiet: false,
        json: false,
        json_progress: false,
        verbose: 0,
    }
}

fn recorded() -> RunParams {
    RunParams {
        source: "/dev/sdb".to_string(),
        target: "grave.img".to_string(),
        sector_size: 4096,
        transfer_size: 65536,
        skip: 8192,
        seek: 4096,
        length: 1 << 20,
        skip_unchanged: true,
        skip_zeros: true,
    }
}

#[test]
fn aligned_offsets_pass() {
    assert!(require_sector_aligned("skip", 0, 512).is_ok());
    assert!(require_sector_aligned("skip", 4096, 512).is_ok());
    assert!(require_sector_aligned("seek", 8192, 4096).is_ok());
}

#[test]
fn misaligned_offset_suggests_both_neighbours() {
    let err = require_sector_aligned("skip", 12_345_678, 4096).unwrap_err();
    let msg = err.message();
    // 12345678 = 3014 * 4096 + 334: down 12345344, up 12349440.
    assert!(msg.contains("--skip 12345678"), "{msg}");
    assert!(msg.contains("12345344 (down)"), "{msg}");
    assert!(msg.contains("12349440 (up)"), "{msg}");
}

#[test]
fn exact_suggestion_gets_a_human_form() {
    // 100001 with a 512 sector: down 99840, up 100352 (neither a clean unit),
    // but pick a case that lands exactly: 100K-aligned grid.
    let err = require_sector_aligned("seek", 102_400 + 1, 1024).unwrap_err();
    let msg = err.message();
    assert!(msg.contains("102400 (down, 100K)"), "{msg}");
}

#[test]
fn human_if_exact_picks_the_largest_unit() {
    assert_eq!(human_if_exact(1 << 30).as_deref(), Some("1G"));
    assert_eq!(human_if_exact(2 << 20).as_deref(), Some("2M"));
    assert_eq!(human_if_exact(100 << 10).as_deref(), Some("100K"));
    assert_eq!(human_if_exact(0), None);
    assert_eq!(human_if_exact(1000), None);
}

#[test]
fn the_quotient_of_a_human_form_stays_below_a_thousand() {
    assert_eq!(human_if_exact(999 << 10).as_deref(), Some("999K"));
    assert_eq!(human_if_exact(1000 << 10), None);
    assert_eq!(human_if_exact(12_345_344), None);
}

#[test]
fn the_whole_misaligned_message() {
    let err = require_sector_aligned("skip", 100, 512).unwrap_err();
    assert_eq!(
        err,
        Error::Misaligned(
            "--skip 100 is not a multiple of the 512-byte sector size; try 0 (down) or 512 (up)"
                .to_string()
        )
    );
    assert!(require_sector_aligned("skip", 100, 0).is_ok());
}

#[test]
fn a_misaligned_offset_at_the_end_of_the_range_wraps_its_upper_neighbour() {
    let err = require_sector_aligned("skip", u64::MAX, 4096).unwrap_err();
    assert!(err.message().ends_with("18446744073709547520 (down) or 0 (up)"));
}

#[test]
fn defaults_apply_without_flags_or_state() {
    let p = RunParams::resolve(&cli(), "grave.img".to_string(), None, 2048);
    assert_eq!(
        p,
        RunParams {
            source: "/dev/sdb".to_string(),
            target: "grave.img".to_string(),
            sector_size: 2048,
            transfer_size: 1 << 20,
            skip: 0,
            seek: 0,
            length: 0,
            skip_unchanged: false,
            skip_zeros: false,
        }
    );
}

#[test]
fn a_bare_resume_keeps_the_recorded_parameters() {
    let prior = recorded();
    let p = RunParams::resolve(&cli(), "grave.img".to_string(), Some(&prior), 512);
    assert_eq!(p, prior);
    assert_eq!(prior.clone(), prior);
}

#[test]
fn the_command_line_wins_over_the_state() {
    let prior = recorded();
    let mut c = cli();
    c.transfer_size = Some(4096);
    c.skip_zeros = Some(false);
    c.length = Some(0);
    let p = RunParams::resolve(&c, "grave.img".to_string(), Some(&prior), 512);
    assert_eq!(p.transfer_size, 4096);
    assert_eq!(p.length, 0);
    assert!(!p.skip_zeros, "=false switches a sticky mode off");
    assert!(p.skip_unchanged, "the other mode sticks");
}
