use exhume::copier::{Outcome, Signals};
use exhume::gapfill::GapFiller;
use exhume::hash::{digest, ChunkHasher};
use exhume::progress::{EventCounter, EVENT_INTERVAL};
use exhume::readback::{ReadAction, ReadReply};
use exhume::region::{RegionMap, RegionStatus};
use exhume::state::VerifyState;
use exhume::time::Timestamp;
use exhume::verify::{chunk_len, Verifier};

fn now() -> Timestamp {
    Timestamp::new(1_781_769_600, 0).unwrap()
}

fn data(len: usize) -> Vec<u8> {
    (0..len).map(|i| (i * 7 % 253) as u8).collect()
}

const QUIET: Signals = Signals {
    interrupted: false,
    flush_due: false,
};

fn slice(target: &[u8], offset: u64, length: u64) -> Vec<u8> {
    let from = (offset as usize).min(target.len());
    let to = (from + length as usize).min(target.len());
    target[from..to].to_vec()
}

/// A hasher whose manifest describes `bytes` in chunks of `size`.
fn manifest(bytes: &[u8], size: u64) -> ChunkHasher {
    let chunks = bytes.chunks(size as usize).map(digest).collect();
    ChunkHasher::new(size, bytes.len() as u64, chunks)
}

fn drive(verifier: &mut Verifier, target: &[u8], signals: Signals) -> Vec<ReadAction> {
    let mut actions = Vec::new();
    loop {
        let action = verifier.action();
        actions.push(action);
        let reply = match action {
            ReadAction::ReadTarget { offset, length } => {
                ReadReply::Data(slice(target, offset, length))
            }
            ReadAction::Stop(_) => return actions,
            _ => ReadReply::Done,
        };
        verifier.step(reply, signals);
    }
}

#[test]
fn a_verify_pass_reads_the_target_in_transfers() {
    let bytes = data(1000);
    let mut target = vec![9u8; 64];
    target.extend_from_slice(&bytes);
    let mut v = Verifier::new(64, 1000, 300, manifest(&bytes, 400), None, now());
    assert_eq!(v.bytes_ahead(), 1000);
    let actions = drive(&mut v, &target, QUIET);
    assert_eq!(
        actions,
        vec![
            ReadAction::Begin,
            ReadAction::ReadTarget { offset: 64, length: 300 },
            ReadAction::ReadTarget { offset: 364, length: 100 },
            ReadAction::ReadTarget { offset: 464, length: 300 },
            ReadAction::ReadTarget { offset: 764, length: 100 },
            ReadAction::ReadTarget { offset: 864, length: 200 },
            ReadAction::Save,
            ReadAction::Stop(Outcome::Finished),
        ]
    );
    let outcome = v.outcome();
    assert!(outcome.ok());
    assert_eq!(outcome.chunks_checked, 3);
    assert_eq!(outcome.bytes_verified, 1000);
    assert_eq!(v.processed(), 1000);
}

#[test]
fn a_truncated_target_is_a_mismatch() {
    let bytes = data(1000);
    let mut v = Verifier::new(0, 1000, 1000, manifest(&bytes, 400), None, now());
    drive(&mut v, &bytes[..900], QUIET);
    let outcome = v.outcome();
    assert_eq!(outcome.mismatches, vec![800]);
    assert_eq!(outcome.bytes_verified, 1000);
    assert!(!outcome.ok());
}

#[test]
fn chunks_without_a_digest_are_counted_and_passed_over() {
    let bytes = data(1000);
    let mut chunks: Vec<String> = bytes.chunks(400).map(digest).collect();
    chunks[1] = String::new();
    let mut v = Verifier::new(0, 1000, 400, ChunkHasher::new(400, 1000, chunks), None, now());
    assert_eq!(v.bytes_ahead(), 600);
    drive(&mut v, &bytes, QUIET);
    let outcome = v.outcome();
    assert_eq!(outcome.chunks_checked, 2);
    assert_eq!(outcome.chunks_unhashed, 1);
    assert!(outcome.ok());
}

/// A hasher whose manifest describes a source of unknown size.
fn open_manifest(bytes: &[u8], size: u64) -> ChunkHasher {
    let chunks = bytes.chunks(size as usize).map(digest).collect();
    ChunkHasher::new(size, 0, chunks)
}

#[test]
fn the_tail_of_an_unknown_size_is_checked_over_its_bytes() {
    // Three bytes on a grid of eight: the target ends with them.
    let mut v = Verifier::new(0, 0, 8, open_manifest(&[1, 2, 3], 8), None, now());
    drive(&mut v, &[1, 2, 3], QUIET);
    assert_eq!(v.outcome().mismatches, vec![]);
    assert_eq!(v.outcome().chunks_checked, 1);
    assert_eq!(v.outcome().bytes_verified, 3);
    assert!(v.outcome().ok());

    // Whole chunks before it, and reads that do not end with a chunk.
    let bytes = data(1000);
    let mut v = Verifier::new(0, 0, 300, open_manifest(&bytes, 400), None, now());
    drive(&mut v, &bytes, QUIET);
    assert!(v.outcome().ok());
    assert_eq!(v.outcome().chunks_checked, 3);
    assert_eq!(v.outcome().bytes_verified, 1000);
}

#[test]
fn a_damaged_tail_of_an_unknown_size_is_listed() {
    let bytes = data(1000);
    let mut rotten = bytes.clone();
    rotten[900] ^= 1;
    let mut v = Verifier::new(0, 0, 400, open_manifest(&bytes, 400), None, now());
    drive(&mut v, &rotten, QUIET);
    assert_eq!(v.outcome().mismatches, vec![800]);
    // A tail that lost bytes is damaged, and so is one that is gone.
    for len in [999, 801, 800] {
        let mut v = Verifier::new(0, 0, 400, open_manifest(&bytes, 400), None, now());
        drive(&mut v, &bytes[..len], QUIET);
        assert_eq!(v.outcome().mismatches, vec![800], "{len} bytes");
    }
    // Only the last chunk may end early.
    let mut v = Verifier::new(0, 0, 400, open_manifest(&bytes, 400), None, now());
    drive(&mut v, &bytes[..700], QUIET);
    assert_eq!(v.outcome().mismatches, vec![400, 800]);
}

#[test]
fn an_interrupted_verify_saves_its_cursor_and_resumes() {
    let bytes = data(1000);
    let mut rotten = bytes.clone();
    rotten[10] ^= 1;
    rotten[990] ^= 1;
    let mut v = Verifier::new(0, 1000, 400, manifest(&bytes, 400), None, now());
    v.step(ReadReply::Done, QUIET);
    // The first chunk is checked, then the signal comes.
    v.step(
        ReadReply::Data(rotten[..400].to_vec()),
        Signals {
            interrupted: true,
            flush_due: false,
        },
    );
    assert_eq!(v.action(), ReadAction::Save);
    let section = v.section(now());
    assert_eq!(section.cursor, Some(1));
    assert_eq!(section.mismatches, vec![0]);
    assert_eq!(section.ok, None);
    v.step(ReadReply::Done, QUIET);
    assert_eq!(v.action(), ReadAction::Stop(Outcome::Interrupted));
    assert!(v.outcome().interrupted && !v.outcome().ok());

    // The saved pass goes on from there and ends as one pass would have.
    let mut rest = Verifier::new(0, 1000, 400, manifest(&bytes, 400), Some(section), now());
    drive(&mut rest, &rotten, QUIET);
    let mut whole = Verifier::new(0, 1000, 400, manifest(&bytes, 400), None, now());
    drive(&mut whole, &rotten, QUIET);
    assert_eq!(rest.outcome().chunks_checked, 2);
    assert_eq!(rest.outcome().mismatches, vec![0, 800]);
    assert_eq!(rest.outcome().mismatches, whole.outcome().mismatches);
}

#[test]
fn a_verify_pass_checkpoints_when_due() {
    let bytes = data(1000);
    let mut v = Verifier::new(0, 1000, 400, manifest(&bytes, 400), None, now());
    v.step(ReadReply::Done, QUIET);
    v.step(
        ReadReply::Data(bytes[..400].to_vec()),
        Signals {
            interrupted: false,
            flush_due: true,
        },
    );
    assert_eq!(v.action(), ReadAction::Save);
    assert_eq!(v.section(now()).cursor, Some(1));
    drive(&mut v, &bytes, QUIET);
    assert!(v.outcome().ok());
}

#[test]
fn a_finished_pass_records_its_result() {
    let bytes = data(500);
    let mut v = Verifier::new(0, 500, 500, manifest(&bytes, 500), None, now());
    v.step(ReadReply::Done, QUIET);
    v.step(ReadReply::Data(bytes.clone()), QUIET);
    assert_eq!(v.action(), ReadAction::Save);
    let later = Timestamp::new(1_781_769_700, 0).unwrap();
    assert_eq!(
        v.section(later),
        VerifyState {
            cursor: None,
            mismatches: vec![],
            started: now(),
            finished: Some(later),
            ok: Some(true),
        }
    );
}

#[test]
fn a_cursor_past_the_grid_is_clamped() {
    let bytes = data(500);
    let prior = VerifyState {
        cursor: Some(99),
        mismatches: vec![7],
        started: now(),
        finished: None,
        ok: None,
    };
    let mut v = Verifier::new(0, 500, 500, manifest(&bytes, 500), Some(prior), now());
    let actions = drive(&mut v, &bytes, QUIET);
    assert_eq!(
        actions,
        vec![
            ReadAction::Begin,
            ReadAction::Save,
            ReadAction::Stop(Outcome::Finished)
        ]
    );
    assert_eq!(v.outcome().mismatches, vec![7]);
    assert_eq!(v.outcome().chunks_checked, 0);
}

#[test]
fn a_failed_read_back_ends_the_pass() {
    let bytes = data(500);
    let mut v = Verifier::new(0, 500, 500, manifest(&bytes, 500), None, now());
    v.step(ReadReply::Done, QUIET);
    v.step(ReadReply::Failed, QUIET);
    assert_eq!(v.action(), ReadAction::Stop(Outcome::Failed));
}

#[test]
fn chunk_lengths_are_clipped_by_the_domain() {
    assert_eq!(chunk_len(0, 400, 1000), 400);
    assert_eq!(chunk_len(2, 400, 1000), 200);
    assert_eq!(chunk_len(7, 400, 0), 400);
}

#[test]
fn gaps_are_filled_where_everything_is_done() {
    let bytes = data(1000);
    let mut map = RegionMap::from_total(1000);
    map.mark(0, 900, RegionStatus::Done);
    // Chunk 0 has a digest, chunk 1 is a gap, chunk 2 is not all done.
    let hasher = ChunkHasher::new(400, 1000, vec!["kept".to_string()]);
    let mut g = GapFiller::new(100, 1000, 250, map.clone(), hasher);
    let mut target = vec![0u8; 100];
    target.extend_from_slice(&bytes);
    let mut reads = Vec::new();
    loop {
        let reply = match g.action() {
            ReadAction::ReadTarget { offset, length } => {
                reads.push((offset, length));
                ReadReply::Data(slice(&target, offset, length))
            }
            ReadAction::Stop(outcome) => {
                assert_eq!(outcome, Outcome::Finished);
                break;
            }
            _ => ReadReply::Done,
        };
        g.step(reply, false);
    }
    assert_eq!(reads, vec![(500, 250), (750, 150)]);
    let (after, hasher) = g.into_parts();
    assert_eq!(after, map);
    assert_eq!(hasher.get(0), Some("kept"));
    assert_eq!(hasher.get(1), Some(digest(&bytes[400..800]).as_str()));
    assert_eq!(hasher.get(2), None);
}

#[test]
fn a_short_target_leaves_its_gap() {
    let mut map = RegionMap::from_total(800);
    map.mark(0, 800, RegionStatus::Done);
    let mut g = GapFiller::new(0, 800, 400, map, ChunkHasher::new(400, 800, Vec::new()));
    g.step(ReadReply::Done, false);
    g.step(ReadReply::Data(vec![1; 300]), false);
    assert_eq!(g.position(), 300);
    g.step(ReadReply::Data(Vec::new()), false);
    // The pass goes on with the next chunk; a signal then ends it.
    assert_eq!(
        g.action(),
        ReadAction::ReadTarget {
            offset: 400,
            length: 400
        }
    );
    g.step(ReadReply::Data(vec![2; 400]), true);
    let (_, hasher) = g.into_parts();
    assert_eq!(hasher.get(0), None);
    assert_eq!(hasher.get(1), Some(digest(&[2; 400]).as_str()));
}

#[test]
fn a_failed_gap_read_ends_the_pass() {
    let mut map = RegionMap::from_total(400);
    map.mark(0, 400, RegionStatus::Done);
    let mut g = GapFiller::new(0, 400, 400, map, ChunkHasher::new(400, 400, Vec::new()));
    g.step(ReadReply::Done, false);
    g.step(ReadReply::Failed, false);
    assert_eq!(g.action(), ReadAction::Stop(Outcome::Failed));
}

#[test]
fn progress_events_are_spaced() {
    assert_eq!(EVENT_INTERVAL, 2000);
    let mut counter = EventCounter::new(1000, 400);
    assert!(!counter.tick(100, 1999));
    assert!(counter.tick(50, 2000));
    assert_eq!(counter.done, 550);
    assert_eq!(counter.this_run(), 150);
}
