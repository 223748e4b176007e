//! The stages of a run, and what one hands to the next: laws on the functions the driver
//! calls, by their contracts alone. In each, `r` is what a call returned.

use crate::cli::Cli;
use crate::copier::{Copier, CopyParts, Outcome};
use crate::engine;
use crate::engine::{FaultCodes, ReadFault, Summary, WriteCounters};
use crate::error::Result;
use crate::hash;
use crate::hash::ChunkHasher;
use crate::params::RunParams;
use crate::plan;
use crate::plan::AfterCopy;
use crate::platform::{fallback, linux, macos};
use crate::progress::EventCounter;
use crate::readback::ReadAction;
use crate::region;
use crate::region::{Region, RegionMap, RegionStatus};
use crate::report;
use crate::safety;
use crate::safety::{FileFacts, FileKind, MountNotes};
use crate::state;
use crate::state::{Hashes, StateFile, VerifyState};
use crate::time::Timestamp;
use crate::verify::{Verifier, VerifyOutcome};
use vstd::prelude::*;

verus! {

// ---------------------------------------------------------------------------
// After a copy.

/// An interrupted copy is resumed first: nothing is read back before, and a verify pass
/// that was asked for is said to be left out. After any other, the manifest is completed,
/// and the target verified if that was asked for.
pub proof fn law_what_follows_a_copy(cli: Cli, interrupted: bool, r: AfterCopy)
    requires
        call_ensures(plan::after_copy, (&cli, interrupted), r),
    ensures
        interrupted ==> !r.fill_gaps && !r.verify,
        !interrupted ==> r.fill_gaps && !r.verify_skipped,
        cli.verify <==> r.verify || r.verify_skipped,
        !(r.verify && r.verify_skipped),
{
}

/// A state file is removed only after a run that left nothing to resume, and never one that
/// the user named; an unnamed one does not outlive such a run.
pub proof fn law_state_is_kept_while_it_is_needed(explicit: bool, completed: bool, r: bool)
    requires
        call_ensures(engine::discards_state, (explicit, completed), r),
    ensures
        r ==> completed && !explicit,
        completed && !explicit ==> r,
{
}

/// A result of a verify pass is kept exactly as long as nothing is written.
pub proof fn law_verify_result_goes_with_a_write(
    prior: Option<VerifyState>,
    wrote: bool,
    r: Option<VerifyState>,
)
    requires
        call_ensures(state::verify_carry, (&prior, wrote), r),
    ensures
        wrote ==> r is None,
        !wrote ==> state::verify_view(r) == state::verify_view(prior),
        state::repairs(state::verify_view(r)).len() > 0 ==> !wrote && state::repairs(
            state::verify_view(r),
        ) == state::repairs(state::verify_view(prior)),
{
}

/// Only a regular file is extended, and only to what it lacks: a target is never made
/// shorter.
pub proof fn law_targets_only_grow(facts: FileFacts, length: u64, r: bool)
    requires
        call_ensures(engine::needs_extending, (facts, length), r),
    ensures
        r ==> facts.length < length && facts.kind == FileKind::Regular,
        facts.kind == FileKind::Regular ==> (r <==> facts.length < length),
{
}

/// The summary is of the map: done and bad bytes are counted, and a run is complete exactly
/// if it was not interrupted and every byte the map covers is done. What was done before the
/// run is not the run's.
#[verifier::rlimit(40)]
pub proof fn law_summary_is_of_the_map(
    params: RunParams,
    target: String,
    state_path: String,
    domain: u64,
    map: RegionMap,
    counters: WriteCounters,
    refreshed: bool,
    interrupted: bool,
    verify: Option<VerifyOutcome>,
    r: Summary,
)
    requires
        map.wf(),
        region::end_of(map@) <= domain,
        call_ensures(
            engine::summarize,
            (
                params,
                target,
                state_path,
                domain,
                &map,
                counters,
                refreshed,
                interrupted,
                verify,
            ),
            r,
        ),
    ensures
        r.source@ == params.source@,
        r.target@ == target@,
        r.state_path@ == state_path@,
        r.bytes_total == domain,
        r.verify == verify,
        r.refreshed == refreshed,
        r.interrupted == interrupted,
        r.skip_unchanged == params.skip_unchanged,
        r.skip_zeros <==> params.skip_zeros && !refreshed,
        r.bytes_done == region::count(region::holds(map@, RegionStatus::Done), domain as int),
        r.bad_bytes == region::count(region::holds(map@, RegionStatus::Bad), domain as int),
        counters.done_at_start <= r.bytes_done ==> r.bytes_done_this_run + counters.done_at_start
            == r.bytes_done,
        r.bytes_written == counters.bytes_written,
        r.bytes_written_this_run == counters.bytes_written_this_run,
        r.bytes_skipped_by_hash == counters.bytes_skipped_by_hash,
        r.completed <==> !interrupted && forall|p: int|
            (#[trigger] map.status_at(p)) is Some ==> map.status_at(p) == Some(RegionStatus::Done),
        r.bad_regions > 0 <==> exists|p: int| #[trigger]
            map.status_at(p) == Some(RegionStatus::Bad),
{
    let rs = map@;
    region::law_totals_count_bytes(rs, RegionStatus::Done, domain as int);
    region::law_totals_count_bytes(rs, RegionStatus::Bad, domain as int);
    if exists|p: int| #[trigger] map.status_at(p) == Some(RegionStatus::Bad) {
        let p = choose|p: int| #[trigger] map.status_at(p) == Some(RegionStatus::Bad);
        let k = region::lemma_region_of(rs, p);
        region::lemma_status_of(rs, k, p);
        let pred = |x: region::Region| x.status == RegionStatus::Bad;
        assert(pred(rs[k]));
        rs.lemma_filter_contains(pred, k);
        assert(state::bad_count(rs) > 0);
    } else {
        assert forall|p: int| #[trigger] region::status_in(rs, p) != Some(RegionStatus::Bad) by {
            assert(map.status_at(p) != Some(RegionStatus::Bad));
        }
        state::lemma_no_bad_regions(map);
    }
    if exists|p: int| #[trigger] map.status_at(p) == Some(RegionStatus::Untried) {
        let p = choose|p: int| #[trigger] map.status_at(p) == Some(RegionStatus::Untried);
        region::lemma_some_bytes(rs, RegionStatus::Untried, p);
    } else {
        assert forall|p: int| #[trigger] region::status_in(rs, p) != Some(
            RegionStatus::Untried,
        ) by {
            assert(map.status_at(p) != Some(RegionStatus::Untried));
        }
        region::lemma_no_bytes(rs, RegionStatus::Untried);
    }
    let done = forall|p: int|
        (#[trigger] map.status_at(p)) is Some ==> map.status_at(p) == Some(RegionStatus::Done);
    if r.completed {
        assert forall|p: int| (#[trigger] map.status_at(p)) is Some implies map.status_at(p)
            == Some(RegionStatus::Done) by {
            assert(map.status_at(p) != Some(RegionStatus::Untried));
            assert(map.status_at(p) != Some(RegionStatus::Bad));
        }
    }
}

// ---------------------------------------------------------------------------
// From one run to the next.

/// What a run saves, the next one reads back: the parameters, the status of every byte, the
/// bytes written, the manifest and the verify section are those it was saved with; and the
/// file is not taken for a newer program's.
pub proof fn law_saved_state_is_read_back(
    params: RunParams,
    map: RegionMap,
    domain: u64,
    created: Timestamp,
    updated: Timestamp,
    bytes_written: u64,
    hashes: Option<Hashes>,
    verify: Option<VerifyState>,
    r: StateFile,
    again: RegionMap,
    newer: bool,
    p: int,
)
    requires
        map.wf(),
        call_ensures(
            StateFile::build,
            (&params, &map, domain, created, updated, bytes_written, hashes, verify),
            r,
        ),
        call_ensures(StateFile::region_map, (&r,), again),
        call_ensures(StateFile::is_newer, (&r,), newer),
    ensures
        engine::prior_params(Some(&r)) == Some(params@),
        again.status_at(p) == map.status_at(p),
        plan::prior_written(Some(&r)) == bytes_written,
        plan::prior_verify(Some(&r)) == state::verify_view(verify),
        hashes matches Some(h) ==> plan::prior_hashes(Some(&r)) == Some(&h),
        hashes is None ==> plan::prior_hashes(Some(&r)) is None,
        !newer,
        r.meta.created == created,
        r.meta.updated == updated,
        r.progress.bytes_total == domain,
{
}

/// The manifest that is saved is the hasher's, and a run that resumes it has all its digests
/// in their places, on the same grid.
pub proof fn law_saved_manifest_is_resumed(
    hasher: ChunkHasher,
    saved: Hashes,
    cli_chunk: Option<u64>,
    sector: u64,
    domain: u64,
    r: Result<ChunkHasher>,
    i: int,
)
    requires
        sector > 0,
        hasher.wf(),
        call_ensures(state::manifest_of, (&hasher,), saved),
        call_ensures(engine::setup_hashing, (cli_chunk, Some(&saved), sector, domain), r),
    ensures
        r matches Ok(next) ==> {
            &&& next@.chunk_size == hasher@.chunk_size
            &&& hash::digest_at(next@.chunks, i) == hash::digest_at(hasher@.chunks, i)
            &&& next@.domain == domain
            &&& next@.run.len() == 0
        },
        hasher@.chunk_size % (sector as int) == 0 && (cli_chunk is None || cli_chunk->0
            == hasher@.chunk_size) ==> r is Ok,
        cli_chunk is Some && cli_chunk->0 != hasher@.chunk_size ==> r is Err,
{
    hasher.lemma_wf();
}

// ---------------------------------------------------------------------------
// What the platform tells.

/// Damage is what every platform calls damage, and on Linux what its USB bridges call so;
/// a request that was not acceptable, or a device that is gone, never is.
pub proof fn law_what_is_damage(fault: ReadFault, on_linux: bool, on_macos: bool, elsewhere: bool)
    requires
        call_ensures(linux::is_media_error, (fault,), on_linux),
        call_ensures(macos::is_media_error, (fault,), on_macos),
        call_ensures(fallback::is_media_error, (fault,), elsewhere),
    ensures
        on_macos == elsewhere,
        elsewhere ==> on_linux,
        on_linux && !elsewhere ==> fault == ReadFault::RemoteIo,
        fault == ReadFault::Io || fault == ReadFault::BadMessage ==> elsewhere,
        fault == ReadFault::RemoteIo ==> on_linux,
        fault == ReadFault::Invalid || fault == ReadFault::Other ==> !on_linux && !on_macos
            && !elsewhere,
{
}

/// Each error number is told for what it is, where the numbers of a system differ; an error
/// without a number, or with any other, is none of them.
pub proof fn law_faults_are_told_apart(errno: Option<i32>, codes: FaultCodes, r: ReadFault)
    requires
        call_ensures(engine::fault_of, (errno, codes), r),
        codes.io != codes.bad_message,
        codes.io != codes.invalid,
        codes.bad_message != codes.invalid,
        codes.remote_io != Some(codes.io),
        codes.remote_io != Some(codes.bad_message),
        codes.remote_io != Some(codes.invalid),
    ensures
        r == ReadFault::Io <==> errno == Some(codes.io),
        r == ReadFault::BadMessage <==> errno == Some(codes.bad_message),
        r == ReadFault::Invalid <==> errno == Some(codes.invalid),
        r == ReadFault::RemoteIo <==> errno is Some && errno == codes.remote_io,
{
}

/// A probe read rejects direct reads only where the request was not acceptable: damage at
/// the place of the probe does not.
pub proof fn law_damage_does_not_rule_out_direct_reads(
    fault: Option<ReadFault>,
    cause: String,
    r: Result<()>,
    damage: bool,
)
    requires
        call_ensures(engine::verify_direct, (fault, cause), r),
        fault is Some ==> call_ensures(linux::is_media_error, (fault->0,), damage),
    ensures
        fault is None ==> r is Ok,
        fault is Some && damage ==> r is Ok,
        fault == Some(ReadFault::Invalid) ==> r is Err,
        r is Err ==> r->Err_0@ is Io,
{
}

/// A sector size is the reported one, where that is a size; else there is one default on
/// all platforms.
pub proof fn law_sector_sizes(
    reported: Option<u32>,
    signed: Option<i32>,
    on_linux: u64,
    on_macos: u64,
    elsewhere: u64,
)
    requires
        call_ensures(linux::detect_sector_size, (signed,), on_linux),
        call_ensures(macos::detect_sector_size, (reported,), on_macos),
        call_ensures(fallback::detect_sector_size, (), elsewhere),
    ensures
        elsewhere == 512,
        signed is Some && signed->0 > 0 ==> on_linux == signed->0,
        reported is Some && reported->0 > 0 ==> on_macos == reported->0,
        signed is None || signed->0 <= 0 ==> on_linux == elsewhere,
        reported is None || reported->0 == 0 ==> on_macos == elsewhere,
{
}

/// The size of a source is where seeking leads. Only a disk whose end cannot be sought has
/// its capacity instead, which is its blocks times their size.
pub proof fn law_source_sizes(
    seeked: Option<u64>,
    is_disk: bool,
    count: u64,
    block: u32,
    capacity: Option<u64>,
    on_linux: Option<u64>,
    on_macos: Option<u64>,
    elsewhere: Option<u64>,
)
    requires
        call_ensures(macos::disk_capacity, (count, block), capacity),
        call_ensures(linux::detect_size, (seeked,), on_linux),
        call_ensures(macos::detect_size, (seeked, is_disk, capacity), on_macos),
        call_ensures(fallback::detect_size, (seeked,), elsewhere),
    ensures
        on_linux == seeked,
        elsewhere == seeked,
        seeked is Some && seeked->0 > 0 ==> on_macos == seeked,
        !is_disk ==> on_macos == seeked,
        is_disk && (seeked is None || seeked->0 == 0) && 0 < count * block <= u64::MAX ==> on_macos
            == Some((count * block) as u64),
        is_disk && (seeked is None || seeked->0 == 0) && (count * block == 0 || count * block
            > u64::MAX) ==> on_macos == seeked,
{
}

// ---------------------------------------------------------------------------
// What is refused for safety.

/// Streams are refused, whatever they are called, and nothing else is; what is unknown is
/// left to the opening.
pub proof fn law_streams_are_refused(source: &str, facts: Option<FileFacts>, r: Result<()>)
    requires
        call_ensures(safety::ensure_source_supported, (source, facts), r),
    ensures
        r is Err ==> facts is Some && (facts->0.kind == FileKind::Fifo || facts->0.kind
            == FileKind::Socket) && r->Err_0@ is Refused,
        facts is Some && facts->0.kind == FileKind::Fifo ==> r is Err,
        facts is Some && facts->0.kind == FileKind::Socket ==> r is Err,
        facts is None ==> r is Ok,
{
}

/// A device that is too small is refused, one that fits to the last byte is not; and a
/// smaller device is refused wherever a larger one is.
pub proof fn law_small_targets_are_refused(
    target: &str,
    capacity: u64,
    larger: u64,
    seek: u64,
    domain: u64,
    r: Result<()>,
    other: Result<()>,
    unknown: Result<()>,
)
    requires
        seek + domain <= u64::MAX,
        capacity <= larger,
        call_ensures(safety::ensure_target_capacity, (target, Some(capacity), seek, domain), r),
        call_ensures(safety::ensure_target_capacity, (target, Some(larger), seek, domain), other),
        call_ensures(safety::ensure_target_capacity, (target, None::<u64>, seek, domain), unknown),
    ensures
        domain > 0 && seek + domain > capacity ==> r is Err && r->Err_0@ is Refused,
        seek + domain <= capacity ==> r is Ok,
        other is Err ==> r is Err,
        domain == 0 ==> r is Ok,
        unknown is Ok,
{
}

/// A mounted target is written only if the user allowed it, and both are noted; a mounted
/// source is no reason to refuse.
pub proof fn law_mounted_targets_are_refused(
    target: &str,
    target_mounted: bool,
    source_mounted: bool,
    allowed: bool,
    r: Result<MountNotes>,
)
    requires
        call_ensures(
            safety::check_mounted,
            (target, target_mounted, source_mounted, allowed),
            r,
        ),
    ensures
        target_mounted && !allowed ==> r is Err && r->Err_0@ is Refused,
        !target_mounted || allowed ==> r is Ok,
        r is Ok ==> (r->Ok_0.target <==> target_mounted) && (r->Ok_0.source <==> source_mounted),
{
}

/// A file is not copied onto itself, by whatever names it goes; two files that differ in
/// device or number are two files.
pub proof fn law_same_file_is_refused(
    source: &str,
    target: &str,
    a: FileFacts,
    b: FileFacts,
    r: Result<()>,
    missing: Result<()>,
)
    requires
        call_ensures(safety::ensure_not_same_file, (source, target, Some(a), Some(b)), r),
        call_ensures(
            safety::ensure_not_same_file,
            (source, target, Some(a), None::<FileFacts>),
            missing,
        ),
    ensures
        a.device == b.device && a.inode == b.inode ==> r is Err && r->Err_0@ is Refused,
        a.device != b.device || a.inode != b.inode ==> r is Ok,
        missing is Ok,
{
}


// ---------------------------------------------------------------------------
// What is handed on.

/// What a copy hands on at its end is what a checkpoint of it would have saved.
pub proof fn law_end_is_a_checkpoint(
    c: Copier,
    r: CopyParts,
    map: &RegionMap,
    hasher: &ChunkHasher,
    written: u64,
    wrote: bool,
    p: int,
)
    requires
        c.wf(),
        call_ensures(Copier::map, (&c,), map),
        call_ensures(Copier::hasher, (&c,), hasher),
        call_ensures(Copier::bytes_written, (&c,), written),
        call_ensures(Copier::wrote_this_run, (&c,), wrote),
        call_ensures(Copier::into_parts, (c,), r),
    ensures
        r.map.status_at(p) == map.status_at(p),
        r.map.status_at(p) == (c@.map)(p),
        r.hasher@ == hasher@,
        r.hasher@ == c@.hasher,
        r.bytes_written == written,
        r.bytes_written == c@.bytes_written,
        r.wrote_this_run == wrote,
        r.wrote_this_run == c@.wrote_this_run,
        r.bytes_written_this_run == c@.bytes_written_this_run,
        r.bytes_skipped_by_hash == c@.bytes_skipped_by_hash,
{
    assert(r.map.statuses()(p) == r.map.status_at(p));
    assert(map.statuses()(p) == map.status_at(p));
}

/// A verify pass is ok exactly if it is finished with nothing listed: an interrupted one is
/// not, whatever it has found.
pub proof fn law_what_a_pass_reports(v: Verifier, r: VerifyOutcome, ok: bool)
    requires
        call_ensures(Verifier::outcome, (&v,), r),
        call_ensures(VerifyOutcome::ok, (&r,), ok),
    ensures
        r.mismatches@ == v@.mismatches,
        r.chunks_checked == v@.chunks_checked,
        r.chunks_unhashed == v@.chunks_unhashed,
        r.bytes_verified == v@.bytes_verified,
        v@.action() == ReadAction::Stop(Outcome::Interrupted) ==> r.interrupted && !ok,
        v@.action() == ReadAction::Stop(Outcome::Finished) ==> !r.interrupted && (ok
            <==> v@.mismatches.len() == 0),
{
}

/// The label of a run goes with its exit code: `completed` unless something is missing, and
/// then whether that can be resumed or could not be read.
pub proof fn law_label_goes_with_the_exit_code(s: Summary, r: &str, code: u8)
    requires
        s.completed ==> !s.interrupted,
        call_ensures(report::status_label, (&s,), r),
        call_ensures(report::exit_code, (&s,), code),
    ensures
        code == 0 ==> r@ == "completed"@,
        code == 2 ==> r@ == "errors"@,
        code == 3 ==> r@ == "completed"@,
        s.interrupted ==> r@ == "interrupted"@ && code == 130,
{
}

/// A phase that has not begun has done nothing, however much was done before it.
pub proof fn law_count_starts_at_the_baseline(total: u64, baseline: u64, c: EventCounter, r: u64)
    requires
        call_ensures(EventCounter::new, (total, baseline), c),
        call_ensures(EventCounter::this_run, (&c,), r),
    ensures
        r == 0,
        c.done == baseline,
        c.total == total,
{
}

/// What a resume counts as processed and what is still untried are the domain.
pub proof fn law_processed_and_untried_are_the_domain(map: RegionMap, domain: u64, r: u64)
    requires
        map.wf(),
        forall|p: int| (#[trigger] map.status_at(p) is Some) == (0 <= p < domain),
        call_ensures(engine::processed_at_start, (&map, domain), r),
    ensures
        r + region::bytes_in(map@, RegionStatus::Untried) == domain,
        r == region::bytes_in(map@, RegionStatus::Done) + region::bytes_in(
            map@,
            RegionStatus::Bad,
        ),
{
    region::law_totals_add_up(map, domain as int);
}

// ---------------------------------------------------------------------------
// What a map answers.

/// A map answers the same question the same way: the span it finds it also covers, from
/// where it was asked there is none before, where it finds none there is none, and a status
/// without a byte has no span.
pub proof fn law_map_answers_agree(
    map: RegionMap,
    status: RegionStatus,
    from: u64,
    span: Option<(u64, u64)>,
    covered: bool,
    bytes: u64,
    end: u64,
    p: int,
)
    requires
        map.wf(),
        call_ensures(RegionMap::next_with, (&map, status, from), span),
        span is Some ==> call_ensures(
            RegionMap::covers,
            (&map, (span->0).0, (span->0).1, status),
            covered,
        ),
        call_ensures(RegionMap::bytes_with, (&map, status), bytes),
        call_ensures(RegionMap::covered_end, (&map,), end),
    ensures
        span is Some ==> covered && from <= (span->0).0 < (span->0).1 <= end && bytes > 0,
        span is Some && from <= p < (span->0).0 ==> map.status_at(p) != Some(status),
        span is None && from <= p ==> map.status_at(p) != Some(status),
        bytes == 0 ==> span is None && map.status_at(p) != Some(status),
        p >= end ==> map.status_at(p) is None,
{
    let f = map.statuses();
    region::lemma_is_span(f, status, from as int);
    assert forall|q: int| end <= q implies #[trigger] f(q) is None by {
        region::lemma_past_the_end(map@, q);
        assert(f(q) == map.status_at(q));
    }
    assert(f(p) == map.status_at(p));
    if span is None && from <= p && map.status_at(p) == Some(status) {
        region::lemma_next_span_exists(f, status, from as int, p, end as int);
    }
    if map.status_at(p) == Some(status) {
        region::lemma_some_bytes(map@, status, p);
    }
    if span is Some {
        let (a, b) = span->0;
        assert(f(a as int) == Some(status));
        assert(f(b - 1) == Some(status));
        assert(map.status_at(a as int) == Some(status));
        region::lemma_some_bytes(map@, status, a as int);
        assert forall|q: int| a <= q < b implies #[trigger] map.status_at(q) == Some(status) by {
            assert(f(q) == Some(status));
        }
    }
}

/// Of regions that are accepted, each ends within the range of offsets, and no byte lies in
/// two of them.
pub proof fn law_accepted_regions_do_not_overlap(
    regions: &[Region],
    r: bool,
    i: int,
    j: int,
    p: int,
)
    requires
        call_ensures(region::regions_are_disjoint, (regions,), r),
        0 <= i < j < regions@.len(),
    ensures
        r ==> !(regions@[i].has(p) && regions@[j].has(p)),
        regions@[i].has(p) && regions@[j].has(p) ==> !r,
        regions@[i].start + regions@[i].length > u64::MAX ==> !r,
{
}

} // verus!
