//! `--status`: render a state file for humans (or `--json`), without copying.
//!
//! The state file is readable TOML, but aggregating a region map and a hash
//! manifest in one's head is not fun. `--status` answers the actual questions:
//! how far is it, what is still missing, where are the bad spots, how much of
//! the manifest is filled.

use crate::cli::Cli;
use crate::engine;
use crate::hash;
use crate::region;
use crate::region::{Region, RegionStatus};
use crate::state;
use crate::state::{Hashes, StateFile, VerifyState, VerifyView};
use crate::text;
use crate::time;
use crate::time::Timestamp;
use vstd::prelude::*;

verus! {

/// How many bad regions the human rendering lists before summarising.
pub const BAD_REGION_LIMIT: usize = 20;

/// Everything `--status` reports about a state file.
#[derive(Debug)]
pub struct StatusReport {
    pub state: String,
    pub updated: Timestamp,
    pub source: String,
    pub target: String,
    pub sector_size: u64,
    pub transfer_size: u64,
    pub skip: u64,
    pub seek: u64,
    pub skip_unchanged: bool,
    pub skip_zeros: bool,
    /// Domain size in bytes (`0` = was unknown).
    pub bytes_total: u64,
    pub bytes_done: u64,
    pub bytes_untried: u64,
    pub bytes_written: u64,
    pub bad_bytes: u64,
    /// All bad regions, in domain coordinates.
    pub bad_regions: Vec<BadRegion>,
    /// Manifest coverage, when the state carries hashes.
    pub hashes: Option<HashStatus>,
    /// The recorded verify pass, if any.
    pub verify: Option<VerifyState>,
}

#[derive(Debug, Clone, Copy, PartialEq, Eq, Structural)]
pub struct BadRegion {
    pub start: u64,
    pub length: u64,
}

#[derive(Debug)]
pub struct HashStatus {
    pub algorithm: String,
    pub chunk_size: u64,
    pub chunks_total: u64,
    pub chunks_hashed: u64,
}

// ---------------------------------------------------------------------------
// The report.

/// `map` is the normal form of `regions`: it says the same of every byte.
pub open spec fn is_normal_form(map: Seq<Region>, regions: Seq<Region>) -> bool {
    &&& region::normal(map)
    &&& forall|p: int| #[trigger]
        region::status_in(map, p) == region::status_in(regions, p)
}

/// The extents of a list of regions.
pub open spec fn extents(rs: Seq<Region>) -> Seq<BadRegion> {
    rs.map_values(|r: Region| BadRegion { start: r.start, length: r.length })
}

/// How many of the chunks have a digest.
pub open spec fn hashed_count(chunks: Seq<Seq<char>>) -> nat
    decreases chunks.len(),
{
    if chunks.len() == 0 {
        0
    } else {
        hashed_count(chunks.drop_last()) + if chunks.last().len() > 0 {
            1nat
        } else {
            0
        }
    }
}

/// The coverage of a manifest over a domain.
pub open spec fn covers_manifest(h: HashStatus, manifest: Hashes, bytes_total: u64) -> bool {
    &&& h.algorithm@ == manifest.algorithm@
    &&& h.chunk_size == manifest.chunk_size
    &&& h.chunks_total == if bytes_total > 0 {
        hash::ceil_div(bytes_total as int, manifest.chunk_size as int)
    } else {
        manifest.chunks@.len() as int
    }
    &&& h.chunks_hashed == hashed_count(hash::texts(manifest.chunks@))
}

fn count_hashed(chunks: &Vec<String>) -> (r: u64)
    ensures
        r == hashed_count(hash::texts(chunks@)),
{
    let ghost all = hash::texts(chunks@);
    let mut n: u64 = 0;
    for i in 0..chunks.len()
        invariant
            all == hash::texts(chunks@),
            n == hashed_count(all.take(i as int)),
            n <= i,
    {
        proof {
            assert(all.take(i + 1).drop_last() =~= all.take(i as int));
            assert(all.take(i + 1).last() == chunks@[i as int]@);
        }
        if chunks[i].as_str().unicode_len() > 0 {
            n = n + 1;
        }
    }
    proof {
        assert(all.take(all.len() as int) =~= all);
    }
    n
}

/// What is reported of a state file.
pub open spec fn reports(r: StatusReport, path: Seq<char>, s: StateFile, map: Seq<Region>) -> bool {
    &&& r.state@ == path
    &&& r.updated == s.meta.updated
    &&& r.source@ == s.params.source@
    &&& r.target@ == s.params.target@
    &&& r.sector_size == s.params.sector_size
    &&& r.transfer_size == s.params.transfer_size
    &&& r.skip == s.params.skip
    &&& r.seek == s.params.seek
    &&& r.skip_unchanged == s.params.skip_unchanged
    &&& r.skip_zeros == s.params.skip_zeros
    &&& r.bytes_total == s.progress.bytes_total
    &&& r.bytes_done == region::bytes_in(map, RegionStatus::Done)
    &&& r.bytes_untried == region::bytes_in(map, RegionStatus::Untried)
    &&& r.bytes_written == s.progress.bytes_written
    &&& r.bad_bytes == region::bytes_in(map, RegionStatus::Bad)
    &&& r.bad_regions@ == extents(region::with_status(map, RegionStatus::Bad))
    &&& r.hashes is Some <==> s.hashes is Some
    &&& r.hashes matches Some(h) ==> covers_manifest(h, s.hashes->0, s.progress.bytes_total)
    &&& state::verify_view(r.verify) == state::verify_view(s.verify)
}

/// Summarise the state loaded from `path`.
pub fn report(path: String, s: &StateFile) -> (r: StatusReport)
    requires
        region::disjoint(s.regions@),
        s.hashes matches Some(h) ==> h.chunk_size > 0 || s.progress.bytes_total == 0,
    ensures
        exists|map: Seq<Region>|
            is_normal_form(map, s.regions@) && #[trigger] reports(r, path@, *s, map),
{
    let map = s.region_map();
    let bad = map.regions_with(RegionStatus::Bad);
    let mut bad_regions: Vec<BadRegion> = Vec::new();
    for i in 0..bad.len()
        invariant
            bad_regions@ =~= extents(bad@).take(i as int),
    {
        bad_regions.push(BadRegion { start: bad[i].start, length: bad[i].length });
    }
    let hashes = match &s.hashes {
        Some(h) => Some(
            HashStatus {
                algorithm: h.algorithm.clone(),
                chunk_size: h.chunk_size,
                chunks_total: if s.progress.bytes_total > 0 {
                    hash::chunk_count(s.progress.bytes_total, h.chunk_size)
                } else {
                    h.chunks.len() as u64
                },
                chunks_hashed: count_hashed(&h.chunks),
            },
        ),
        None => None,
    };
    let r = StatusReport {
        state: path,
        updated: s.meta.updated,
        source: s.params.source.clone(),
        target: s.params.target.clone(),
        sector_size: s.params.sector_size,
        transfer_size: s.params.transfer_size,
        skip: s.params.skip,
        seek: s.params.seek,
        skip_unchanged: s.params.skip_unchanged,
        skip_zeros: s.params.skip_zeros,
        bytes_total: s.progress.bytes_total,
        bytes_done: map.bytes_with(RegionStatus::Done),
        bytes_untried: map.bytes_with(RegionStatus::Untried),
        bytes_written: s.progress.bytes_written,
        bad_bytes: map.bytes_with(RegionStatus::Bad),
        bad_regions,
        hashes,
        verify: state::verify_carry(&s.verify, false),
    };
    proof {
        assert(bad_regions@ =~= extents(bad@));
        assert forall|p: int| #[trigger] region::status_in(map@, p) == region::status_in(
            s.regions@,
            p,
        ) by {
            assert(map.status_at(p) == region::status_in(map@, p));
        }
        assert(is_normal_form(map@, s.regions@));
        assert(reports(r, path@, *s, map@));
    }
    r
}

/// Where to look for the state: an explicit `STATE` wins; otherwise, if no
/// target is named and `SOURCE` itself is a loadable state file, show that (the
/// natural `exhume --status run.state`); otherwise derive it from `TARGET`
/// exactly like a copy run would.
pub open spec fn state_path_for(cli: Cli, source_is_state: bool, target_is_device: bool) -> Seq<
    char,
> {
    match cli.state {
        Some(state) => state@,
        None => if cli.target is None && source_is_state {
            cli.source@
        } else {
            engine::state_path_text(engine::target_text(cli), target_is_device)
        },
    }
}

pub fn resolve_state_path(cli: &Cli, source_is_state: bool, target_is_device: bool) -> (r: String)
    ensures
        r@ == state_path_for(*cli, source_is_state, target_is_device),
{
    match &cli.state {
        Some(state) => {
            return state.clone();
        },
        None => {},
    }
    if cli.target.is_none() && source_is_state {
        return cli.source.clone();
    }
    let target = engine::target_of(cli);
    engine::default_state_path(target.as_str(), target_is_device)
}

// ---------------------------------------------------------------------------
// The human rendering.

/// `, skip 1.00 MiB` when nonzero, empty otherwise.
pub open spec fn offset_text(label: Seq<char>, value: u64) -> Seq<char> {
    if value > 0 {
        ", "@ + label + " "@ + text::human_bytes(value)
    } else {
        Seq::empty()
    }
}

fn offset_phrase(label: &str, value: u64) -> (r: String)
    ensures
        r@ == offset_text(label@, value),
{
    if value > 0 {
        let mut out = ", ".to_owned();
        out.append(label);
        out.append(" ");
        out.append(text::human_bytes_text(value).as_str());
        out
    } else {
        String::new()
    }
}

/// `, skip-unchanged` when set, empty otherwise.
pub open spec fn flag_text(label: Seq<char>, value: bool) -> Seq<char> {
    if value {
        ", "@ + label
    } else {
        Seq::empty()
    }
}

fn flag_phrase(label: &str, value: bool) -> (r: String)
    ensures
        r@ == flag_text(label@, value),
{
    if value {
        let mut out = ", ".to_owned();
        out.append(label);
        out
    } else {
        String::new()
    }
}

pub open spec fn state_line(r: StatusReport) -> Seq<char> {
    "State:    "@ + r.state@ + " (updated "@ + time::utc_text(r.updated.secs(), r.updated.nanos())
        + ")\n"@
}

pub open spec fn copy_line(r: StatusReport) -> Seq<char> {
    "Copy:     "@ + r.source@ + " -> "@ + r.target@ + "\n"@
}

pub open spec fn grid_line(r: StatusReport) -> Seq<char> {
    "Grid:     "@ + text::human_bytes(r.sector_size) + " sectors, "@ + text::human_bytes(
        r.transfer_size,
    ) + " transfer"@ + offset_text("skip"@, r.skip) + offset_text("seek"@, r.seek) + flag_text(
        "skip-unchanged"@,
        r.skip_unchanged,
    ) + flag_text("skip-zeros"@, r.skip_zeros) + "\n"@
}

/// `of 16.00 KiB ` when the domain is known, empty otherwise.
pub open spec fn total_text(total: u64) -> Seq<char> {
    if total > 0 {
        "of "@ + text::human_bytes(total) + " "@
    } else {
        Seq::empty()
    }
}

/// ` (50.0%)` when the domain is known, empty otherwise.
pub open spec fn percent_text(total: u64, percent: Seq<char>) -> Seq<char> {
    if total > 0 {
        " ("@ + percent + "%)"@
    } else {
        Seq::empty()
    }
}

pub open spec fn progress_line(r: StatusReport, percent: Seq<char>) -> Seq<char> {
    "Progress: "@ + text::human_bytes(r.bytes_done) + " "@ + total_text(r.bytes_total) + "done"@
        + percent_text(r.bytes_total, percent) + ", "@ + text::human_bytes(r.bytes_untried)
        + " untried, "@ + text::human_bytes(r.bad_bytes) + " bad\n"@
}

pub open spec fn written_line(r: StatusReport) -> Seq<char> {
    "Written:  "@ + text::human_bytes(r.bytes_written) + "\n"@
}

pub open spec fn hashes_line(hashes: Option<HashStatus>) -> Seq<char> {
    match hashes {
        Some(h) => "Hashes:   "@ + h.algorithm@ + " over "@ + text::human_bytes(h.chunk_size)
            + " chunks - "@ + text::decimal(h.chunks_hashed as nat) + " of "@ + text::decimal(
            h.chunks_total as nat,
        ) + " hashed\n"@,
        None => Seq::empty(),
    }
}

/// ` (last verified ...)` when the pass is finished, empty otherwise.
pub open spec fn verified_text(finished: Option<Timestamp>) -> Seq<char> {
    match finished {
        Some(t) => " (last verified "@ + time::utc_text(t.secs(), t.nanos()) + ")"@,
        None => Seq::empty(),
    }
}

/// The recorded verify pass: where an unfinished one stopped, or what a finished
/// one found and when.
pub open spec fn verify_line(verify: Option<VerifyView>) -> Seq<char> {
    match verify {
        Some(v) => match v.cursor {
            Some(cursor) => "Verify:   interrupted at chunk "@ + text::decimal(cursor as nat)
                + "\n"@,
            None => if v.ok == Some(true) {
                "Verify:   ok"@ + verified_text(v.finished) + "\n"@
            } else {
                "Verify:   FAILED - "@ + text::decimal(v.mismatches.len())
                    + " chunk(s) differ from the manifest"@ + verified_text(v.finished) + "\n"@
            },
        },
        None => Seq::empty(),
    }
}

pub open spec fn bad_line(region: BadRegion) -> Seq<char> {
    "  offset "@ + text::padded(text::decimal(region.start as nat), 14, ' ') + "  "@
        + text::human_bytes(region.length) + "\n"@
}

pub open spec fn bad_lines(list: Seq<BadRegion>) -> Seq<char>
    decreases list.len(),
{
    if list.len() == 0 {
        Seq::empty()
    } else {
        bad_lines(list.drop_last()) + bad_line(list.last())
    }
}

/// The bad regions, capped.
pub open spec fn bad_block(list: Seq<BadRegion>) -> Seq<char> {
    if list.len() == 0 {
        Seq::empty()
    } else {
        let head = "Bad regions ("@ + text::decimal(list.len()) + "):\n"@;
        if list.len() > BAD_REGION_LIMIT {
            head + bad_lines(list.take(BAD_REGION_LIMIT as int)) + ("  ... and "@ + text::decimal(
                (list.len() - BAD_REGION_LIMIT) as nat,
            ) + " more\n"@)
        } else {
            head + bad_lines(list)
        }
    }
}

/// The human rendering of a report: one aligned block, bad regions capped.
/// `percent` is the share of the domain that is done.
pub open spec fn report_text(r: StatusReport, percent: Seq<char>) -> Seq<char> {
    state_line(r) + copy_line(r) + grid_line(r) + progress_line(r, percent) + written_line(r)
        + hashes_line(r.hashes) + verify_line(state::verify_view(r.verify)) + bad_block(
        r.bad_regions@,
    )
}

fn render_head(r: &StatusReport) -> (out: String)
    ensures
        out@ == state_line(*r) + copy_line(*r) + grid_line(*r),
{
    let mut state = "State:    ".to_owned();
    state.append(r.state.as_str());
    state.append(" (updated ");
    state.append(r.updated.utc().as_str());
    state.append(")\n");
    let mut copy = "Copy:     ".to_owned();
    copy.append(r.source.as_str());
    copy.append(" -> ");
    copy.append(r.target.as_str());
    copy.append("\n");
    let mut grid = "Grid:     ".to_owned();
    grid.append(text::human_bytes_text(r.sector_size).as_str());
    grid.append(" sectors, ");
    grid.append(text::human_bytes_text(r.transfer_size).as_str());
    grid.append(" transfer");
    grid.append(offset_phrase("skip", r.skip).as_str());
    grid.append(offset_phrase("seek", r.seek).as_str());
    grid.append(flag_phrase("skip-unchanged", r.skip_unchanged).as_str());
    grid.append(flag_phrase("skip-zeros", r.skip_zeros).as_str());
    grid.append("\n");
    let mut out = state;
    out.append(copy.as_str());
    out.append(grid.as_str());
    out
}

fn render_progress(r: &StatusReport, percent: &str) -> (out: String)
    ensures
        out@ == progress_line(*r, percent@),
{
    let mut total = String::new();
    let mut share = String::new();
    if r.bytes_total > 0 {
        total = "of ".to_owned();
        total.append(text::human_bytes_text(r.bytes_total).as_str());
        total.append(" ");
        share = " (".to_owned();
        share.append(percent);
        share.append("%)");
    }
    let mut out = "Progress: ".to_owned();
    out.append(text::human_bytes_text(r.bytes_done).as_str());
    out.append(" ");
    out.append(total.as_str());
    out.append("done");
    out.append(share.as_str());
    out.append(", ");
    out.append(text::human_bytes_text(r.bytes_untried).as_str());
    out.append(" untried, ");
    out.append(text::human_bytes_text(r.bad_bytes).as_str());
    out.append(" bad\n");
    out
}

fn render_hashes(hashes: &Option<HashStatus>) -> (out: String)
    ensures
        out@ == hashes_line(*hashes),
{
    match hashes {
        Some(h) => {
            let mut out = "Hashes:   ".to_owned();
            out.append(h.algorithm.as_str());
            out.append(" over ");
            out.append(text::human_bytes_text(h.chunk_size).as_str());
            out.append(" chunks - ");
            out.append(text::decimal_text(h.chunks_hashed).as_str());
            out.append(" of ");
            out.append(text::decimal_text(h.chunks_total).as_str());
            out.append(" hashed\n");
            out
        },
        None => String::new(),
    }
}

fn render_verified(finished: Option<Timestamp>) -> (out: String)
    ensures
        out@ == verified_text(finished),
{
    match finished {
        Some(t) => {
            let mut out = " (last verified ".to_owned();
            out.append(t.utc().as_str());
            out.append(")");
            out
        },
        None => String::new(),
    }
}

fn render_verify(verify: &Option<VerifyState>) -> (out: String)
    ensures
        out@ == verify_line(state::verify_view(*verify)),
{
    match verify {
        Some(v) => {
            if let Some(cursor) = v.cursor {
                let mut out = "Verify:   interrupted at chunk ".to_owned();
                out.append(text::decimal_text(cursor).as_str());
                out.append("\n");
                return out;
            }
            let ok = match v.ok {
                Some(ok) => ok,
                None => false,
            };
            if ok {
                let mut out = "Verify:   ok".to_owned();
                out.append(render_verified(v.finished).as_str());
                out.append("\n");
                out
            } else {
                let mut out = "Verify:   FAILED - ".to_owned();
                out.append(text::decimal_text(v.mismatches.len() as u64).as_str());
                out.append(" chunk(s) differ from the manifest");
                out.append(render_verified(v.finished).as_str());
                out.append("\n");
                out
            }
        },
        None => String::new(),
    }
}

fn render_bad(list: &Vec<BadRegion>) -> (out: String)
    ensures
        out@ == bad_block(list@),
{
    let n = list.len();
    if n == 0 {
        return String::new();
    }
    let shown: usize = if n > BAD_REGION_LIMIT { BAD_REGION_LIMIT } else { n };
    let mut out = "Bad regions (".to_owned();
    out.append(text::decimal_text(n as u64).as_str());
    out.append("):\n");
    let ghost head = out@;
    proof {
        assert(head + bad_lines(list@.take(0)) =~= head);
    }
    for i in 0..shown
        invariant
            shown <= list@.len(),
            out@ == head + bad_lines(list@.take(i as int)),
    {
        proof {
            assert(list@.take(i + 1).drop_last() =~= list@.take(i as int));
        }
        let mut line = "  offset ".to_owned();
        line.append(text::pad(text::decimal_text(list[i].start), 14, ' ').as_str());
        line.append("  ");
        line.append(text::human_bytes_text(list[i].length).as_str());
        line.append("\n");
        out.append(line.as_str());
        proof {
            assert(out@ =~= head + bad_lines(list@.take(i + 1)));
        }
    }
    if n > BAD_REGION_LIMIT {
        let mut more = "  ... and ".to_owned();
        more.append(text::decimal_text((n - BAD_REGION_LIMIT) as u64).as_str());
        more.append(" more\n");
        out.append(more.as_str());
    } else {
        proof {
            assert(list@.take(n as int) =~= list@);
        }
    }
    out
}

/// The human rendering of a report. `percent` is the share of the domain that is
/// done, as a number with one decimal.
pub fn render(r: &StatusReport, percent: &str) -> (out: String)
    ensures
        out@ == report_text(*r, percent@),
{
    let mut written = "Written:  ".to_owned();
    written.append(text::human_bytes_text(r.bytes_written).as_str());
    written.append("\n");
    let mut out = render_head(r);
    out.append(render_progress(r, percent).as_str());
    out.append(written.as_str());
    out.append(render_hashes(&r.hashes).as_str());
    out.append(render_verify(&r.verify).as_str());
    out.append(render_bad(&r.bad_regions).as_str());
    out
}

// ---------------------------------------------------------------------------
// Laws.

/// Digests are counted one by one.
pub proof fn law_hashed_count(a: Seq<Seq<char>>, b: Seq<Seq<char>>, digest: Seq<char>)
    ensures
        hashed_count(a + b) == hashed_count(a) + hashed_count(b),
        hashed_count(seq![digest]) == if digest.len() > 0 {
            1nat
        } else {
            0
        },
        hashed_count(a) <= a.len(),
    decreases a.len() + b.len(),
{
    if b.len() > 0 {
        law_hashed_count(a, b.drop_last(), digest);
        assert((a + b).drop_last() =~= a + b.drop_last());
        assert((a + b).last() == b.last());
    } else {
        assert(a + b =~= a);
        if a.len() > 0 {
            law_hashed_count(a.drop_last(), b, digest);
            assert(a.drop_last() + b =~= a.drop_last());
        }
    }
    let one = seq![digest];
    assert(one.drop_last() =~= Seq::<Seq<char>>::empty());
    assert(hashed_count(one.drop_last()) == 0);
    assert(one.last() == digest);
}

/// What is reported of the bytes is counted: done, untried and bad bytes are as many as the
/// recorded regions have, and the listed regions hold exactly the bad ones.
#[verifier::rlimit(40)]
pub proof fn law_report_counts_bytes(
    r: StatusReport,
    path: Seq<char>,
    s: StateFile,
    map: Seq<Region>,
    n: int,
    p: int,
)
    requires
        reports(r, path, s, map),
        is_normal_form(map, s.regions@),
        region::end_of(map) <= n,
    ensures
        r.bytes_done == region::count(region::holds(s.regions@, RegionStatus::Done), n),
        r.bytes_untried == region::count(region::holds(s.regions@, RegionStatus::Untried), n),
        r.bad_bytes == region::count(region::holds(s.regions@, RegionStatus::Bad), n),
        region::status_in(s.regions@, p) == Some(RegionStatus::Bad) <==> exists|i: int|
            0 <= i < r.bad_regions@.len() && (#[trigger] r.bad_regions@[i]).start <= p
                < r.bad_regions@[i].start + r.bad_regions@[i].length,
{
    lemma_total_of(map, s.regions@, RegionStatus::Done, n);
    lemma_total_of(map, s.regions@, RegionStatus::Untried, n);
    lemma_total_of(map, s.regions@, RegionStatus::Bad, n);
    let pred = |r: Region| r.status == RegionStatus::Bad;
    let listed = region::with_status(map, RegionStatus::Bad);
    assert(region::status_in(map, p) == region::status_in(s.regions@, p));
    assert(region::ordered(map));
    if region::status_in(map, p) == Some(RegionStatus::Bad) {
        let k = region::lemma_region_of(map, p);
        region::lemma_status_of(map, k, p);
        assert(pred(map[k]));
        map.lemma_filter_contains(pred, k);
        let i = choose|i: int| 0 <= i < listed.len() && listed[i] == map[k];
        assert(r.bad_regions@[i].start <= p < r.bad_regions@[i].start + r.bad_regions@[i].length);
    }
    if exists|i: int|
        0 <= i < r.bad_regions@.len() && (#[trigger] r.bad_regions@[i]).start <= p
            < r.bad_regions@[i].start + r.bad_regions@[i].length {
        let i = choose|i: int|
            0 <= i < r.bad_regions@.len() && (#[trigger] r.bad_regions@[i]).start <= p
                < r.bad_regions@[i].start + r.bad_regions@[i].length;
        assert(listed.contains(listed[i]));
        map.lemma_filter_contains_rev(pred, listed[i]);
        map.lemma_filter_pred(pred, i);
        let k = choose|k: int| 0 <= k < map.len() && map[k] == listed[i];
        assert(map[k].has(p));
        region::lemma_status_of(map, k, p);
    }
}

proof fn lemma_total_of(map: Seq<Region>, regions: Seq<Region>, status: RegionStatus, n: int)
    requires
        is_normal_form(map, regions),
        region::end_of(map) <= n,
    ensures
        region::bytes_in(map, status) == region::count(region::holds(regions, status), n),
{
    region::law_totals_count_bytes(map, status, n);
    let f = region::holds(map, status);
    let g = region::holds(regions, status);
    assert forall|p: int| 0 <= p < n implies #[trigger] f(p) == g(p) by {
        assert(region::status_in(map, p) == region::status_in(regions, p));
    }
    region::lemma_count_same(f, g, n);
}

/// The state is looked for where a copy would keep it: where the command line says, else
/// beside the target. A state file given as the source is taken for what it is, unless a
/// target is named too.
pub proof fn law_where_status_looks(cli: Cli, source_is_state: bool, target_is_device: bool)
    ensures
        ({
            let found = state_path_for(cli, source_is_state, target_is_device);
            &&& cli.state matches Some(state) ==> found == state@
            &&& cli.state is None && cli.target is Some ==> found == engine::state_path_text(
                (cli.target->0)@,
                target_is_device,
            )
            &&& cli.state is None && cli.target is None && source_is_state ==> found
                == cli.source@
            &&& cli.state is None && cli.target is None && !source_is_state ==> found
                == engine::state_path_text(engine::target_text(cli), target_is_device)
        }),
{
}

/// What is told of an offset: nothing of none.
pub open spec fn offset_parts(label: Seq<char>, value: u64) -> Seq<Seq<char>> {
    if value > 0 {
        seq![label, text::human_bytes(value)]
    } else {
        Seq::empty()
    }
}

/// What is told of a flag.
pub open spec fn flag_parts(label: Seq<char>, value: bool) -> Seq<Seq<char>> {
    if value {
        seq![label]
    } else {
        Seq::empty()
    }
}

proof fn lemma_nothing_told(s: Seq<char>)
    ensures
        text::tells(s, Seq::<Seq<char>>::empty()),
{
}

proof fn lemma_offset_told(label: Seq<char>, value: u64)
    ensures
        text::tells(offset_text(label, value), offset_parts(label, value)),
{
    if value > 0 {
        let none = Seq::<char>::empty();
        let nothing = Seq::<Seq<char>>::empty();
        let v = text::human_bytes(value);
        text::lemma_told(", "@, nothing, none, label, none);
        assert(", "@ + none =~= ", "@);
        text::lemma_told(", "@ + label, nothing.push(label), " "@, v, none);
        assert(nothing.push(label).push(v) =~= seq![label, v]);
    }
}

proof fn lemma_flag_told(label: Seq<char>, value: bool)
    ensures
        text::tells(flag_text(label, value), flag_parts(label, value)),
{
    if value {
        let none = Seq::<char>::empty();
        let nothing = Seq::<Seq<char>>::empty();
        text::lemma_told(", "@, nothing, none, label, none);
        assert(", "@ + none =~= ", "@);
        assert(nothing.push(label) =~= seq![label]);
    }
}

/// The status tells where the state is and of when, what is copied where, and on which grid;
/// offsets and flags only where they are set.
#[verifier::rlimit(40)]
pub proof fn law_status_tells_the_copy(r: StatusReport)
    ensures
        text::tells(
            state_line(r),
            seq![r.state@, time::utc_text(r.updated.secs(), r.updated.nanos())],
        ),
        text::tells(copy_line(r), seq![r.source@, " -> "@, r.target@]),
        text::tells(
            grid_line(r),
            seq![text::human_bytes(r.sector_size), text::human_bytes(r.transfer_size)]
                + offset_parts("skip"@, r.skip) + offset_parts("seek"@, r.seek) + flag_parts(
                "skip-unchanged"@,
                r.skip_unchanged,
            ) + flag_parts("skip-zeros"@, r.skip_zeros),
        ),
        offset_text("skip"@, 0).len() == 0,
        flag_text("skip-zeros"@, false).len() == 0,
{
    let none = Seq::<char>::empty();
    let nothing = Seq::<Seq<char>>::empty();
    let when = time::utc_text(r.updated.secs(), r.updated.nanos());
    lemma_nothing_told(none);
    let a = "State:    "@;
    text::lemma_told(none, nothing, a, r.state@, none);
    assert(none + a =~= a);
    text::lemma_told(a + r.state@, nothing.push(r.state@), " (updated "@, when, ")\n"@);
    assert(nothing.push(r.state@).push(when) =~= seq![r.state@, when]);
    let b = "Copy:     "@;
    let arrow = " -> "@;
    text::lemma_told(none, nothing, b, r.source@, none);
    assert(none + b =~= b);
    let p1 = nothing.push(r.source@);
    let t1 = b + r.source@;
    text::lemma_told(t1, p1, none, arrow, none);
    assert(t1 + none =~= t1);
    text::lemma_told(t1 + arrow, p1.push(arrow), none, r.target@, "\n"@);
    assert(t1 + arrow + none =~= t1 + arrow);
    assert(p1.push(arrow).push(r.target@) =~= seq![r.source@, arrow, r.target@]);
    lemma_grid_told(r);
}

#[verifier::rlimit(40)]
proof fn lemma_grid_told(r: StatusReport)
    ensures
        text::tells(
            grid_line(r),
            seq![text::human_bytes(r.sector_size), text::human_bytes(r.transfer_size)]
                + offset_parts("skip"@, r.skip) + offset_parts("seek"@, r.seek) + flag_parts(
                "skip-unchanged"@,
                r.skip_unchanged,
            ) + flag_parts("skip-zeros"@, r.skip_zeros),
        ),
{
    let none = Seq::<char>::empty();
    let nothing = Seq::<Seq<char>>::empty();
    let sector = text::human_bytes(r.sector_size);
    let transfer = text::human_bytes(r.transfer_size);
    let a = "Grid:     "@;
    lemma_nothing_told(none);
    text::lemma_told(none, nothing, a, sector, none);
    assert(none + a =~= a);
    text::lemma_told(a + sector, nothing.push(sector), " sectors, "@, transfer, " transfer"@);
    let p0 = seq![sector, transfer];
    assert(nothing.push(sector).push(transfer) =~= p0);
    let t0 = a + sector + " sectors, "@ + transfer + " transfer"@;
    lemma_offset_told("skip"@, r.skip);
    lemma_offset_told("seek"@, r.seek);
    lemma_flag_told("skip-unchanged"@, r.skip_unchanged);
    lemma_flag_told("skip-zeros"@, r.skip_zeros);
    let x1 = offset_text("skip"@, r.skip);
    let q1 = offset_parts("skip"@, r.skip);
    text::lemma_tells_both(t0, p0, x1, q1);
    let x2 = offset_text("seek"@, r.seek);
    let q2 = offset_parts("seek"@, r.seek);
    text::lemma_tells_both(t0 + x1, p0 + q1, x2, q2);
    let x3 = flag_text("skip-unchanged"@, r.skip_unchanged);
    let q3 = flag_parts("skip-unchanged"@, r.skip_unchanged);
    text::lemma_tells_both(t0 + x1 + x2, p0 + q1 + q2, x3, q3);
    let x4 = flag_text("skip-zeros"@, r.skip_zeros);
    let q4 = flag_parts("skip-zeros"@, r.skip_zeros);
    text::lemma_tells_both(t0 + x1 + x2 + x3, p0 + q1 + q2 + q3, x4, q4);
    let all = p0 + q1 + q2 + q3 + q4;
    lemma_nothing_told("\n"@);
    text::lemma_tells_both(t0 + x1 + x2 + x3 + x4, all, "\n"@, nothing);
    assert(all + nothing =~= all);
}

/// And how far it is: what is done, of how much and what share that is, where the domain is
/// known; then what is untried, and what is bad.
#[verifier::rlimit(40)]
pub proof fn law_status_tells_the_progress(r: StatusReport, percent: Seq<char>)
    ensures
        text::begins(progress_line(r, percent), "Progress: "@),
        text::tells(
            progress_line(r, percent),
            (if r.bytes_total > 0 {
                seq![text::human_bytes(r.bytes_done), text::human_bytes(r.bytes_total), percent]
            } else {
                seq![text::human_bytes(r.bytes_done)]
            }).push(text::human_bytes(r.bytes_untried)).push(text::human_bytes(r.bad_bytes)),
        ),
        text::begins(written_line(r), "Written:  "@),
        text::tells(written_line(r), seq![text::human_bytes(r.bytes_written)]),
{
    let none = Seq::<char>::empty();
    let nothing = Seq::<Seq<char>>::empty();
    let done = text::human_bytes(r.bytes_done);
    let total = text::human_bytes(r.bytes_total);
    let a = "Progress: "@;
    lemma_nothing_told(none);
    text::lemma_told(none, nothing, a, done, " "@);
    assert(none + a =~= a);
    let p1 = nothing.push(done);
    let t1 = a + done + " "@;
    let t2 = t1 + total_text(r.bytes_total) + "done"@ + percent_text(r.bytes_total, percent);
    let p2 = if r.bytes_total > 0 {
        seq![done, total, percent]
    } else {
        seq![done]
    };
    assert(text::tells(t2, p2)) by {
        if r.bytes_total > 0 {
            text::lemma_told(t1, p1, "of "@, total, " "@);
            let u = t1 + "of "@ + total + " "@;
            text::lemma_told(u, p1.push(total), "done"@ + " ("@, percent, "%)"@);
            assert(p1.push(total).push(percent) =~= p2);
            assert(u + ("done"@ + " ("@) + percent + "%)"@ =~= t2);
        } else {
            text::lemma_told(t1, p1, "done"@, none, none);
            assert(p1 =~= p2);
            assert(t1 + "done"@ =~= t2);
        }
    }
    let untried = text::human_bytes(r.bytes_untried);
    let bad = text::human_bytes(r.bad_bytes);
    text::lemma_told(t2, p2, ", "@, untried, none);
    text::lemma_told(t2 + ", "@ + untried, p2.push(untried), " untried, "@, bad, " bad\n"@);
    assert(progress_line(r, percent).take(a.len() as int) =~= a);
    let w = "Written:  "@;
    let wrote = text::human_bytes(r.bytes_written);
    text::lemma_told(none, nothing, w, wrote, "\n"@);
    assert(none + w =~= w);
    assert(nothing.push(wrote) =~= seq![wrote]);
    assert(written_line(r).take(w.len() as int) =~= w);
}

/// And of the manifest how much of it is filled, and of the last verify pass where it
/// stopped, or how it ended.
#[verifier::rlimit(40)]
pub proof fn law_status_tells_the_checks(hashes: Option<HashStatus>, verify: Option<VerifyView>)
    ensures
        hashes is None ==> hashes_line(hashes).len() == 0,
        hashes matches Some(h) ==> text::begins(hashes_line(hashes), "Hashes:   "@) && text::tells(
            hashes_line(hashes),
            seq![
                h.algorithm@,
                text::human_bytes(h.chunk_size),
                text::decimal(h.chunks_hashed as nat),
                text::decimal(h.chunks_total as nat),
            ],
        ),
        verify is None ==> verify_line(verify).len() == 0,
        verify matches Some(v) ==> {
            let t = verify_line(verify);
            let ended = match v.finished {
                Some(time) => seq![time::utc_text(time.secs(), time.nanos())],
                None => Seq::empty(),
            };
            &&& v.cursor matches Some(cursor) ==> text::begins(
                t,
                "Verify:   interrupted at chunk "@,
            ) && text::tells(t, seq![text::decimal(cursor as nat)])
            &&& v.cursor is None && v.ok == Some(true) ==> text::begins(t, "Verify:   ok"@)
                && text::tells(t, ended)
            &&& v.cursor is None && v.ok != Some(true) ==> text::begins(t, "Verify:   FAILED - "@)
                && text::tells(t, seq![text::decimal(v.mismatches.len())] + ended)
        },
{
    let none = Seq::<char>::empty();
    let nothing = Seq::<Seq<char>>::empty();
    lemma_nothing_told(none);
    if let Some(h) = hashes {
        let a = "Hashes:   "@;
        let size = text::human_bytes(h.chunk_size);
        let some = text::decimal(h.chunks_hashed as nat);
        let all = text::decimal(h.chunks_total as nat);
        text::lemma_told(none, nothing, a, h.algorithm@, none);
        assert(none + a =~= a);
        let p1 = nothing.push(h.algorithm@);
        let t1 = a + h.algorithm@;
        text::lemma_told(t1, p1, " over "@, size, none);
        let p2 = p1.push(size);
        let t2 = t1 + " over "@ + size;
        text::lemma_told(t2, p2, " chunks - "@, some, none);
        let p3 = p2.push(some);
        let t3 = t2 + " chunks - "@ + some;
        text::lemma_told(t3, p3, " of "@, all, " hashed\n"@);
        assert(p3.push(all) =~= seq![h.algorithm@, size, some, all]);
        assert(hashes_line(hashes).take(a.len() as int) =~= a);
    }
    if let Some(v) = verify {
        let t = verify_line(verify);
        let tail = verified_text(v.finished);
        let ended = match v.finished {
            Some(time) => seq![time::utc_text(time.secs(), time.nanos())],
            None => Seq::empty(),
        };
        assert(text::tells(tail, ended)) by {
            if let Some(time) = v.finished {
                let when = time::utc_text(time.secs(), time.nanos());
                text::lemma_told(none, nothing, " (last verified "@, when, ")"@);
                assert(none + " (last verified "@ =~= " (last verified "@);
                assert(nothing.push(when) =~= ended);
            }
        }
        if let Some(cursor) = v.cursor {
            let a = "Verify:   interrupted at chunk "@;
            let at = text::decimal(cursor as nat);
            text::lemma_told(none, nothing, a, at, "\n"@);
            assert(none + a =~= a);
            assert(nothing.push(at) =~= seq![at]);
            assert(t.take(a.len() as int) =~= a);
        } else if v.ok == Some(true) {
            let a = "Verify:   ok"@;
            lemma_nothing_told(a);
            text::lemma_tells_both(a, nothing, tail, ended);
            assert(nothing + ended =~= ended);
            text::lemma_told(a + tail, ended, "\n"@, none, none);
            assert(t.take(a.len() as int) =~= a);
        } else {
            let a = "Verify:   FAILED - "@;
            let n = text::decimal(v.mismatches.len());
            let more = " chunk(s) differ from the manifest"@;
            text::lemma_told(none, nothing, a, n, more);
            assert(none + a =~= a);
            assert(nothing.push(n) =~= seq![n]);
            text::lemma_tells_both(a + n + more, seq![n], tail, ended);
            text::lemma_told(a + n + more + tail, seq![n] + ended, "\n"@, none, none);
            assert(t.take(a.len() as int) =~= a);
        }
    }
}

/// What is told of bad regions: where each begins, and how long it is.
pub open spec fn bad_parts(list: Seq<BadRegion>) -> Seq<Seq<char>>
    decreases list.len(),
{
    if list.len() == 0 {
        Seq::empty()
    } else {
        bad_parts(list.drop_last()).push(text::decimal(list.last().start as nat)).push(
            text::human_bytes(list.last().length),
        )
    }
}

proof fn lemma_bad_lines_told(list: Seq<BadRegion>)
    ensures
        text::tells(bad_lines(list), bad_parts(list)),
    decreases list.len(),
{
    if list.len() > 0 {
        lemma_bad_lines_told(list.drop_last());
        let before = bad_lines(list.drop_last());
        let parts = bad_parts(list.drop_last());
        let digits = text::decimal(list.last().start as nat);
        let length = text::human_bytes(list.last().length);
        let padded = text::padded(digits, 14, ' ');
        let fill = padded.take(padded.len() - digits.len());
        assert(padded =~= fill + digits);
        let words = "  offset "@ + fill;
        text::lemma_told(before, parts, words, digits, none_text());
        text::lemma_told(before + words + digits, parts.push(digits), "  "@, length, "\n"@);
        assert(before + bad_line(list.last()) =~= before + words + digits + "  "@ + length
            + "\n"@);
    }
}

spec fn none_text() -> Seq<char> {
    Seq::empty()
}

/// And of the bad regions how many there are, and the first twenty of them, in order; of the
/// others how many they are.
#[verifier::rlimit(40)]
pub proof fn law_status_tells_the_bad_regions(list: Seq<BadRegion>)
    ensures
        list.len() == 0 ==> bad_block(list).len() == 0,
        0 < list.len() <= 20 ==> text::tells(
            bad_block(list),
            seq![text::decimal(list.len())] + bad_parts(list),
        ),
        list.len() > 20 ==> text::tells(
            bad_block(list),
            (seq![text::decimal(list.len())] + bad_parts(list.take(20))).push(
                text::decimal((list.len() - 20) as nat),
            ),
        ),
{
    let nothing = Seq::<Seq<char>>::empty();
    let none = none_text();
    if list.len() > 0 {
        let n = text::decimal(list.len());
        let a = "Bad regions ("@;
        lemma_nothing_told(none);
        text::lemma_told(none, nothing, a, n, "):\n"@);
        assert(none + a =~= a);
        assert(nothing.push(n) =~= seq![n]);
        let head = a + n + "):\n"@;
        if list.len() > 20 {
            let some = list.take(20);
            let rest = text::decimal((list.len() - 20) as nat);
            lemma_bad_lines_told(some);
            text::lemma_tells_both(head, seq![n], bad_lines(some), bad_parts(some));
            let t = head + bad_lines(some);
            let p = seq![n] + bad_parts(some);
            text::lemma_told(t, p, "  ... and "@, rest, " more\n"@);
            assert(t + ("  ... and "@ + rest + " more\n"@) =~= t + "  ... and "@ + rest
                + " more\n"@);
        } else {
            lemma_bad_lines_told(list);
            text::lemma_tells_both(head, seq![n], bad_lines(list), bad_parts(list));
        }
    }
}

/// The status shows the state: its path and its time, then what it records of the copy, of
/// the grid, and of the progress, in this order.
#[verifier::rlimit(40)]
pub proof fn law_status_shows_the_state(
    r: StatusReport,
    path: Seq<char>,
    s: StateFile,
    map: Seq<Region>,
    percent: Seq<char>,
)
    requires
        reports(r, path, s, map),
    ensures
        text::tells(
            report_text(r, percent),
            seq![
                path,
                time::utc_text(s.meta.updated.secs(), s.meta.updated.nanos()),
                s.params.source@,
                " -> "@,
                s.params.target@,
                text::human_bytes(s.params.sector_size),
                text::human_bytes(s.params.transfer_size),
            ] + offset_parts("skip"@, s.params.skip) + offset_parts("seek"@, s.params.seek)
                + flag_parts("skip-unchanged"@, s.params.skip_unchanged) + flag_parts(
                "skip-zeros"@,
                s.params.skip_zeros,
            ) + (if s.progress.bytes_total > 0 {
                seq![
                    text::human_bytes(r.bytes_done),
                    text::human_bytes(s.progress.bytes_total),
                    percent,
                ]
            } else {
                seq![text::human_bytes(r.bytes_done)]
            }) + seq![
                text::human_bytes(r.bytes_untried),
                text::human_bytes(r.bad_bytes),
                text::human_bytes(s.progress.bytes_written),
            ],
        ),
{
    law_status_tells_the_copy(r);
    law_status_tells_the_progress(r, percent);
    let when = time::utc_text(r.updated.secs(), r.updated.nanos());
    let a1 = seq![r.state@, when];
    let a2 = seq![r.source@, " -> "@, r.target@];
    let grid = seq![text::human_bytes(r.sector_size), text::human_bytes(r.transfer_size)];
    let skip = offset_parts("skip"@, r.skip);
    let seek = offset_parts("seek"@, r.seek);
    let unchanged = flag_parts("skip-unchanged"@, r.skip_unchanged);
    let zeros = flag_parts("skip-zeros"@, r.skip_zeros);
    let a3 = grid + skip + seek + unchanged + zeros;
    let untried = text::human_bytes(r.bytes_untried);
    let bad = text::human_bytes(r.bad_bytes);
    let done = if r.bytes_total > 0 {
        seq![text::human_bytes(r.bytes_done), text::human_bytes(r.bytes_total), percent]
    } else {
        seq![text::human_bytes(r.bytes_done)]
    };
    let a4 = done.push(untried).push(bad);
    let wrote = text::human_bytes(r.bytes_written);
    let a5 = seq![wrote];
    let t1 = state_line(r);
    let t2 = t1 + copy_line(r);
    let t3 = t2 + grid_line(r);
    let t4 = t3 + progress_line(r, percent);
    let t5 = t4 + written_line(r);
    text::lemma_tells_both(t1, a1, copy_line(r), a2);
    text::lemma_tells_both(t2, a1 + a2, grid_line(r), a3);
    text::lemma_tells_both(t3, a1 + a2 + a3, progress_line(r, percent), a4);
    text::lemma_tells_both(t4, a1 + a2 + a3 + a4, written_line(r), a5);
    let all = a1 + a2 + a3 + a4 + a5;
    let none = none_text();
    let hashes = hashes_line(r.hashes);
    let verify = verify_line(state::verify_view(r.verify));
    text::lemma_told(t5, all, hashes, none, none);
    text::lemma_told(t5 + hashes, all, verify, none, none);
    text::lemma_told(t5 + hashes + verify, all, bad_block(r.bad_regions@), none, none);
    lemma_regrouped(a1 + a2, grid, skip, seek, unchanged, zeros, done, untried, bad, wrote);
    assert(a1 + a2 + grid =~= seq![
        r.state@,
        when,
        r.source@,
        " -> "@,
        r.target@,
        grid[0],
        grid[1],
    ]);
}

#[verifier::spinoff_prover]
#[verifier::rlimit(40)]
proof fn lemma_regrouped(
    a: Seq<Seq<char>>,
    grid: Seq<Seq<char>>,
    skip: Seq<Seq<char>>,
    seek: Seq<Seq<char>>,
    unchanged: Seq<Seq<char>>,
    zeros: Seq<Seq<char>>,
    done: Seq<Seq<char>>,
    untried: Seq<char>,
    bad: Seq<char>,
    wrote: Seq<char>,
)
    ensures
        a + (grid + skip + seek + unchanged + zeros) + done.push(untried).push(bad) + seq![wrote]
            == a + grid + skip + seek + unchanged + zeros + done + seq![untried, bad, wrote],
{
    let head = a + grid + skip + seek + unchanged + zeros;
    assert(a + (grid + skip) =~= a + grid + skip);
    assert(a + (grid + skip + seek) =~= a + (grid + skip) + seek);
    assert(a + (grid + skip + seek + unchanged) =~= a + (grid + skip + seek) + unchanged);
    assert(a + (grid + skip + seek + unchanged + zeros) =~= a + (grid + skip + seek + unchanged)
        + zeros);
    assert(done.push(untried).push(bad) =~= done + seq![untried, bad]);
    assert(head + (done + seq![untried, bad]) + seq![wrote] =~= head + done + seq![
        untried,
        bad,
        wrote,
    ]);
}

/// Offsets of up to fourteen digits are set right, so that the lengths stand below each
/// other.
pub proof fn law_bad_regions_are_aligned(region: BadRegion)
    requires
        text::decimal(region.start as nat).len() <= 14,
    ensures
        text::stands_at(bad_line(region), text::human_bytes(region.length), 25),
{
    reveal_strlit("  offset ");
    reveal_strlit("  ");
    let length = text::human_bytes(region.length);
    let line = bad_line(region);
    assert(line.subrange(25, 25int + length.len()) =~= length);
}

} // verus!
