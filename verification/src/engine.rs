//! The copy engine: parameter resolution, overwrite safety, size detection, and
//! what a run amounts to. The copy itself is in [`crate::copier`].

use crate::cli::Cli;
use crate::copier;
use crate::copier::{Action, At, Copier, CopyModel, CopyOptions, Outcome, Pass};
use crate::error::{Error, ErrorView, Result};
use crate::hash;
use crate::hash::{ChunkHasher, HasherModel, ALGORITHM, DEFAULT_CHUNK_SIZE};
use crate::params;
use crate::params::{ParamsView, RunParams, DEFAULT_TARGET};
use crate::path;
use crate::region;
use crate::region::{RegionMap, RegionStatus, Statuses};
use crate::safety;
use crate::safety::{FileFacts, FileKind, MountNotes};
use crate::state;
use crate::state::{Hashes, StateFile};
use crate::text;
use crate::verify::VerifyOutcome;
use vstd::prelude::*;

verus! {

/// How often to flush the state file to disk during a long copy (and how often
/// the verify pass checkpoints its cursor), in seconds.
pub const FLUSH_INTERVAL: u64 = 2;

/// Outcome of a run, handed to the binary for rendering and exit-code mapping.
#[derive(Debug, Clone)]
pub struct Summary {
    pub source: String,
    pub target: String,
    pub state_path: String,
    /// Domain size in bytes (`0` = was unknown).
    pub bytes_total: u64,
    /// Bytes scanned and accounted for (read from source, marked done).
    pub bytes_done: u64,
    /// Bytes newly marked done by *this* run (`0` = a no-op resume: the state
    /// was already complete and nothing was copied).
    pub bytes_done_this_run: u64,
    /// Bytes actually written to the target (< `bytes_done` where blocks were
    /// skipped).
    pub bytes_written: u64,
    /// Bytes written by *this* run (`bytes_written` accumulates across resumes).
    pub bytes_written_this_run: u64,
    /// Bytes skipped without any target I/O because their chunk still matched
    /// the manifest (`--refresh`).
    pub bytes_skipped_by_hash: u64,
    /// Whether this run was a `--refresh` (affects how the summary reads).
    pub refreshed: bool,
    pub bad_bytes: u64,
    pub bad_regions: usize,
    /// Whether `--skip-unchanged` was active (affects how the summary reads).
    pub skip_unchanged: bool,
    /// Whether `--skip-zeros` was active (affects how the summary reads).
    pub skip_zeros: bool,
    /// Whole domain copied with no errors and no interruption.
    pub completed: bool,
    pub interrupted: bool,
    /// Result of the `--verify` pass, when one ran.
    pub verify: Option<VerifyOutcome>,
}

// ---------------------------------------------------------------------------
// Paths.

/// The target the command line names, or the default.
pub open spec fn target_text(cli: Cli) -> Seq<char> {
    match cli.target {
        Some(target) => target@,
        None => DEFAULT_TARGET@,
    }
}

pub fn target_of(cli: &Cli) -> (r: String)
    ensures
        r@ == target_text(*cli),
{
    match &cli.target {
        Some(target) => target.clone(),
        None => DEFAULT_TARGET.to_owned(),
    }
}

/// `<target>.state`, or `<basename>.state` for a device.
pub open spec fn state_path_text(target: Seq<char>, is_device: bool) -> Seq<char> {
    match path::path_file_name(target) {
        Some(name) if is_device => name + ".state"@,
        _ => target + ".state"@,
    }
}

/// Derive the default state-file path: `<target>.state` next to a regular file.
/// For a device target, `<basename>.state` in the current directory instead:
/// `/dev` is devtmpfs, where a state file would vanish on reboot, which is
/// exactly when an interrupted restore needs it.
pub fn default_state_path(target: &str, is_device: bool) -> (r: String)
    ensures
        r@ == state_path_text(target@, is_device),
{
    let named = path::file_name(target);
    if is_device {
        if let Some(name) = named {
            return default_state_name(name);
        }
    }
    default_state_name(target.to_owned())
}

/// `<base>.state`.
pub fn default_state_name(base: String) -> (r: String)
    ensures
        r@ == base@ + ".state"@,
{
    let mut out = base;
    out.append(".state");
    out
}

// ---------------------------------------------------------------------------
// Sizes.

/// Compute the copy domain length from the detected source size, `skip`, and
/// `length`. `0` means "unknown / copy until end-of-input".
pub open spec fn domain_of(src_size: Option<u64>, skip: u64, length: u64) -> int {
    match src_size {
        Some(size) => {
            let available = if size < skip {
                0int
            } else {
                size - skip
            };
            if length == 0 {
                available
            } else {
                copier::min(available, length as int)
            }
        },
        None => length as int,
    }
}

pub fn domain_length(src_size: Option<u64>, skip: u64, length: u64) -> (r: u64)
    ensures
        r == domain_of(src_size, skip, length),
{
    match src_size {
        Some(size) => {
            let available = size.saturating_sub(skip);
            if length == 0 || available < length {
                available
            } else {
                length
            }
        },
        None => length,
    }
}

/// The effective transfer size: the desired size aligned down to whole sectors,
/// never below one sector.
pub fn effective_transfer(transfer_size: u64, sector: u64) -> (r: u64)
    requires
        sector > 0,
    ensures
        r == transfer_for(transfer_size, sector),
        sector <= r,
        r as int % sector as int == 0,
{
    let down = copier::align_down(transfer_size, sector);
    proof {
        let q = transfer_size as int / sector as int;
        hash::lemma_within_chunk(sector as int, transfer_size as int, 0);
        vstd::arithmetic::div_mod::lemma_mod_multiples_basic(q, sector as int);
        vstd::arithmetic::div_mod::lemma_mod_self_0(sector as int);
        if transfer_size < sector {
            vstd::arithmetic::div_mod::lemma_basic_div(transfer_size as int, sector as int);
            assert(q * sector == 0) by (nonlinear_arith)
                requires
                    q == 0,
            ;
        } else {
            assert(q >= 1) by (nonlinear_arith)
                requires
                    sector > 0,
                    transfer_size >= sector,
                    q == transfer_size as int / sector as int,
            ;
            assert(q * sector >= sector) by (nonlinear_arith)
                requires
                    q >= 1,
                    sector > 0,
            ;
        }
    }
    if down < sector {
        sector
    } else {
        down
    }
}

/// The number of bytes to skip from address `addr` to the next multiple of
/// `align`, where a buffer for direct reads has to start.
pub fn align_offset(addr: usize, align: usize) -> (r: usize)
    requires
        align > 0,
    ensures
        r < align,
        (addr + r) % align as int == 0,
{
    let over = addr % align;
    proof {
        hash::lemma_within_chunk(align as int, addr as int, 0);
        hash::lemma_within_chunk(align as int, addr as int, align - over);
    }
    if over == 0 {
        0
    } else {
        align - over
    }
}

/// Whether `n` is a power of two.
pub open spec fn is_power_of_two(n: int) -> bool
    decreases n,
{
    if n <= 1 {
        n == 1
    } else {
        n % 2 == 0 && is_power_of_two(n / 2)
    }
}

fn power_of_two(n: u64) -> (r: bool)
    ensures
        r == is_power_of_two(n as int),
{
    let mut m = n;
    while m > 1 && m % 2 == 0
        invariant
            is_power_of_two(n as int) == is_power_of_two(m as int),
        decreases m,
    {
        m = m / 2;
    }
    m == 1
}

// ---------------------------------------------------------------------------
// Parameters.

/// The view of a result of parameters.
pub open spec fn params_result(r: Result<RunParams>) -> core::result::Result<ParamsView, ErrorView> {
    match r {
        Ok(p) => Ok(p@),
        Err(e) => Err(e@),
    }
}

/// The parameters of a resumed state, if there is one.
pub open spec fn prior_params(existing: Option<&StateFile>) -> Option<ParamsView> {
    match existing {
        Some(s) => Some(s.params@),
        None => None,
    }
}

pub open spec fn offset_conflict(
    label: Seq<char>,
    cli: Option<u64>,
    recorded: u64,
) -> Option<ErrorView> {
    match cli {
        Some(value) if value != recorded => Some(
            ErrorView::StateConflict(
                "--"@ + label + " "@ + text::decimal(value as nat)
                    + " conflicts with the resumed state's "@ + label + " "@ + text::decimal(
                    recorded as nat,
                )
                    + " (the region map is relative to it; remove the state file to start over)"@,
            ),
        ),
        _ => None,
    }
}

/// What about a resumed state conflicts with the command line: another target,
/// another sector grid, other offsets. The source path may differ.
pub open spec fn resume_conflict(cli: Cli, target: Seq<char>, prev: ParamsView) -> Option<ErrorView> {
    if !path::paths_equal(prev.target, target) {
        Some(
            ErrorView::StateConflict(
                "the state file records target '"@ + prev.target + "' but the current target is '"@
                    + target
                    + "'; use the recorded target or a different (or no) state file"@,
            ),
        )
    } else if cli.sector_size is Some && cli.sector_size->0 != prev.sector_size {
        Some(
            ErrorView::StateConflict(
                "--sector-size "@ + text::decimal(cli.sector_size->0 as nat)
                    + " conflicts with the resumed state's sector size "@ + text::decimal(
                    prev.sector_size as nat,
                )
                    + " (the region map is aligned to the latter; edit or remove the state file to change it)"@,
            ),
        )
    } else if offset_conflict("skip"@, cli.skip, prev.skip) is Some {
        offset_conflict("skip"@, cli.skip, prev.skip)
    } else {
        offset_conflict("seek"@, cli.seek, prev.seek)
    }
}

pub open spec fn is_aligned(value: u64, sector: u64) -> bool {
    sector == 0 || value as int % sector as int == 0
}

/// What the command line and a resumed state come to: the parameters of the run,
/// or the reason why they do not go together.
pub open spec fn params_for(
    cli: Cli,
    target: Seq<char>,
    prior: Option<ParamsView>,
    detected_sector: u64,
) -> core::result::Result<ParamsView, ErrorView> {
    let p = params::resolved(cli, target, prior, detected_sector);
    if p.sector_size == 0 || p.transfer_size == 0 {
        Err(
            ErrorView::InvalidSize("sector size and transfer size must be greater than 0"@),
        )
    } else if prior is Some && resume_conflict(cli, target, prior->0) is Some {
        Err(resume_conflict(cli, target, prior->0)->0)
    } else if !is_aligned(p.skip, p.sector_size) {
        Err(ErrorView::Misaligned(params::misaligned_text("skip"@, p.skip, p.sector_size)))
    } else if !is_aligned(p.seek, p.sector_size) {
        Err(ErrorView::Misaligned(params::misaligned_text("seek"@, p.seek, p.sector_size)))
    } else {
        Ok(p)
    }
}

/// Resolve run parameters from CLI + prior state, then validate them against a
/// resumed state. The region map is aligned to the sector size recorded in the
/// state file, so a resume must not silently re-grid it against a different one.
/// Offsets must sit on the sector grid; `length` is exempt (its tail rounds up).
pub fn resolve_params(
    cli: &Cli,
    target: String,
    existing: Option<&StateFile>,
    detected_sector: u64,
) -> (r: Result<RunParams>)
    ensures
        params_result(r) == params_for(*cli, target@, prior_params(existing), detected_sector),
{
    let prior: Option<&RunParams> = match existing {
        Some(s) => Some(&s.params),
        None => None,
    };
    let params = RunParams::resolve(cli, target, prior, detected_sector);
    if params.sector_size == 0 || params.transfer_size == 0 {
        return Err(
            Error::InvalidSize(
                "sector size and transfer size must be greater than 0".to_owned(),
            ),
        );
    }
    if let Some(prev) = prior {
        match validate_resume(cli, &params, prev) {
            Err(e) => {
                return Err(e);
            },
            Ok(()) => {},
        }
    }
    match params::require_sector_aligned("skip", params.skip, params.sector_size) {
        Err(e) => {
            return Err(e);
        },
        Ok(()) => {},
    }
    match params::require_sector_aligned("seek", params.seek, params.sector_size) {
        Err(e) => {
            return Err(e);
        },
        Ok(()) => {},
    }
    Ok(params)
}

/// Check that a resumed state file describes the same copy as the command line.
/// The region map's coordinates are relative to `skip`/`seek` on the recorded
/// target and aligned to the recorded sector grid; reusing it under different
/// values would silently skip or misplace data. Conflicts are refused; only the
/// source path may legitimately differ (a device can be renumbered across
/// reboots).
pub fn validate_resume(cli: &Cli, params: &RunParams, prev: &RunParams) -> (r: Result<()>)
    ensures
        r is Err <==> resume_conflict(*cli, params.target@, prev@) is Some,
        r matches Err(e) ==> resume_conflict(*cli, params.target@, prev@) == Some(e@),
        params.target@ == prev.target@ && (cli.sector_size matches Some(s) ==> s
            == prev.sector_size) && (cli.skip matches Some(s) ==> s == prev.skip) && (
        cli.seek matches Some(s) ==> s == prev.seek) ==> r is Ok,
{
    if !path::same_path(prev.target.as_str(), params.target.as_str()) {
        let mut out = "the state file records target '".to_owned();
        out.append(prev.target.as_str());
        out.append("' but the current target is '");
        out.append(params.target.as_str());
        out.append("'; use the recorded target or a different (or no) state file");
        return Err(Error::StateConflict(out));
    }
    if let Some(sector) = cli.sector_size {
        if sector != prev.sector_size {
            let mut out = "--sector-size ".to_owned();
            out.append(text::decimal_text(sector).as_str());
            out.append(" conflicts with the resumed state's sector size ");
            out.append(text::decimal_text(prev.sector_size).as_str());
            out.append(
                " (the region map is aligned to the latter; edit or remove the state file to change it)",
            );
            return Err(Error::StateConflict(out));
        }
    }
    match check_offset("skip", cli.skip, prev.skip) {
        Some(e) => {
            return Err(e);
        },
        None => {},
    }
    match check_offset("seek", cli.seek, prev.seek) {
        Some(e) => {
            return Err(e);
        },
        None => {},
    }
    Ok(())
}

fn check_offset(label: &str, cli: Option<u64>, recorded: u64) -> (r: Option<Error>)
    ensures
        r is Some <==> offset_conflict(label@, cli, recorded) is Some,
        r matches Some(e) ==> offset_conflict(label@, cli, recorded) == Some(e@),
{
    if let Some(value) = cli {
        if value != recorded {
            let mut out = "--".to_owned();
            out.append(label);
            out.append(" ");
            out.append(text::decimal_text(value).as_str());
            out.append(" conflicts with the resumed state's ");
            out.append(label);
            out.append(" ");
            out.append(text::decimal_text(recorded).as_str());
            out.append(
                " (the region map is relative to it; remove the state file to start over)",
            );
            return Some(Error::StateConflict(out));
        }
    }
    None
}

/// Whether a resume keeps a recorded sector size that differs from the one the
/// source reports, which is worth a warning.
pub fn sector_size_differs(cli: &Cli, prev: &RunParams, detected_sector: u64) -> (r: bool)
    ensures
        r == (cli.sector_size is None && detected_sector != prev.sector_size),
{
    cli.sector_size.is_none() && detected_sector != prev.sector_size
}

// ---------------------------------------------------------------------------
// The map.

/// The map of a run before its refresh: the recorded one or an untried one, made
/// to cover exactly a known domain.
pub open spec fn base_status(
    regions: Option<Seq<region::Region>>,
    domain: u64,
    p: int,
) -> Option<RegionStatus> {
    let recorded = match regions {
        Some(rs) => region::status_in(rs, p),
        None => if 0 <= p < domain {
            Some(RegionStatus::Untried)
        } else {
            None
        },
    };
    if domain == 0 {
        recorded
    } else if 0 <= p < domain {
        if recorded is Some {
            recorded
        } else {
            Some(RegionStatus::Untried)
        }
    } else {
        None
    }
}

/// The regions of a resumed state, if there is one.
pub open spec fn prior_regions(existing: Option<&StateFile>) -> Option<Seq<region::Region>> {
    match existing {
        Some(s) => Some(s.regions@),
        None => None,
    }
}

/// The region map a run starts from. A resumed map may describe a different
/// domain (changed `--length`, resized source): the uncovered remainder is
/// marked untried and the out-of-domain overhang dropped, so neither is silently
/// mishandled.
pub fn initial_map(existing: Option<&StateFile>, domain: u64) -> (r: RegionMap)
    requires
        existing matches Some(s) ==> region::disjoint(s.regions@),
    ensures
        r.wf(),
        forall|p: int| #[trigger]
            r.status_at(p) == base_status(prior_regions(existing), domain, p),
{
    let mut map = match existing {
        Some(s) => s.region_map(),
        None => RegionMap::from_total(domain),
    };
    let ghost loaded = map;
    map.reconcile(domain);
    proof {
        assert forall|p: int| #[trigger] map.status_at(p) == base_status(
            prior_regions(existing),
            domain,
            p,
        ) by {
            assert(loaded.status_at(p) == loaded.status_at(p));
        }
    }
    map
}

/// Preflight and map transformation for `--refresh`: needs a known-size source;
/// a completed map is re-opened (`done` becomes `untried`) for the re-scan. A
/// map with untried bytes left is *not* reset: that is either an interrupted
/// refresh continuing or an incomplete copy finishing first; both flows are
/// exactly the normal resume. Returns whether the map was re-opened.
pub fn prepare_refresh(map: &mut RegionMap, domain: u64) -> (r: Result<bool>)
    requires
        old(map).wf(),
    ensures
        final(map).wf(),
        r is Err <==> domain == 0,
        r matches Err(e) ==> e@ == ErrorView::Refused(
            "--refresh needs a source with a detectable size"@,
        ),
        r matches Ok(reopened) ==> reopened == (region::bytes_in(
            old(map)@,
            RegionStatus::Untried,
        ) == 0),
        r matches Ok(true) ==> forall|p: int| #[trigger]
            final(map).status_at(p) == (if old(map).status_at(p) == Some(RegionStatus::Done) {
                Some(RegionStatus::Untried)
            } else {
                old(map).status_at(p)
            }),
        !(r matches Ok(true)) ==> final(map)@ == old(map)@,
{
    if domain == 0 {
        return Err(
            Error::Refused("--refresh needs a source with a detectable size".to_owned()),
        );
    }
    if map.bytes_with(RegionStatus::Untried) == 0 {
        map.reset(RegionStatus::Done, RegionStatus::Untried);
        Ok(true)
    } else {
        Ok(false)
    }
}

// ---------------------------------------------------------------------------
// The manifest.

/// The chunk size of a run's manifest: the recorded one, else the one asked for,
/// else the default.
pub open spec fn chunk_size_for(cli_chunk: Option<u64>, prior: Option<&Hashes>) -> u64 {
    match prior {
        Some(manifest) => manifest.chunk_size,
        None => match cli_chunk {
            Some(size) => size,
            None => DEFAULT_CHUNK_SIZE,
        },
    }
}

/// Why a run cannot have its manifest, if it cannot.
pub open spec fn hashing_conflict(
    cli_chunk: Option<u64>,
    prior: Option<&Hashes>,
    sector: u64,
) -> Option<ErrorView> {
    let size = chunk_size_for(cli_chunk, prior);
    if prior matches Some(manifest) && manifest.algorithm@ != ALGORITHM@ {
        Some(
            ErrorView::StateConflict(
                "the state file's hash manifest uses '"@ + prior->0.algorithm@
                    + "'; this exhume only supports '"@ + ALGORITHM@
                    + "' (remove the [hashes] section to re-create the manifest)"@,
            ),
        )
    } else if prior is Some && cli_chunk is Some && cli_chunk->0 != prior->0.chunk_size {
        Some(
            ErrorView::StateConflict(
                "--hash-chunk "@ + text::decimal(cli_chunk->0 as nat)
                    + " conflicts with the manifest's chunk size "@ + text::decimal(
                    prior->0.chunk_size as nat,
                )
                    + " (the grid is fixed once recorded; remove the [hashes] section to re-grid)"@,
            ),
        )
    } else if size == 0 || size as int % sector as int != 0 {
        Some(
            ErrorView::InvalidSize(
                "--hash-chunk "@ + text::decimal(size as nat)
                    + " must be a positive multiple of the "@ + text::decimal(sector as nat)
                    + "-byte sector size"@,
            ),
        )
    } else {
        None
    }
}

/// The hasher a run starts with: the recorded digests, and no bytes yet.
pub open spec fn starting_hasher(
    cli_chunk: Option<u64>,
    prior: Option<&Hashes>,
    domain: u64,
) -> HasherModel {
    HasherModel {
        chunk_size: chunk_size_for(cli_chunk, prior) as int,
        domain: domain as int,
        chunks: match prior {
            Some(manifest) => hash::texts(manifest.chunks@),
            None => Seq::empty(),
        },
        expected: u64::MAX as int,
        run: Seq::empty(),
    }
}

/// Build the chunk hasher. Hashing is always on; the manifest is simply
/// discarded together with a clean auto-state. A resumed manifest fixes the
/// algorithm and chunk grid; conflicts are refused, like the sector size.
pub fn setup_hashing(
    cli_chunk: Option<u64>,
    prior: Option<&Hashes>,
    sector: u64,
    domain: u64,
) -> (r: Result<ChunkHasher>)
    requires
        sector > 0,
    ensures
        r is Err <==> hashing_conflict(cli_chunk, prior, sector) is Some,
        r matches Err(e) ==> hashing_conflict(cli_chunk, prior, sector) == Some(e@),
        r matches Ok(hasher) ==> hasher.wf() && hasher@ == starting_hasher(cli_chunk, prior, domain),
{
    if let Some(manifest) = prior {
        if manifest.algorithm != ALGORITHM.to_owned() {
            let mut out = "the state file's hash manifest uses '".to_owned();
            out.append(manifest.algorithm.as_str());
            out.append("'; this exhume only supports '");
            out.append(ALGORITHM);
            out.append("' (remove the [hashes] section to re-create the manifest)");
            return Err(Error::StateConflict(out));
        }
        if let Some(size) = cli_chunk {
            if size != manifest.chunk_size {
                let mut out = "--hash-chunk ".to_owned();
                out.append(text::decimal_text(size).as_str());
                out.append(" conflicts with the manifest's chunk size ");
                out.append(text::decimal_text(manifest.chunk_size).as_str());
                out.append(
                    " (the grid is fixed once recorded; remove the [hashes] section to re-grid)",
                );
                return Err(Error::StateConflict(out));
            }
        }
    }
    let size = match prior {
        Some(manifest) => manifest.chunk_size,
        None => match cli_chunk {
            Some(size) => size,
            None => DEFAULT_CHUNK_SIZE,
        },
    };
    if size == 0 || size % sector != 0 {
        let mut out = "--hash-chunk ".to_owned();
        out.append(text::decimal_text(size).as_str());
        out.append(" must be a positive multiple of the ");
        out.append(text::decimal_text(sector).as_str());
        out.append("-byte sector size");
        return Err(Error::InvalidSize(out));
    }
    let chunks = match prior {
        Some(manifest) => state::copy_texts(manifest.chunks.as_slice()),
        None => Vec::new(),
    };
    proof {
        if prior is None {
            assert(hash::texts(chunks@) =~= Seq::<Seq<char>>::empty());
        }
    }
    Ok(ChunkHasher::new(size, domain, chunks))
}

// ---------------------------------------------------------------------------
// Direct reads.

/// What becomes of `--direct`.
#[derive(Debug, Clone, Copy, PartialEq, Eq, Structural)]
pub enum DirectMode {
    /// Not asked for.
    Off,
    /// Ignored: the source is not seekable.
    NotSeekable,
    /// Ignored: the platform has no such reads.
    Unsupported,
    /// The source is opened a second time for direct reads.
    On,
}

/// What becomes of `--direct`, where the sector size suits it.
pub open spec fn direct_choice(wanted: bool, domain: u64, supported: bool) -> DirectMode {
    if !wanted {
        DirectMode::Off
    } else if domain == 0 {
        DirectMode::NotSeekable
    } else if !supported {
        DirectMode::Unsupported
    } else {
        DirectMode::On
    }
}

/// Why there can be no direct reads, if they were to be made.
pub open spec fn direct_conflict(
    wanted: bool,
    domain: u64,
    supported: bool,
    sector: u64,
) -> Option<ErrorView> {
    if direct_choice(wanted, domain, supported) == DirectMode::On && !is_power_of_two(
        sector as int,
    ) {
        Some(
            ErrorView::InvalidSize(
                "--direct requires a power-of-two sector size (O_DIRECT alignment), but the effective sector size is "@
                    + text::decimal(sector as nat),
            ),
        )
    } else {
        None
    }
}

/// Decide on the direct read side (reads only): a separate handle that bypasses
/// the page cache, used for the copy so re-reads hit the medium. Direct reads
/// want offsets, lengths and the buffer aligned to the device's block
/// granularity; a stray sector size would make every read fail, so it is refused
/// up front.
pub fn direct_mode(wanted: bool, domain: u64, supported: bool, sector: u64) -> (r: Result<
    DirectMode,
>)
    ensures
        r is Err <==> direct_conflict(wanted, domain, supported, sector) is Some,
        r matches Err(e) ==> direct_conflict(wanted, domain, supported, sector) == Some(e@),
        r matches Ok(mode) ==> mode == direct_choice(wanted, domain, supported),
{
    if !wanted {
        return Ok(DirectMode::Off);
    }
    if domain == 0 {
        return Ok(DirectMode::NotSeekable);
    }
    if !supported {
        return Ok(DirectMode::Unsupported);
    }
    if !power_of_two(sector) {
        let mut out =
            "--direct requires a power-of-two sector size (O_DIRECT alignment), but the effective sector size is ".to_owned();
        out.append(text::decimal_text(sector).as_str());
        return Err(Error::InvalidSize(out));
    }
    Ok(DirectMode::On)
}

/// What a failed read tells: the errors that are told apart.
#[derive(Debug, Clone, Copy, PartialEq, Eq, Structural)]
pub enum ReadFault {
    /// `EIO`: the block layer's damage signal.
    Io,
    /// `EREMOTEIO`: its USB-bridge cousin, known to Linux only.
    RemoteIo,
    /// `EBADMSG`: an integrity failure.
    BadMessage,
    /// `EINVAL`: the request itself was not acceptable.
    Invalid,
    /// Anything else, such as a vanished device.
    Other,
}

/// The error numbers of the faults that are told apart. They differ between
/// systems, and `EREMOTEIO` is not found on each.
#[derive(Debug, Clone, Copy, PartialEq, Eq, Structural)]
pub struct FaultCodes {
    /// `EIO`.
    pub io: i32,
    /// `EBADMSG`.
    pub bad_message: i32,
    /// `EINVAL`.
    pub invalid: i32,
    /// `EREMOTEIO`, where the system has it.
    pub remote_io: Option<i32>,
}

/// Which of the faults that are told apart a read error is, by its error number.
/// An error without a number is none of them.
pub fn fault_of(errno: Option<i32>, codes: FaultCodes) -> (r: ReadFault)
    ensures
        r == (match errno {
            None => ReadFault::Other,
            Some(n) => if n == codes.io {
                ReadFault::Io
            } else if n == codes.bad_message {
                ReadFault::BadMessage
            } else if n == codes.invalid {
                ReadFault::Invalid
            } else if codes.remote_io == Some(n) {
                ReadFault::RemoteIo
            } else {
                ReadFault::Other
            },
        }),
{
    match errno {
        None => ReadFault::Other,
        Some(n) => {
            if n == codes.io {
                return ReadFault::Io;
            }
            if n == codes.bad_message {
                return ReadFault::BadMessage;
            }
            if n == codes.invalid {
                return ReadFault::Invalid;
            }
            match codes.remote_io {
                Some(remote) if n == remote => ReadFault::RemoteIo,
                _ => ReadFault::Other,
            }
        },
    }
}

/// Judge one aligned probe read of a source opened for direct reads. A genuine
/// I/O error (or end of file) is fine: it means the medium is just unreadable
/// there; only `EINVAL` means the source or filesystem rejects direct reads.
/// `cause` is the text of the fault.
pub fn verify_direct(fault: Option<ReadFault>, cause: String) -> (r: Result<()>)
    ensures
        r is Err <==> fault == Some(ReadFault::Invalid),
        r matches Err(e) ==> e@ == (ErrorView::Io {
            context: "--direct is not supported for this source or filesystem; retry without it"@,
            source: cause@,
        }),
{
    match fault {
        Some(ReadFault::Invalid) => Err(
            Error::io(
                "--direct is not supported for this source or filesystem; retry without it".to_owned(),
                cause,
            ),
        ),
        _ => Ok(()),
    }
}

// ---------------------------------------------------------------------------
// The target.

/// Whether a target is "occupied": a device, a non-empty regular file, or
/// anything else that exists. A missing target is not occupied.
pub open spec fn is_occupied(target: Option<FileFacts>) -> bool {
    match target {
        None => false,
        Some(f) => !(f.kind == FileKind::Regular && f.length == 0),
    }
}

pub fn target_occupied(target: Option<FileFacts>) -> (r: bool)
    ensures
        r == is_occupied(target),
{
    match target {
        Some(f) => match f.kind {
            FileKind::Regular => f.length > 0,
            _ => true,
        },
        None => false,
    }
}

/// What is known before the target is opened.
#[derive(Debug, Clone, Copy, PartialEq, Eq, Structural)]
pub struct TargetFacts {
    pub source: Option<FileFacts>,
    pub target: Option<FileFacts>,
    pub source_mounted: bool,
    pub target_mounted: bool,
}

/// Why the target must not be written, if it must not.
pub open spec fn target_refusal(
    cli: Cli,
    target: Seq<char>,
    resuming: bool,
    facts: TargetFacts,
) -> Option<ErrorView> {
    if safety::same_file(facts.source, facts.target) {
        Some(ErrorView::Refused(safety::same_file_text(cli.source@, target)))
    } else if !resuming && !cli.force && !cli.refresh && is_occupied(facts.target) {
        Some(ErrorView::TargetExists(target))
    } else if facts.target_mounted && !cli.allow_mounted {
        Some(ErrorView::Refused(safety::mounted_text(target)))
    } else {
        None
    }
}

/// The write-side guards, run before the target is opened: refuse to copy a
/// file onto itself; an existing, occupied target needs `--force`, unless a
/// state file is present or `--refresh` was given (both express the informed
/// intent to write this target); a mounted target device is refused outright
/// (`--force` does not cover corrupting a live filesystem). Returns whether the
/// target was occupied, and what the mounted guard noted.
pub fn guard_target(cli: &Cli, target: &str, resuming: bool, facts: TargetFacts) -> (r: Result<
    (bool, MountNotes),
>)
    ensures
        r is Err <==> target_refusal(*cli, target@, resuming, facts) is Some,
        r matches Err(e) ==> target_refusal(*cli, target@, resuming, facts) == Some(e@),
        r matches Ok((occupied, notes)) ==> occupied == is_occupied(facts.target) && notes.target
            == facts.target_mounted && notes.source == facts.source_mounted,
{
    match safety::ensure_not_same_file(cli.source.as_str(), target, facts.source, facts.target) {
        Err(e) => {
            return Err(e);
        },
        Ok(()) => {},
    }
    let occupied = target_occupied(facts.target);
    if !resuming && !cli.force && !cli.refresh && occupied {
        return Err(Error::TargetExists(target.to_owned()));
    }
    match safety::check_mounted(
        target,
        facts.target_mounted,
        facts.source_mounted,
        cli.allow_mounted,
    ) {
        Err(e) => Err(e),
        Ok(notes) => Ok((occupied, notes)),
    }
}

/// Whether to warn that `--skip-zeros` leaves old data in the target: it relies
/// on the target reading as zero where writes are left out, which an occupied
/// target does not guarantee.
pub fn skip_zeros_is_risky(skip_zeros: bool, occupied: bool, resuming: bool) -> (r: bool)
    ensures
        r == (skip_zeros && occupied && !resuming),
{
    skip_zeros && occupied && !resuming
}

/// Whether a regular-file target has to be extended (as a sparse hole) to span
/// the whole processed domain. Devices and files that are long enough are left
/// alone; the target is never truncated.
pub fn needs_extending(target: FileFacts, length: u64) -> (r: bool)
    ensures
        r == (target.kind == FileKind::Regular && target.length < length),
{
    match target.kind {
        FileKind::Regular => target.length < length,
        _ => false,
    }
}

// ---------------------------------------------------------------------------
// The copier.

/// The effective transfer size: whole sectors, and at least one.
pub open spec fn transfer_for(transfer_size: u64, sector: u64) -> int {
    if transfer_size < sector {
        sector as int
    } else {
        transfer_size as int / sector as int * sector as int
    }
}

/// The options of a copy with these parameters. A refresh must overwrite stale
/// data with zeros, so it does not leave them out.
pub open spec fn options_for(
    cli: Cli,
    params: ParamsView,
    domain: u64,
    direct: bool,
) -> CopyOptions {
    CopyOptions {
        skip: params.skip,
        seek: params.seek,
        domain,
        length: params.length,
        sector: params.sector_size,
        transfer: transfer_for(params.transfer_size, params.sector_size) as u64,
        direct,
        refresh: cli.refresh,
        skip_unchanged: params.skip_unchanged,
        skip_zeros: params.skip_zeros && !cli.refresh,
        retry: cli.retry,
    }
}

/// The options of a copy with these parameters.
pub fn copy_options(cli: &Cli, params: &RunParams, domain: u64, direct: bool) -> (r: CopyOptions)
    requires
        params.sector_size > 0,
    ensures
        r == options_for(*cli, params@, domain, direct),
        r.transfer == transfer_for(params.transfer_size, params.sector_size),
        r.sector <= r.transfer,
        r.transfer as int % r.sector as int == 0,
{
    CopyOptions {
        skip: params.skip,
        seek: params.seek,
        domain,
        length: params.length,
        sector: params.sector_size,
        transfer: effective_transfer(params.transfer_size, params.sector_size),
        direct,
        refresh: cli.refresh,
        skip_unchanged: params.skip_unchanged,
        skip_zeros: params.skip_zeros && !cli.refresh,
        retry: cli.retry,
    }
}

/// The copier as it starts with these parts.
pub open spec fn starting(
    options: CopyOptions,
    map: RegionMap,
    hasher: ChunkHasher,
    repair: Seq<u64>,
    bytes_written: u64,
) -> CopyModel {
    CopyModel::start(
        options,
        map.statuses(),
        region::end_of(map@),
        hasher@,
        repair,
        bytes_written as int,
    )
}

/// Start a copy; `None` where its extents do not fit in `u64` or its chunk
/// numbers not in an index. The map has to cover exactly a known domain, as
/// [`initial_map`] makes it.
pub fn start_copy(
    options: CopyOptions,
    map: RegionMap,
    hasher: ChunkHasher,
    repair: Vec<u64>,
    bytes_written: u64,
) -> (r: Option<Copier>)
    requires
        map.wf(),
        hasher.wf(),
        hasher@.domain == options.domain,
        hasher@.run.len() == 0,
        options.domain > 0 ==> forall|p: int|
            (#[trigger] map.status_at(p) is Some) <==> 0 <= p < options.domain,
        0 < options.sector <= options.transfer,
        options.transfer as int % options.sector as int == 0,
        !(options.refresh && options.skip_zeros),
    ensures
        r is Some <==> options.valid() && starting(
            options,
            map,
            hasher,
            repair@,
            bytes_written,
        ).indexable(),
        r matches Some(c) ==> c.wf() && c@ == starting(options, map, hasher, repair@, bytes_written),
{
    proof {
        hasher.lemma_wf();
    }
    let size = hasher.chunk_size();
    if options.skip == u64::MAX || options.seek == u64::MAX {
        return None;
    }
    if options.domain > u64::MAX - options.skip || options.domain > u64::MAX - options.seek {
        return None;
    }
    let most: u64 = usize::MAX as u64;
    let indexable = if options.domain > 0 {
        hash::chunk_count(options.domain, size) <= most
    } else {
        (u64::MAX - 1) / size < most
    };
    if !indexable {
        return None;
    }
    Some(Copier::new(options, map, hasher, repair, bytes_written))
}

/// What the driver was doing when an action failed.
pub open spec fn failure_text(action: Action) -> Seq<char> {
    match action {
        Action::ReadSource { offset, want, request } => "reading at source offset "@
            + text::decimal(offset as nat),
        Action::Write { offset, length } => "writing "@ + text::decimal(length as nat)
            + " bytes at target offset "@ + text::decimal(offset as nat),
        _ => "saving the state"@,
    }
}

pub fn failure_context(action: Action) -> (r: String)
    ensures
        r@ == failure_text(action),
{
    match action {
        Action::ReadSource { offset, want: _, request: _ } => {
            let mut out = "reading at source offset ".to_owned();
            out.append(text::decimal_text(offset).as_str());
            out
        },
        Action::Write { offset, length } => {
            let mut out = "writing ".to_owned();
            out.append(text::decimal_text(length).as_str());
            out.append(" bytes at target offset ");
            out.append(text::decimal_text(offset).as_str());
            out
        },
        _ => "saving the state".to_owned(),
    }
}

/// What the gap-filling pass was doing when it failed at domain position `pos`.
pub fn gap_failure_context(pos: u64) -> (r: String)
    ensures
        r@ == "reading target back at offset "@ + text::decimal(pos as nat) + " for hashing"@,
{
    let mut out = "reading target back at offset ".to_owned();
    out.append(text::decimal_text(pos).as_str());
    out.append(" for hashing");
    out
}

/// What the verify pass was doing when it failed at target offset `offset`.
pub fn verify_failure_context(offset: u64) -> (r: String)
    ensures
        r@ == "reading target back at offset "@ + text::decimal(offset as nat),
{
    let mut out = "reading target back at offset ".to_owned();
    out.append(text::decimal_text(offset).as_str());
    out
}

// ---------------------------------------------------------------------------
// The outcome.

/// The write-side counters [`summarize`] folds into the [`Summary`].
#[derive(Debug, Clone, Copy, PartialEq, Eq, Structural)]
pub struct WriteCounters {
    pub bytes_written: u64,
    pub bytes_written_this_run: u64,
    pub bytes_skipped_by_hash: u64,
    pub done_at_start: u64,
}

/// The bytes a resume counts as processed before it starts: all that is not
/// untried.
pub fn processed_at_start(map: &RegionMap, domain: u64) -> (r: u64)
    requires
        map.wf(),
    ensures
        r == (if region::bytes_in(map@, RegionStatus::Untried) < domain {
            domain - region::bytes_in(map@, RegionStatus::Untried)
        } else {
            0
        }),
{
    domain.saturating_sub(map.bytes_with(RegionStatus::Untried))
}

/// Assemble the run [`Summary`] from the final copy state. A run is complete if
/// it was not interrupted and left neither untried nor bad bytes.
pub fn summarize(
    params: RunParams,
    target: String,
    state_path: String,
    domain: u64,
    map: &RegionMap,
    counters: WriteCounters,
    refreshed: bool,
    interrupted: bool,
    verify: Option<VerifyOutcome>,
) -> (r: Summary)
    requires
        map.wf(),
    ensures
        r.source@ == params.source@,
        r.target@ == target@,
        r.state_path@ == state_path@,
        r.bytes_total == domain,
        r.bytes_done == region::bytes_in(map@, RegionStatus::Done),
        r.bytes_done_this_run == (if counters.done_at_start < r.bytes_done {
            r.bytes_done - counters.done_at_start
        } else {
            0
        }),
        r.bytes_written == counters.bytes_written,
        r.bytes_written_this_run == counters.bytes_written_this_run,
        r.bytes_skipped_by_hash == counters.bytes_skipped_by_hash,
        r.refreshed == refreshed,
        r.bad_bytes == region::bytes_in(map@, RegionStatus::Bad),
        r.bad_regions == state::bad_count(map@),
        r.skip_unchanged == params.skip_unchanged,
        r.skip_zeros == (params.skip_zeros && !refreshed),
        r.completed == (!interrupted && region::bytes_in(map@, RegionStatus::Untried) == 0
            && state::bad_count(map@) == 0),
        r.interrupted == interrupted,
        r.verify == verify,
{
    let bad_regions = state::count_bad(map);
    let untried = map.bytes_with(RegionStatus::Untried);
    let bytes_done = map.bytes_with(RegionStatus::Done);
    Summary {
        source: params.source,
        target,
        state_path,
        bytes_total: domain,
        bytes_done,
        bytes_done_this_run: bytes_done.saturating_sub(counters.done_at_start),
        bytes_written: counters.bytes_written,
        bytes_written_this_run: counters.bytes_written_this_run,
        bytes_skipped_by_hash: counters.bytes_skipped_by_hash,
        refreshed,
        bad_bytes: map.bytes_with(RegionStatus::Bad),
        bad_regions,
        skip_unchanged: params.skip_unchanged,
        skip_zeros: params.skip_zeros && !refreshed,
        completed: !interrupted && untried == 0 && bad_regions == 0,
        interrupted,
        verify,
    }
}

/// Whether to remove the state file after the run: an auto-named one after a
/// clean, error-free copy, which is just scaffolding with nothing left to resume
/// or inspect. A state file the user named explicitly is always kept.
pub fn discards_state(state_explicit: bool, completed: bool) -> (r: bool)
    ensures
        r == (!state_explicit && completed),
{
    !state_explicit && completed
}

/// The same command resumes its own state: what it resolved to is accepted, and
/// kept, by every later run of it, whatever sector size is detected then.
pub proof fn law_same_command_resumes(
    cli: Cli,
    target: Seq<char>,
    prior: Option<ParamsView>,
    detected_sector: u64,
    detected_later: u64,
)
    requires
        params_for(cli, target, prior, detected_sector) is Ok,
    ensures
        ({
            let p = params_for(cli, target, prior, detected_sector)->Ok_0;
            params_for(cli, target, Some(p), detected_later) == Ok::<ParamsView, ErrorView>(p)
        }),
{
    let p = params_for(cli, target, prior, detected_sector)->Ok_0;
    assert(params::resolved(cli, target, Some(p), detected_later) == p);
}

/// A run reported as complete has every byte of a known domain done: no untried
/// byte, no bad region, and a map that covers the domain leave nothing else.
pub proof fn law_completed_means_all_done(map: RegionMap, domain: u64, p: int)
    requires
        map.wf(),
        forall|q: int| (#[trigger] map.status_at(q) is Some) <==> 0 <= q < domain,
        region::bytes_in(map@, RegionStatus::Untried) == 0,
        state::bad_count(map@) == 0,
        0 <= p < domain,
    ensures
        map.status_at(p) == Some(RegionStatus::Done),
{
    assert(map.status_at(p) is Some);
    if map.status_at(p) == Some(RegionStatus::Bad) {
        region::law_listed_regions_hold_the_status(map, RegionStatus::Bad, p);
        let listed = region::with_status(map@, RegionStatus::Bad);
        let i = region::lemma_region_of(listed, p);
        assert(listed.len() > 0);
    }
    if map.status_at(p) == Some(RegionStatus::Untried) {
        region::lemma_some_bytes(map@, RegionStatus::Untried, p);
    }
}

/// And the other way round: with every byte of a known domain done, the run is
/// complete, and what is done is the whole domain.
pub proof fn law_all_done_means_completed(map: RegionMap, domain: u64)
    requires
        map.wf(),
        forall|q: int| (#[trigger] map.status_at(q) is Some) <==> 0 <= q < domain,
        forall|q: int| 0 <= q < domain ==> #[trigger] map.status_at(q) == Some(RegionStatus::Done),
    ensures
        region::bytes_in(map@, RegionStatus::Untried) == 0,
        state::bad_count(map@) == 0,
        region::bytes_in(map@, RegionStatus::Done) == domain,
{
    assert forall|q: int| #[trigger] region::status_in(map@, q) != Some(
        RegionStatus::Untried,
    ) && region::status_in(map@, q) != Some(RegionStatus::Bad) by {
        assert(map.status_at(q) == region::status_in(map@, q));
    }
    region::lemma_no_bytes(map@, RegionStatus::Untried);
    region::lemma_no_bytes(map@, RegionStatus::Bad);
    region::law_totals_add_up(map, domain as int);
    state::lemma_no_bad_regions(map);
}

/// A run without trouble is reported as complete: over a known domain with no bad
/// byte at its start, if it finishes without a media error and before the end of
/// its source.
pub proof fn law_run_without_errors_completes(run: crate::world::Run, map: RegionMap)
    requires
        run.is_run(),
        run.machine[0].at == At::Start,
        run.machine[0].pass != Pass::Retry,
        run.machine[0].pos == 0,
        run.machine[0].options.domain > 0,
        forall|q: int| #[trigger] (run.machine[0].map)(q) != Some(RegionStatus::Bad),
        forall|i: int| 0 <= i < run.replies.len() ==> !(#[trigger] run.replies[i] is MediaError),
        run.machine.last().at == At::Stopped(Outcome::Finished),
        !run.machine.last().short,
        map.wf(),
        map.statuses() == run.machine.last().map,
    ensures
        region::bytes_in(map@, RegionStatus::Untried) == 0,
        state::bad_count(map@) == 0,
        region::bytes_in(map@, RegionStatus::Done) == run.machine[0].options.domain,
{
    let last = run.machine.last();
    let domain = run.machine[0].options.domain;
    crate::world::lemma_fixed(run, run.machine.len() - 1);
    assert(run.machine[run.machine.len() - 1].wf());
    assert forall|q: int| (#[trigger] map.status_at(q) is Some) == (0 <= q < domain) by {
        assert(map.status_at(q) == (map.statuses())(q));
        assert((last.map)(q) is Some <==> 0 <= q < domain);
    }
    assert forall|q: int| 0 <= q < domain implies #[trigger] map.status_at(q) == Some(
        RegionStatus::Done,
    ) by {
        assert(map.status_at(q) == (map.statuses())(q));
        crate::effects::law_run_without_errors_is_complete(run, q);
    }
    law_all_done_means_completed(map, domain);
}

/// The byte total of a map that covers a known domain is the tally of its statuses.
proof fn lemma_total_is_tally(map: RegionMap, status: RegionStatus, domain: u64)
    requires
        map.wf(),
        forall|q: int| (#[trigger] map.status_at(q) is Some) ==> 0 <= q < domain,
    ensures
        region::bytes_in(map@, status) == region::tally(map.statuses(), status, domain as int),
{
    let rs = map@;
    if rs.len() > 0 {
        let last = rs[rs.len() - 1];
        assert(last.valid());
        region::lemma_status_of(rs, rs.len() - 1, last.spec_end() - 1);
        assert(map.status_at(last.spec_end() - 1) is Some);
    }
    region::law_totals_count_bytes(rs, status, domain as int);
    let tallied = |p: int| (map.statuses())(p) == Some(status);
    assert(tallied =~= region::holds(rs, status));
}

/// What a summary says a run has done is what it says it has written, if the run
/// writes all it reads: over a known domain the bytes done since its start, by the
/// maps at its start and its end, are the bytes written.
pub proof fn law_plain_copy_reports_what_it_wrote(
    run: crate::world::Run,
    prior: Seq<Seq<char>>,
    before: RegionMap,
    map: RegionMap,
)
    requires
        run.is_run(),
        crate::world::kept(run.machine[0], run.world[0], prior),
        crate::effects::writes_all(run.machine[0].options),
        run.machine[0].options.domain > 0,
        run.machine[0].bytes_written_this_run == 0,
        before.wf(),
        before.statuses() == run.machine[0].map,
        map.wf(),
        map.statuses() == run.machine.last().map,
    ensures
        run.machine.last().bytes_written_this_run == region::bytes_in(map@, RegionStatus::Done)
            - region::bytes_in(before@, RegionStatus::Done),
{
    let (first, last) = (run.machine[0], run.machine.last());
    let domain = first.options.domain;
    crate::effects::law_plain_copy_writes_what_it_copies(run, prior, run.machine.len() - 1);
    crate::world::lemma_fixed(run, run.machine.len() - 1);
    assert(first.wf());
    assert(run.machine[run.machine.len() - 1].wf());
    assert forall|q: int| (#[trigger] before.status_at(q) is Some) implies 0 <= q < domain by {
        assert(before.status_at(q) == (before.statuses())(q));
        assert((first.map)(q) is Some);
    }
    assert forall|q: int| (#[trigger] map.status_at(q) is Some) implies 0 <= q < domain by {
        assert(map.status_at(q) == (map.statuses())(q));
        assert((last.map)(q) is Some);
    }
    lemma_total_is_tally(before, RegionStatus::Done, domain);
    lemma_total_is_tally(map, RegionStatus::Done, domain);
}

/// A fresh copy without errors that writes all it reads writes exactly its domain.
pub proof fn law_fresh_copy_writes_its_domain(
    run: crate::world::Run,
    prior: Seq<Seq<char>>,
    before: RegionMap,
    map: RegionMap,
)
    requires
        run.is_run(),
        crate::world::kept(run.machine[0], run.world[0], prior),
        crate::effects::writes_all(run.machine[0].options),
        run.machine[0].at == At::Start,
        run.machine[0].pass != Pass::Retry,
        run.machine[0].pos == 0,
        run.machine[0].options.domain > 0,
        run.machine[0].bytes_written_this_run == 0,
        run.machine[0].bytes_written == 0,
        forall|q: int| #[trigger]
            (run.machine[0].map)(q) is Some ==> (run.machine[0].map)(q) == Some(
                RegionStatus::Untried,
            ),
        forall|i: int| 0 <= i < run.replies.len() ==> !(#[trigger] run.replies[i] is MediaError),
        run.machine.last().at == At::Stopped(Outcome::Finished),
        !run.machine.last().short,
        before.wf(),
        before.statuses() == run.machine[0].map,
        map.wf(),
        map.statuses() == run.machine.last().map,
    ensures
        run.machine.last().bytes_written_this_run == run.machine[0].options.domain,
        run.machine.last().bytes_written == run.machine[0].options.domain,
        region::bytes_in(map@, RegionStatus::Done) == run.machine[0].options.domain,
{
    assert forall|q: int| #[trigger] (run.machine[0].map)(q) != Some(RegionStatus::Bad) by {}
    law_run_without_errors_completes(run, map);
    law_plain_copy_reports_what_it_wrote(run, prior, before, map);
    crate::effects::law_plain_copy_writes_what_it_copies(run, prior, run.machine.len() - 1);
    assert forall|q: int| #[trigger] region::status_in(before@, q) != Some(
        RegionStatus::Done,
    ) by {
        assert((before.statuses())(q) == (run.machine[0].map)(q));
    }
    region::lemma_no_bytes(before@, RegionStatus::Done);
}

/// What `Summary::completed` promises of a copy (not a refresh) over a known
/// domain: after an honest run that left neither untried nor bad bytes, the
/// target holds every byte of the source's domain.
pub proof fn law_completed_copy_holds_the_source(
    run: crate::world::Run,
    prior: Seq<Seq<char>>,
    map: RegionMap,
    p: int,
)
    requires
        run.is_run(),
        crate::world::kept(run.machine[0], run.world[0], prior),
        !run.machine[0].options.refresh,
        run.machine.last().options.domain > 0,
        map.wf(),
        map.statuses() == run.machine.last().map,
        region::bytes_in(map@, RegionStatus::Untried) == 0,
        state::bad_count(map@) == 0,
        0 <= p < run.machine.last().options.domain,
    ensures
        0 <= p < run.world[0].source.len(),
        (run.world.last().target)(p) == run.world[0].source[p],
{
    let last = run.machine.last();
    assert(run.machine[run.machine.len() - 1].wf());
    assert forall|q: int| (#[trigger] map.status_at(q) is Some) == (0 <= q
        < last.options.domain) by {
        assert(map.status_at(q) == (map.statuses())(q));
        assert((last.map)(q) is Some <==> 0 <= q < last.options.domain);
    }
    law_completed_means_all_done(map, last.options.domain, p);
    assert(map.status_at(p) == (map.statuses())(p));
    crate::world::law_complete_copy_is_a_copy(run, prior, p);
}

/// A failure is reported with the place where it happened: a read with its offset in the
/// source, a write with its length and its offset in the target.
#[verifier::rlimit(40)]
pub proof fn law_failures_name_the_place(action: Action)
    ensures
        action matches Action::ReadSource { offset, want, request } ==> text::begins(
            failure_text(action),
            "reading at source offset "@,
        ) && text::tells(failure_text(action), seq![text::decimal(offset as nat)]),
        action matches Action::Write { offset, length } ==> text::begins(
            failure_text(action),
            "writing "@,
        ) && text::tells(
            failure_text(action),
            seq![text::decimal(length as nat), "target offset"@, text::decimal(offset as nat)],
        ),
        action == Action::Flush ==> failure_text(action) == "saving the state"@,
{
    let t = failure_text(action);
    let none = Seq::<char>::empty();
    let nothing = Seq::<Seq<char>>::empty();
    assert(text::tells(none, nothing));
    match action {
        Action::ReadSource { offset, want, request } => {
            let a = "reading at source offset "@;
            let at = text::decimal(offset as nat);
            text::lemma_told(none, nothing, a, at, none);
            assert(none + a =~= a);
            assert(nothing.push(at) =~= seq![at]);
            assert(t.take(a.len() as int) =~= a);
        },
        Action::Write { offset, length } => {
            reveal_strlit(" bytes at target offset ");
            reveal_strlit("target offset");
            let a = "writing "@;
            let n = text::decimal(length as nat);
            let at = text::decimal(offset as nat);
            let middle = " bytes at target offset "@;
            let place = "target offset"@;
            text::lemma_told(none, nothing, a, n, none);
            assert(none + a =~= a);
            let p1 = nothing.push(n);
            let t1 = a + n;
            let before = middle.take(10);
            let space = middle.skip(23);
            text::lemma_told(t1, p1, before, place, none);
            assert(middle =~= before + place + space);
            let p2 = p1.push(place);
            let t2 = t1 + before + place;
            text::lemma_told(t2, p2, space, at, none);
            assert(t2 + space + at =~= t);
            assert(p2.push(at) =~= seq![n, place, at]);
            assert(t.take(a.len() as int) =~= a);
        },
        _ => {},
    }
}

/// The state file of a regular target stands beside it; that of a device, which lives in a
/// directory that does not outlast a reboot, in the current directory, under the name of
/// the device.
pub proof fn law_where_the_state_is(directory: Seq<char>, name: Seq<char>, target: Seq<char>)
    requires
        path::is_component(name),
        name != ".."@,
    ensures
        state_path_text(target, false) == target + ".state"@,
        state_path_text(directory + "/"@ + name, true) == name + ".state"@,
        state_path_text(directory + "/"@ + name, false) == directory + "/"@ + name + ".state"@,
{
    path::law_file_names(directory, name);
}

/// The target is the one the command line names; where it names none, there is one default
/// for every source.
pub proof fn law_which_target(cli: Cli, other: Cli)
    ensures
        cli.target matches Some(target) ==> target_text(cli) == target@,
        cli.target is None && other.target is None ==> target_text(cli) == target_text(other),
        cli.target is None ==> target_text(cli) == "grave.img"@,
{
}

} // verus!
