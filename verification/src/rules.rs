//! The rules of a run, in the user's terms: what the flags come to, what is refused,
//! and what a run goes over.

use crate::cli::Cli;
use crate::copier::{Action, CopyModel, ReplyModel, Signals};
use crate::engine;
use crate::engine::{DirectMode, TargetFacts};
use crate::error::ErrorView;
use crate::hash;
use crate::params::ParamsView;
use crate::path;
use crate::plan;
use crate::region;
use crate::region::{RegionMap, RegionStatus};
use crate::safety::{FileFacts, FileKind};
use crate::state;
use crate::state::{Hashes, StateFile, VerifyView};
use vstd::arithmetic::power2;
use vstd::prelude::*;

verus! {

// ---------------------------------------------------------------------------
// Flags and recorded parameters.

/// The command line wins over the state, and the state over the default.
pub open spec fn settled<T>(flag: Option<T>, recorded: Option<T>, otherwise: T) -> T {
    if flag is Some {
        flag->0
    } else if recorded is Some {
        recorded->0
    } else {
        otherwise
    }
}

/// Parameters that are accepted are the given ones, else the recorded ones, else the
/// defaults: the detected sector size, transfers of 1 MiB, the whole source from its
/// start to the start of the target, and neither mode.
pub proof fn law_flags_win_over_the_state(
    cli: Cli,
    target: Seq<char>,
    prior: Option<ParamsView>,
    detected_sector: u64,
    p: ParamsView,
)
    requires
        engine::params_for(cli, target, prior, detected_sector) == Ok::<ParamsView, ErrorView>(p),
    ensures
        p.source == cli.source@,
        p.target == target,
        prior is None ==> {
            &&& p.sector_size == settled(cli.sector_size, None, detected_sector)
            &&& p.transfer_size == settled(cli.transfer_size, None, 1048576)
            &&& p.skip == settled(cli.skip, None, 0)
            &&& p.seek == settled(cli.seek, None, 0)
            &&& p.length == settled(cli.length, None, 0)
            &&& p.skip_unchanged == settled(cli.skip_unchanged, None, false)
            &&& p.skip_zeros == settled(cli.skip_zeros, None, false)
        },
        prior matches Some(q) ==> {
            &&& p.sector_size == q.sector_size
            &&& p.transfer_size == settled(cli.transfer_size, Some(q.transfer_size), 0)
            &&& p.skip == q.skip
            &&& p.seek == q.seek
            &&& p.length == settled(cli.length, Some(q.length), 0)
            &&& p.skip_unchanged == settled(cli.skip_unchanged, Some(q.skip_unchanged), false)
            &&& p.skip_zeros == settled(cli.skip_zeros, Some(q.skip_zeros), false)
        },
{
}

/// A resume must describe the same copy: a state is in conflict with the command line if
/// it records another target, or if a sector size, a skip or a seek is given that is not
/// the recorded one. Nothing else is a conflict, another source path neither.
pub proof fn law_state_must_match_the_command(
    cli: Cli,
    target: Seq<char>,
    q: ParamsView,
    detected_sector: u64,
)
    requires
        settled(cli.sector_size, Some(q.sector_size), 0) > 0,
        settled(cli.transfer_size, Some(q.transfer_size), 0) > 0,
    ensures
        (engine::params_for(cli, target, Some(q), detected_sector) matches Err(
            ErrorView::StateConflict(text),
        )) <==> {
            ||| path::is_absolute(q.target) != path::is_absolute(target)
            ||| path::components(q.target) != path::components(target)
            ||| cli.sector_size is Some && cli.sector_size != Some(q.sector_size)
            ||| cli.skip is Some && cli.skip != Some(q.skip)
            ||| cli.seek is Some && cli.seek != Some(q.seek)
        },
{
}

/// Sizes and offsets must make sense: parameters are invalid exactly if the sector or the
/// transfer size comes to zero, and else (without a conflict) misaligned exactly if skip
/// or seek is not a whole number of sectors. In no other case are they refused.
pub proof fn law_sizes_must_make_sense(
    cli: Cli,
    target: Seq<char>,
    prior: Option<ParamsView>,
    detected_sector: u64,
)
    ensures
        ({
            let (sector, transfer, skip, seek) = match prior {
                Some(q) => (
                    settled(cli.sector_size, Some(q.sector_size), 0),
                    settled(cli.transfer_size, Some(q.transfer_size), 0),
                    settled(cli.skip, Some(q.skip), 0),
                    settled(cli.seek, Some(q.seek), 0),
                ),
                None => (
                    settled(cli.sector_size, None, detected_sector),
                    settled(cli.transfer_size, None, 1048576),
                    settled(cli.skip, None, 0),
                    settled(cli.seek, None, 0),
                ),
            };
            let r = engine::params_for(cli, target, prior, detected_sector);
            let conflict = r matches Err(ErrorView::StateConflict(text));
            &&& (r matches Err(ErrorView::InvalidSize(text))) <==> sector == 0 || transfer == 0
            &&& (r matches Err(ErrorView::Misaligned(text))) <==> sector > 0 && transfer > 0
                && !conflict && (skip as int % sector as int != 0 || seek as int % sector as int
                != 0)
            &&& r is Ok <==> sector > 0 && transfer > 0 && !conflict && skip as int % sector as int
                == 0 && seek as int % sector as int == 0
            &&& conflict ==> prior is Some
        }),
{
}

// ---------------------------------------------------------------------------
// Refusals.

/// Both paths lead to one file.
pub open spec fn leads_to_one_file(a: Option<FileFacts>, b: Option<FileFacts>) -> bool {
    a is Some && b is Some && a->0.device == b->0.device && a->0.inode == b->0.inode
}

/// There is something at the target that would be lost: anything but an empty regular
/// file.
pub open spec fn would_be_lost(target: Option<FileFacts>) -> bool {
    target is Some && (target->0.kind != FileKind::Regular || target->0.length > 0)
}

/// A run with good parameters is refused, before anything is written, exactly if source and
/// target are one file, or the target would be lost and neither a state nor `--force` nor
/// `--refresh` consents to that, or the target is mounted and the user did not say to go
/// ahead. `--force` does not help against the first and the last.
pub proof fn law_what_is_refused(
    cli: Cli,
    target: Seq<char>,
    prior: Option<ParamsView>,
    detected_sector: u64,
    facts: TargetFacts,
)
    requires
        engine::params_for(cli, target, prior, detected_sector) is Ok,
    ensures
        ({
            let r = plan::refusal(cli, target, prior, detected_sector, facts);
            let same = leads_to_one_file(facts.source, facts.target);
            let lost = would_be_lost(facts.target) && prior is None && !cli.force && !cli.refresh;
            let mounted = facts.target_mounted && !cli.allow_mounted;
            &&& r is None <==> !same && !lost && !mounted
            &&& (r matches Some(ErrorView::TargetExists(path))) <==> lost && !same
            &&& r matches Some(ErrorView::TargetExists(path)) ==> path == target
            &&& same || (mounted && !lost) ==> r matches Some(ErrorView::Refused(text))
        }),
{
}

/// With bad parameters a run is refused for them.
pub proof fn law_bad_parameters_are_refused(
    cli: Cli,
    target: Seq<char>,
    prior: Option<ParamsView>,
    detected_sector: u64,
    facts: TargetFacts,
)
    requires
        engine::params_for(cli, target, prior, detected_sector) is Err,
    ensures
        plan::refusal(cli, target, prior, detected_sector, facts) == Some(
            engine::params_for(cli, target, prior, detected_sector)->Err_0,
        ),
{
}

/// The power of two that a power of two is.
proof fn lemma_power_of_two(n: int) -> (k: nat)
    requires
        engine::is_power_of_two(n),
    ensures
        n == power2::pow2(k),
    decreases n,
{
    power2::lemma2_to64();
    if n == 1 {
        0
    } else {
        let k = lemma_power_of_two(n / 2);
        power2::lemma_pow2_unfold(k + 1);
        k + 1
    }
}

proof fn lemma_pow2_is_power_of_two(k: nat)
    ensures
        engine::is_power_of_two(power2::pow2(k) as int),
    decreases k,
{
    power2::lemma2_to64();
    if k > 0 {
        lemma_pow2_is_power_of_two((k - 1) as nat);
        power2::lemma_pow2_unfold(k);
        power2::lemma_pow2_pos((k - 1) as nat);
    }
}

/// A number is taken for a power of two exactly if it is one.
pub proof fn law_powers_of_two(n: int)
    ensures
        engine::is_power_of_two(n) <==> exists|k: nat| n == #[trigger] power2::pow2(k),
{
    if engine::is_power_of_two(n) {
        let k = lemma_power_of_two(n);
        assert(n == power2::pow2(k));
    }
    if exists|k: nat| n == #[trigger] power2::pow2(k) {
        let k = choose|k: nat| n == #[trigger] power2::pow2(k);
        lemma_pow2_is_power_of_two(k);
    }
}

/// Direct reads are made exactly where they are asked for, the size of the source is known,
/// and the system has them; and a run with them is refused exactly if its sector size is
/// not a power of two.
pub proof fn law_direct_reads(wanted: bool, domain: u64, supported: bool, sector: u64)
    ensures
        engine::direct_choice(wanted, domain, supported) == DirectMode::On <==> wanted && domain > 0
            && supported,
        engine::direct_choice(wanted, domain, supported) == DirectMode::Off <==> !wanted,
        engine::direct_choice(wanted, domain, supported) == DirectMode::NotSeekable <==> wanted
            && domain == 0,
        engine::direct_conflict(wanted, domain, supported, sector) is Some <==> wanted && domain > 0
            && supported && !(exists|k: nat| sector == #[trigger] power2::pow2(k)),
{
    law_powers_of_two(sector as int);
}

/// With its target open, a run is refused exactly if a block device is too small for the
/// copy, if a refresh has no known size to work on, or if direct reads do not suit the
/// sector size.
pub proof fn law_what_is_refused_late(
    cli: Cli,
    target: Seq<char>,
    params: ParamsView,
    domain: u64,
    capacity: Option<u64>,
    supports_direct: bool,
)
    ensures
        plan::late_refusal(cli, target, params, domain, capacity, supports_direct) is Some <==> {
            ||| domain > 0 && capacity is Some && capacity->0 < params.seek + domain
            ||| cli.refresh && domain == 0
            ||| cli.direct && domain > 0 && supports_direct && !(exists|k: nat|
                params.sector_size == #[trigger] power2::pow2(k))
        },
{
    law_powers_of_two(params.sector_size as int);
}

/// A manifest is refused exactly if it is recorded with another algorithm, if a chunk size
/// is given that is not the recorded one, or if the chunk size is not a positive multiple
/// of the sector size. A recorded grid stays; a fresh one is as given, or of 64 MiB.
pub proof fn law_manifest_grid(cli_chunk: Option<u64>, prior: Option<&Hashes>, sector: u64)
    requires
        sector > 0,
    ensures
        ({
            let size = match prior {
                Some(h) => h.chunk_size,
                None => settled(cli_chunk, None, 67108864),
            };
            &&& engine::hashing_conflict(cli_chunk, prior, sector) is Some <==> {
                ||| prior matches Some(h) && h.algorithm@ != "blake3"@
                ||| prior matches Some(h) && cli_chunk is Some && cli_chunk != Some(h.chunk_size)
                ||| size == 0
                ||| size as int % sector as int != 0
            }
            &&& forall|domain: u64|
                #![trigger engine::starting_hasher(cli_chunk, prior, domain)]
                {
                    let h = engine::starting_hasher(cli_chunk, prior, domain);
                    &&& h.chunk_size == size
                    &&& h.domain == domain
                    &&& h.run.len() == 0
                    &&& prior matches Some(old) ==> h.chunks.len() == old.chunks@.len() && forall|
                        i: int,
                    |
                        0 <= i < h.chunks.len() ==> #[trigger] h.chunks[i] == old.chunks@[i]@
                    &&& prior is None ==> h.chunks.len() == 0
                }
        }),
{
}

// ---------------------------------------------------------------------------
// What a run goes over.

/// The copy is of all there is, within the limit: where the size of the source is known, a
/// byte counted from `skip` on is in the domain exactly if the source has it and a length
/// limit (`0`: none) does not leave it out. Where it is not known, the limit is all there
/// is to go by.
pub proof fn law_domain_is_what_was_asked_for(size: Option<u64>, skip: u64, length: u64, p: int)
    requires
        0 <= p,
    ensures
        0 <= engine::domain_of(size, skip, length) <= u64::MAX,
        size matches Some(n) ==> (p < engine::domain_of(size, skip, length) <==> skip + p < n && (
        length > 0 ==> p < length)),
        size is None ==> engine::domain_of(size, skip, length) == length,
{
}

/// Transfers are of whole sectors, at least one, and as large as asked for as far as that
/// goes.
pub proof fn law_transfers_are_whole_sectors(transfer_size: u64, sector: u64)
    requires
        sector > 0,
    ensures
        ({
            let t = engine::transfer_for(transfer_size, sector);
            &&& t % sector as int == 0
            &&& sector <= t
            &&& transfer_size >= sector ==> t <= transfer_size < t + sector
            &&& transfer_size < sector ==> t == sector
        }),
{
    let s = sector as int;
    hash::lemma_within_chunk(s, transfer_size as int, 0);
    let q = transfer_size as int / s;
    vstd::arithmetic::div_mod::lemma_mod_multiples_basic(q, s);
    vstd::arithmetic::div_mod::lemma_mod_self_0(s);
    if transfer_size >= sector {
        assert(q >= 1) by (nonlinear_arith)
            requires
                s > 0,
                transfer_size as int >= s,
                transfer_size as int == q * s + transfer_size as int % s,
                0 <= transfer_size as int % s < s,
        ;
        assert(q * s >= s) by (nonlinear_arith)
            requires
                q >= 1,
                s > 0,
        ;
    }
}

/// What a run goes over: over a known domain, every byte of it, with what a state records
/// of it, and the rest untried; a refresh opens again what is done, once nothing is left
/// untried from before, and leaves alone what is bad. Over an unknown domain, what is
/// recorded.
pub proof fn law_what_a_run_goes_over(
    regions: Option<Seq<region::Region>>,
    domain: u64,
    refresh: bool,
    p: int,
)
    ensures
        ({
            let recorded = match regions {
                Some(rs) => region::status_in(rs, p),
                None => None,
            };
            let r = plan::opened(regions, domain, refresh, p);
            let complete = forall|q: int|
                0 <= q < domain ==> (#[trigger] plan::opened(regions, domain, false, q)) != Some(
                    RegionStatus::Untried,
                );
            &&& domain > 0 && !(0 <= p < domain) ==> r is None
            &&& 0 <= p < domain ==> r is Some
            &&& 0 <= p < domain && recorded is None ==> r == Some(RegionStatus::Untried)
            &&& 0 <= p < domain && recorded is Some && recorded != Some(RegionStatus::Done) ==> r
                == recorded
            &&& 0 <= p < domain && recorded == Some(RegionStatus::Done) ==> r == if refresh
                && complete {
                Some(RegionStatus::Untried)
            } else {
                recorded
            }
            &&& domain == 0 && !refresh ==> r == recorded
        }),
{
    if domain > 0 {
        let complete = forall|q: int|
            0 <= q < domain ==> (#[trigger] plan::opened(regions, domain, false, q)) != Some(
                RegionStatus::Untried,
            );
        if plan::nothing_untried(regions, domain) {
            assert forall|q: int| 0 <= q < domain implies (#[trigger] plan::opened(
                regions,
                domain,
                false,
                q,
            )) != Some(RegionStatus::Untried) by {
                assert(engine::base_status(regions, domain, q) != Some(RegionStatus::Untried));
            }
        } else {
            let q = choose|q: int| #[trigger]
                engine::base_status(regions, domain, q) == Some(RegionStatus::Untried);
            assert(plan::opened(regions, domain, false, q) == Some(RegionStatus::Untried));
        }
    }
}

/// The copier works with what was settled: the extents, the sector grid and the modes are
/// those of the parameters, whether given or recorded; and it retries, refreshes and reads
/// directly exactly if it was told to. Only a refresh does not leave zeros out.
pub proof fn law_copier_works_with_what_was_settled(
    cli: Cli,
    params: ParamsView,
    existing: Option<&StateFile>,
    domain: u64,
    map: RegionMap,
    direct: bool,
)
    requires
        params.sector_size > 0,
    ensures
        ({
            let m = plan::first_state(cli, params, existing, domain, map, direct);
            let o = m.options;
            &&& o.skip == params.skip && o.seek == params.seek && o.length == params.length
            &&& o.domain == domain && o.sector == params.sector_size
            &&& o.retry == cli.retry && o.refresh == cli.refresh && o.direct == direct
            &&& o.skip_unchanged == params.skip_unchanged
            &&& o.skip_zeros <==> params.skip_zeros && !cli.refresh
            &&& o.transfer as int % o.sector as int == 0
            &&& o.transfer >= o.sector
            &&& params.transfer_size >= o.sector ==> o.transfer <= params.transfer_size
                < o.transfer + o.sector
            &&& m.bytes_written == match existing {
                Some(s) => s.progress.bytes_written as int,
                None => 0,
            }
            &&& m.bytes_written_this_run == 0 && m.bytes_skipped_by_hash == 0 && m.processed == 0
            &&& !m.wrote_this_run && !m.short && !m.readahead_off
            &&& forall|p: int| #[trigger] (m.map)(p) == map.status_at(p)
        }),
{
    law_transfers_are_whole_sectors(params.transfer_size, params.sector_size);
}

/// A refresh is to rewrite exactly the chunks that a verify pass listed which ran to its
/// end.
pub proof fn law_repairs_are_what_a_finished_pass_listed(section: Option<VerifyView>, start: u64)
    ensures
        state::repairs(section).contains(start) <==> section is Some && section->0.cursor is None
            && section->0.mismatches.contains(start),
{
}

/// What a run warns of.
pub proof fn law_what_is_warned_of(
    cli: Cli,
    params: ParamsView,
    prior: Option<ParamsView>,
    detected_sector: u64,
    facts: TargetFacts,
)
    ensures
        ({
            let n = plan::notes_for(cli, params, prior, detected_sector, facts);
            &&& n.other_source <==> prior is Some && !path::paths_equal(
                prior->0.source,
                params.source,
            )
            &&& n.other_sector <==> prior is Some && cli.sector_size is None && prior->0.sector_size
                != detected_sector
            &&& n.target_mounted <==> facts.target_mounted
            &&& n.source_mounted <==> facts.source_mounted
            &&& n.stale_zeros <==> params.skip_zeros && prior is None && would_be_lost(facts.target)
        }),
{
}

/// A source of unknown size is gone on with where its record ends: no byte of the record is
/// read again, and none behind it is left out.
#[verifier::rlimit(40)]
pub proof fn law_stream_goes_on_where_its_record_ends(
    cli: Cli,
    params: ParamsView,
    existing: Option<&StateFile>,
    map: RegionMap,
    direct: bool,
    flush_due: bool,
    p: int,
)
    requires
        map.wf(),
        plan::first_state(cli, params, existing, 0, map, direct).wf(),
    ensures
        ({
            let m = plan::first_state(cli, params, existing, 0, map, direct);
            let next = m.next(ReplyModel::Done, (Signals { interrupted: false, flush_due }));
            &&& map.status_at(p) is Some ==> p < m.pos
            &&& m.pos > 0 ==> map.status_at(m.pos - 1) is Some
            &&& next.action() matches Action::ReadSource { offset, want, request } ==> offset
                == params.skip + m.pos
            &&& m.pos < m.options.limit() ==> next.action() is ReadSource
        }),
{
    reveal(CopyModel::resume);
    reveal(CopyModel::settle);
    reveal(CopyModel::end_input);
    let rs = map@;
    if region::is_covered(rs, p) {
        let i = region::lemma_region_of(rs, p);
        if i < rs.len() - 1 {
            assert(rs[i].spec_end() <= rs[rs.len() - 1].start);
            assert(rs[rs.len() - 1].valid());
        }
    }
    if rs.len() > 0 {
        let last = rs.len() - 1;
        assert(rs[last].valid());
        assert(rs[last].has(rs[last].spec_end() - 1));
        region::lemma_status_of(rs, last, rs[last].spec_end() - 1);
    }
}

} // verus!
