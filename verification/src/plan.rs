//! The stages of a run around the copy: what is checked before the target is
//! opened, what is settled before the first byte is written, the copier the run
//! then drives, and what follows once that has stopped. A run that is refused is
//! refused before the first action, so it has not written anything.

use crate::cli::Cli;
use crate::copier::{Action, Copier, CopyModel, Outcome, ReplyModel, Signals};
use crate::effects;
use crate::engine;
use crate::engine::{DirectMode, TargetFacts};
use crate::error::{ErrorView, Result};
use crate::hash;
use crate::params::{ParamsView, RunParams};
use crate::path;
use crate::region;
use crate::region::{RegionMap, RegionStatus};
use crate::safety;
use crate::state;
use crate::state::{Hashes, StateFile, VerifyView};
use crate::world;
use crate::world::World;
use vstd::prelude::*;

verus! {

// ---------------------------------------------------------------------------
// Before the target is opened.

/// What is worth a warning, though no reason to refuse.
#[derive(Debug, Clone, Copy, PartialEq, Eq, Structural)]
pub struct Notes {
    /// The source path differs from the one recorded in the state file.
    pub other_source: bool,
    /// The source's sector size differs from the recorded one, which is kept.
    pub other_sector: bool,
    /// The target is mounted, and the user said to go ahead.
    pub target_mounted: bool,
    /// The source is mounted: the image may be inconsistent.
    pub source_mounted: bool,
    /// Zero blocks are left out although the target holds data that would show.
    pub stale_zeros: bool,
}

/// What is settled before the target is opened.
pub struct Checked {
    pub params: RunParams,
    pub notes: Notes,
}

/// Why a run is refused before its target is opened, if it is: its parameters do
/// not go together or with the resumed state, or the target must not be written.
pub open spec fn refusal(
    cli: Cli,
    target: Seq<char>,
    prior: Option<ParamsView>,
    detected_sector: u64,
    facts: TargetFacts,
) -> Option<ErrorView> {
    match engine::params_for(cli, target, prior, detected_sector) {
        Err(e) => Some(e),
        Ok(params) => engine::target_refusal(cli, target, prior is Some, facts),
    }
}

/// What a run that is not refused is to warn of.
pub open spec fn notes_for(
    cli: Cli,
    params: ParamsView,
    prior: Option<ParamsView>,
    detected_sector: u64,
    facts: TargetFacts,
) -> Notes {
    Notes {
        other_source: prior matches Some(prev) && !path::paths_equal(prev.source, params.source),
        other_sector: prior matches Some(prev) && cli.sector_size is None && detected_sector
            != prev.sector_size,
        target_mounted: facts.target_mounted,
        source_mounted: facts.source_mounted,
        stale_zeros: params.skip_zeros && engine::is_occupied(facts.target) && prior is None,
    }
}

/// Check a run before its target is opened.
pub fn check(
    cli: &Cli,
    target: &str,
    existing: Option<&StateFile>,
    detected_sector: u64,
    facts: TargetFacts,
) -> (r: Result<Checked>)
    ensures
        r is Err <==> refusal(
            *cli,
            target@,
            engine::prior_params(existing),
            detected_sector,
            facts,
        ) is Some,
        r matches Err(e) ==> refusal(
            *cli,
            target@,
            engine::prior_params(existing),
            detected_sector,
            facts,
        ) == Some(e@),
        r matches Ok(checked) ==> {
            &&& engine::params_for(
                *cli,
                target@,
                engine::prior_params(existing),
                detected_sector,
            ) == Ok::<ParamsView, ErrorView>(checked.params@)
            &&& checked.notes == notes_for(
                *cli,
                checked.params@,
                engine::prior_params(existing),
                detected_sector,
                facts,
            )
        },
{
    let params = match engine::resolve_params(cli, target.to_owned(), existing, detected_sector) {
        Err(e) => {
            return Err(e);
        },
        Ok(params) => params,
    };
    let (occupied, mounts) = match engine::guard_target(cli, target, existing.is_some(), facts) {
        Err(e) => {
            return Err(e);
        },
        Ok(passed) => passed,
    };
    let (other_source, other_sector) = match existing {
        Some(s) => (
            !path::same_path(s.params.source.as_str(), params.source.as_str()),
            engine::sector_size_differs(cli, &s.params, detected_sector),
        ),
        None => (false, false),
    };
    let notes = Notes {
        other_source,
        other_sector,
        target_mounted: mounts.target,
        source_mounted: mounts.source,
        stale_zeros: engine::skip_zeros_is_risky(params.skip_zeros, occupied, existing.is_some()),
    };
    Ok(Checked { params, notes })
}

// ---------------------------------------------------------------------------
// Before the first byte is written.

/// What is settled before the first byte is written.
pub struct Prepared {
    /// Length of the copy domain, `0` when it is unknown.
    pub domain: u64,
    pub map: RegionMap,
    /// Whether a refresh has re-opened a completed map.
    pub reopened: bool,
    pub direct: DirectMode,
}

/// Why a run is refused with its target open, if it is: the target is too small,
/// a refresh has no known size to work on, or direct reads do not suit the
/// sector size.
pub open spec fn late_refusal(
    cli: Cli,
    target: Seq<char>,
    params: ParamsView,
    domain: u64,
    capacity: Option<u64>,
    supports_direct: bool,
) -> Option<ErrorView> {
    if domain > 0 && (capacity matches Some(c) && params.seek + domain > c) {
        Some(
            ErrorView::Refused(
                safety::too_small_text(target, capacity->0, (params.seek + domain) as u64),
            ),
        )
    } else if cli.refresh && domain == 0 {
        Some(ErrorView::Refused("--refresh needs a source with a detectable size"@))
    } else {
        engine::direct_conflict(cli.direct, domain, supports_direct, params.sector_size)
    }
}

/// A refresh has nothing left from an earlier run: no byte is untried.
pub open spec fn nothing_untried(regions: Option<Seq<region::Region>>, domain: u64) -> bool {
    forall|p: int|
        #[trigger] engine::base_status(regions, domain, p) != Some(RegionStatus::Untried)
}

/// The map a run starts from: as recorded, with what the state does not cover of
/// the domain untried. A refresh re-opens a completed map.
pub open spec fn opened(
    regions: Option<Seq<region::Region>>,
    domain: u64,
    refresh: bool,
    p: int,
) -> Option<RegionStatus> {
    let base = engine::base_status(regions, domain, p);
    if refresh && nothing_untried(regions, domain) && base == Some(RegionStatus::Done) {
        Some(RegionStatus::Untried)
    } else {
        base
    }
}

/// Settle the domain and the map of a run. `src_size` is the size of the source,
/// where it can be told, and `capacity` that of a block-device target.
pub fn prepare(
    cli: &Cli,
    target: &str,
    params: &RunParams,
    existing: Option<&StateFile>,
    src_size: Option<u64>,
    capacity: Option<u64>,
    supports_direct: bool,
) -> (r: Result<Prepared>)
    requires
        existing matches Some(s) ==> region::disjoint(s.regions@),
        params.seek + engine::domain_of(src_size, params.skip, params.length) <= u64::MAX,
    ensures
        ({
            let domain = engine::domain_of(src_size, params.skip, params.length) as u64;
            let why = late_refusal(*cli, target@, params@, domain, capacity, supports_direct);
            &&& r is Err <==> why is Some
            &&& r matches Err(e) ==> why == Some(e@)
            &&& r matches Ok(prepared) ==> {
                &&& prepared.domain == domain
                &&& prepared.map.wf()
                &&& forall|p: int| #[trigger]
                    prepared.map.status_at(p) == opened(
                        engine::prior_regions(existing),
                        domain,
                        cli.refresh,
                        p,
                    )
                &&& prepared.reopened == (cli.refresh && nothing_untried(
                    engine::prior_regions(existing),
                    domain,
                ))
                &&& prepared.direct == engine::direct_choice(cli.direct, domain, supports_direct)
            }
        }),
{
    let domain = engine::domain_length(src_size, params.skip, params.length);
    match safety::ensure_target_capacity(target, capacity, params.seek, domain) {
        Err(e) => {
            return Err(e);
        },
        Ok(()) => {},
    }
    let mut map = engine::initial_map(existing, domain);
    let ghost base = map;
    let ghost regions = engine::prior_regions(existing);
    proof {
        if nothing_untried(regions, domain) {
            assert forall|p: int| #[trigger] region::status_in(base@, p) != Some(
                RegionStatus::Untried,
            ) by {
                assert(base.status_at(p) == engine::base_status(regions, domain, p));
            }
            region::lemma_no_bytes(base@, RegionStatus::Untried);
        } else {
            let p = choose|p: int|
                #[trigger] engine::base_status(regions, domain, p) == Some(RegionStatus::Untried);
            assert(base.status_at(p) == engine::base_status(regions, domain, p));
            region::lemma_some_bytes(base@, RegionStatus::Untried, p);
        }
    }
    let mut reopened = false;
    if cli.refresh {
        match engine::prepare_refresh(&mut map, domain) {
            Err(e) => {
                return Err(e);
            },
            Ok(done) => {
                reopened = done;
            },
        }
    }
    proof {
        assert forall|p: int| #[trigger] map.status_at(p) == opened(
            regions,
            domain,
            cli.refresh,
            p,
        ) by {
            assert(base.status_at(p) == engine::base_status(regions, domain, p));
        }
    }
    match engine::direct_mode(cli.direct, domain, supports_direct, params.sector_size) {
        Err(e) => Err(e),
        Ok(direct) => Ok(Prepared { domain, map, reopened, direct }),
    }
}

// ---------------------------------------------------------------------------
// The first action.

/// The manifest of a resumed state, if it has one.
pub open spec fn prior_hashes(existing: Option<&StateFile>) -> Option<&Hashes> {
    match existing {
        Some(s) => match s.hashes {
            Some(hashes) => Some(&hashes),
            None => None,
        },
        None => None,
    }
}

/// The verify section of a resumed state, if it has one.
pub open spec fn prior_verify(existing: Option<&StateFile>) -> Option<VerifyView> {
    match existing {
        Some(s) => state::verify_view(s.verify),
        None => None,
    }
}

/// The bytes earlier runs have written.
pub open spec fn prior_written(existing: Option<&StateFile>) -> u64 {
    match existing {
        Some(s) => s.progress.bytes_written,
        None => 0,
    }
}

/// The copier of a run as it starts.
pub open spec fn first_state(
    cli: Cli,
    params: ParamsView,
    existing: Option<&StateFile>,
    domain: u64,
    map: RegionMap,
    direct: bool,
) -> CopyModel {
    CopyModel::start(
        engine::options_for(cli, params, domain, direct),
        map.statuses(),
        region::end_of(map@),
        engine::starting_hasher(cli.hash_chunk, prior_hashes(existing), domain),
        state::repairs(prior_verify(existing)),
        prior_written(existing) as int,
    )
}

/// Make the copier of a run: with the manifest and the counters of the resumed
/// state, and the chunks a finished verify pass found damaged up for repair.
/// `direct` says whether the source was opened for direct reads. `None` where the
/// extents do not fit in `u64` or the chunk numbers not in an index.
pub fn begin(
    cli: &Cli,
    params: &RunParams,
    existing: Option<&StateFile>,
    domain: u64,
    map: RegionMap,
    direct: bool,
) -> (r: Result<Option<Copier>>)
    requires
        params.sector_size > 0,
        map.wf(),
        domain > 0 ==> forall|p: int|
            (#[trigger] map.status_at(p) is Some) <==> 0 <= p < domain,
    ensures
        ({
            let why = engine::hashing_conflict(
                cli.hash_chunk,
                prior_hashes(existing),
                params.sector_size,
            );
            let first = first_state(*cli, params@, existing, domain, map, direct);
            &&& r is Err <==> why is Some
            &&& r matches Err(e) ==> why == Some(e@)
            &&& r matches Ok(copier) ==> (copier is Some <==> first.options.valid()
                && first.indexable())
            &&& r matches Ok(Some(copier)) ==> copier.wf() && copier@ == first
        }),
{
    let (hashes, repair, written): (Option<&Hashes>, Vec<u64>, u64) = match existing {
        Some(s) => (
            match &s.hashes {
                Some(hashes) => Some(hashes),
                None => None,
            },
            state::repair_list(&s.verify),
            s.progress.bytes_written,
        ),
        None => (None, Vec::new(), 0),
    };
    match engine::setup_hashing(cli.hash_chunk, hashes, params.sector_size, domain) {
        Err(e) => Err(e),
        Ok(hasher) => {
            let options = engine::copy_options(cli, params, domain, direct);
            proof {
                assert(repair@ =~= state::repairs(prior_verify(existing)));
            }
            Ok(engine::start_copy(options, map, hasher, repair, written))
        },
    }
}

// ---------------------------------------------------------------------------
// After the copy.

/// Which stages follow a copy that has stopped.
#[derive(Debug, Clone, Copy, PartialEq, Eq, Structural)]
pub struct AfterCopy {
    /// The gaps of the manifest are filled by reading finished chunks back.
    pub fill_gaps: bool,
    /// The target is verified.
    pub verify: bool,
    /// A verify pass was asked for, but has to wait for the copy.
    pub verify_skipped: bool,
}

/// What follows a copy: an interrupted one is to be resumed first, so its gaps
/// stay and nothing is verified.
pub fn after_copy(cli: &Cli, interrupted: bool) -> (r: AfterCopy)
    ensures
        r == (AfterCopy {
            fill_gaps: !interrupted,
            verify: cli.verify && !interrupted,
            verify_skipped: cli.verify && interrupted,
        }),
{
    AfterCopy {
        fill_gaps: !interrupted,
        verify: cli.verify && !interrupted,
        verify_skipped: cli.verify && interrupted,
    }
}

// ---------------------------------------------------------------------------
// Laws.

/// What is prepared can begin: the map covers exactly a known domain.
pub proof fn law_prepared_map_covers_the_domain(
    regions: Option<Seq<region::Region>>,
    domain: u64,
    refresh: bool,
    p: int,
)
    requires
        domain > 0,
    ensures
        opened(regions, domain, refresh, p) is Some <==> 0 <= p < domain,
{
}

/// A fresh copy has nothing to answer for: without a state, and with a target
/// that shows no stale data where zeros are left out, the promises of a run hold
/// at its start, whatever source and target hold.
pub proof fn law_fresh_run_starts_sound(
    cli: Cli,
    params: ParamsView,
    domain: u64,
    map: RegionMap,
    direct: bool,
    w: World,
)
    requires
        map.wf(),
        forall|p: int| #[trigger]
            map.status_at(p) == opened(None, domain, cli.refresh, p),
        first_state(cli, params, None, domain, map, direct).wf(),
        params.skip_zeros && !cli.refresh ==> forall|p: int|
            world::in_reach(domain, p) ==> #[trigger] world::not_stale(w, p),
    ensures
        world::kept(
            first_state(cli, params, None, domain, map, direct),
            w,
            Seq::<Seq<char>>::empty(),
        ),
{
    let m = first_state(cli, params, None, domain, map, direct);
    assert forall|p: int| #[trigger] (m.map)(p) != Some(RegionStatus::Done) by {
        assert((m.map)(p) == map.status_at(p));
    }
    world::law_start_keeps(m, w);
}

/// A state can be resumed from, also over another domain: with a changed length
/// limit, a source that has grown, or one whose size is not known (any more). The
/// map is the recorded one, clipped to the domain and extended by untried bytes,
/// and the promises of the run that left the state hold at the start of the next.
/// A refresh that went by the manifest is resumed as one, over the same domain and
/// with the digests it left; and to leave zeros out, what is new of the domain must
/// not show stale data.
pub proof fn law_resumed_run_starts_sound(
    m: CopyModel,
    w: World,
    prior: Seq<Seq<char>>,
    s: StateFile,
    cli: Cli,
    params: ParamsView,
    domain: u64,
    map: RegionMap,
    direct: bool,
    after: World,
)
    requires
        m.wf(),
        world::kept(m, w, prior),
        world::later(w, after),
        forall|p: int| #[trigger] region::status_in(s.regions@, p) == (m.map)(p),
        map.wf(),
        forall|p: int| #[trigger]
            map.status_at(p) == opened(Some(s.regions@), domain, cli.refresh, p),
        first_state(cli, params, Some(&s), domain, map, direct).wf(),
        m.options.refresh && !m.options.skip_unchanged ==> {
            &&& cli.refresh
            &&& !params.skip_unchanged
            &&& domain == m.options.domain
            &&& s.hashes matches Some(h) && h.chunk_size == m.hasher.chunk_size && forall|i: int|
                0 <= i && hash::digest_at(m.hasher.chunks, i).len() > 0
                    ==> #[trigger] hash::digest_at(hash::texts(h.chunks@), i) == hash::digest_at(
                    m.hasher.chunks,
                    i,
                )
            &&& forall|start: u64| #[trigger]
                state::repairs(prior_verify(Some(&s))).contains(start) ==> m.repair.contains(start)
        },
        params.skip_zeros && !cli.refresh ==> m.options.skip_zeros && forall|p: int|
            world::in_reach(domain, p) && !world::in_reach(m.options.domain, p)
                ==> #[trigger] world::not_stale(after, p),
    ensures
        ({
            let first = first_state(cli, params, Some(&s), domain, map, direct);
            &&& world::kept(first, after, first.hasher.chunks)
            &&& !cli.refresh ==> forall|p: int| #[trigger]
                (first.map)(p) == (if !world::in_reach(domain, p) && domain > 0 {
                    None
                } else if (m.map)(p) is None && domain > 0 {
                    Some(RegionStatus::Untried)
                } else {
                    (m.map)(p)
                })
        }),
{
    let first = first_state(cli, params, Some(&s), domain, map, direct);
    assert forall|p: int| #[trigger]
        (first.map)(p) == opened(Some(s.regions@), domain, cli.refresh, p) by {
        assert(map.status_at(p) == (map.statuses())(p));
    }
    assert forall|p: int| #[trigger] (first.map)(p) == Some(RegionStatus::Done) implies (m.map)(p)
        == Some(RegionStatus::Done) by {
        assert(region::status_in(s.regions@, p) == (m.map)(p));
    }
    if !cli.refresh {
        assert forall|p: int| #[trigger]
            (first.map)(p) == (if !world::in_reach(domain, p) && domain > 0 {
                None
            } else if (m.map)(p) is None && domain > 0 {
                Some(RegionStatus::Untried)
            } else {
                (m.map)(p)
            }) by {
            assert(region::status_in(s.regions@, p) == (m.map)(p));
        }
    }
    world::law_resumed_run_starts_sound(m, w, prior, first, after);
}

/// Re-running a completed copy does nothing. The state is that of an earlier run
/// of the same command, not a refresh, with the manifest such a run saves and
/// every byte of a known domain done.
/// Then the command is accepted again, the occupied target without `--force`
/// too; the first step ends the run, with source and target as they were and not
/// a byte written; and the map says of the whole domain what it said before:
/// that it is done.
pub proof fn law_rerunning_a_completed_copy_is_a_noop(
    cli: Cli,
    target: Seq<char>,
    earlier: Option<ParamsView>,
    earlier_hashes: Option<&Hashes>,
    detected_sector: u64,
    s: StateFile,
    detected_later: u64,
    facts: TargetFacts,
    domain: u64,
    before: RegionMap,
    direct: bool,
    signals: Signals,
    after: RegionMap,
    w: World,
)
    requires
        !cli.refresh,
        domain > 0,
        engine::params_for(cli, target, earlier, detected_sector) == Ok::<ParamsView, ErrorView>(
            s.params@,
        ),
        engine::hashing_conflict(cli.hash_chunk, earlier_hashes, s.params.sector_size) is None,
        s.hashes matches Some(h) && h.algorithm@ == hash::ALGORITHM@ && h.chunk_size
            == engine::chunk_size_for(cli.hash_chunk, earlier_hashes),
        forall|p: int|
            0 <= p < domain ==> #[trigger] region::status_in(s.regions@, p) == Some(
                RegionStatus::Done,
            ),
        before.wf(),
        forall|p: int| #[trigger]
            before.status_at(p) == opened(Some(s.regions@), domain, false, p),
        after.wf(),
        after.statuses() == first_state(cli, s.params@, Some(&s), domain, before, direct).next(
            ReplyModel::Done,
            signals,
        ).map,
    ensures
        engine::params_for(cli, target, Some(s.params@), detected_later) == Ok::<
            ParamsView,
            ErrorView,
        >(s.params@),
        refusal(cli, target, Some(s.params@), detected_later, facts) is None <==> !(
        safety::same_file(facts.source, facts.target) || facts.target_mounted
            && !cli.allow_mounted),
        engine::hashing_conflict(
            cli.hash_chunk,
            prior_hashes(Some(&s)),
            s.params.sector_size,
        ) is None,
        ({
            let first = first_state(cli, s.params@, Some(&s), domain, before, direct);
            let last = first.next(ReplyModel::Done, signals);
            &&& last.action() == Action::Stop(Outcome::Finished)
            &&& w.after(first, ReplyModel::Done) == w
            &&& last.bytes_written == s.progress.bytes_written
            &&& last.bytes_written_this_run == 0
            &&& !last.wrote_this_run
            &&& last.hasher == first.hasher
        }),
        after@ == before@,
        region::bytes_in(after@, RegionStatus::Done) == domain,
        region::bytes_in(after@, RegionStatus::Untried) == 0,
        state::bad_count(after@) == 0,
{
    engine::law_same_command_resumes(cli, target, earlier, detected_sector, detected_later);
    let first = first_state(cli, s.params@, Some(&s), domain, before, direct);
    assert forall|p: int| #[trigger] (first.map)(p) is Some implies (first.map)(p) == Some(
        RegionStatus::Done,
    ) by {
        assert(before.status_at(p) == (before.statuses())(p));
        assert(region::status_in(s.regions@, p) == region::status_in(s.regions@, p));
    }
    effects::law_completed_copy_has_nothing_to_do(first, signals);
    assert forall|p: int| #[trigger] region::status_in(after@, p) == region::status_in(
        before@,
        p,
    ) by {
        assert((after.statuses())(p) == (before.statuses())(p));
    }
    region::law_normal_form_is_unique(after@, before@);
    assert forall|p: int| (#[trigger] before.status_at(p) is Some) == (0 <= p < domain) by {
        law_prepared_map_covers_the_domain(Some(s.regions@), domain, false, p);
    }
    assert forall|p: int| 0 <= p < domain implies #[trigger] before.status_at(p) == Some(
        RegionStatus::Done,
    ) by {
        assert(region::status_in(s.regions@, p) == Some(RegionStatus::Done));
    }
    engine::law_all_done_means_completed(before, domain);
}

/// The same of a source of unknown size, copied to its end or its length limit:
/// the run ends with the first step, or with the first read if that finds no more
/// to copy, with map, manifest and counters as they were.
pub proof fn law_rerunning_a_completed_stream_is_a_noop(
    cli: Cli,
    s: StateFile,
    before: RegionMap,
    direct: bool,
    signals: Signals,
    more: Signals,
    w: World,
)
    requires
        !signals.interrupted,
        before.wf(),
        forall|p: int| #[trigger] before.status_at(p) == opened(Some(s.regions@), 0, false, p),
        forall|p: int| #[trigger]
            region::status_in(s.regions@, p) is Some ==> region::status_in(s.regions@, p) == Some(
                RegionStatus::Done,
            ),
        first_state(cli, s.params@, Some(&s), 0, before, direct).wf(),
    ensures
        ({
            let first = first_state(cli, s.params@, Some(&s), 0, before, direct);
            let asked = first.next(ReplyModel::Done, signals);
            let end = ReplyModel::Source(Seq::empty());
            let last = if first.pos < first.stop {
                asked.next(end, more)
            } else {
                asked
            };
            &&& last.action() == Action::Stop(Outcome::Finished)
            &&& w.after(first, ReplyModel::Done).after(asked, end) == w
            &&& last.map == first.map
            &&& last.hasher == first.hasher
            &&& last.bytes_written == s.progress.bytes_written
            &&& last.bytes_written_this_run == 0
            &&& !last.wrote_this_run
        }),
        region::bytes_in(before@, RegionStatus::Untried) == 0,
        state::bad_count(before@) == 0,
{
    let first = first_state(cli, s.params@, Some(&s), 0, before, direct);
    effects::law_completed_stream_has_nothing_to_do(first, signals, more);
    assert forall|p: int| #[trigger] region::status_in(before@, p) is Some implies region::status_in(
        before@,
        p,
    ) == Some(RegionStatus::Done) by {
        assert(before.status_at(p) == region::status_in(before@, p));
    }
    region::lemma_no_bytes(before@, RegionStatus::Untried);
    state::lemma_no_bad_regions(before);
}

} // verus!
