//! What the program promises, from the command line on.
//!
//! A run goes through [`crate::plan`] to the copier, and the copier's actions are
//! carried out on the two files. The laws here take all of that together: they
//! speak of flags and recorded parameters on one side and of the bytes of source
//! and target on the other.

use crate::cli::Cli;
use crate::copier;
use crate::copier::{Action, At, CopyModel, JobModel, Outcome, Pass, ReplyModel, Signals};
use crate::effects;
use crate::engine;
use crate::error::ErrorView;
use crate::gapfill;
use crate::hash;
use crate::hash::HasherModel;
use crate::media;
use crate::media::{GapMediaRun, Media, MediaRun, VerifyMediaRun};
use crate::params::ParamsView;
use crate::plan;
use crate::readback;
use crate::readback::ReadAction;
use crate::region;
use crate::region::{RegionMap, RegionStatus};
use crate::state;
use crate::state::StateFile;
use crate::time::Timestamp;
use crate::verify;
use crate::verify::{VerifyAt, VerifyModel};
use crate::world;
use vstd::prelude::*;

verus! {

/// A run as the driver starts and carries it out: the parameters are what the
/// command line and the state come to, the domain and the map are what is prepared
/// of them, the copier is the one that begins with these, and its actions are
/// carried out on the files. `size` is the size of the source, where it can be told.
pub struct Launch {
    pub cli: Cli,
    pub target: Seq<char>,
    pub existing: Option<StateFile>,
    pub detected_sector: u64,
    pub size: Option<u64>,
    pub params: ParamsView,
    pub domain: u64,
    pub map: RegionMap,
    pub direct: bool,
    pub run: MediaRun,
}

impl Launch {
    pub open spec fn prior(&self) -> Option<&StateFile> {
        match &self.existing {
            Some(s) => Some(s),
            None => None,
        }
    }

    pub open spec fn is_launch(self) -> bool {
        let prior = self.prior();
        &&& engine::params_for(
            self.cli,
            self.target,
            engine::prior_params(prior),
            self.detected_sector,
        ) == Ok::<ParamsView, ErrorView>(self.params)
        &&& self.domain == engine::domain_of(self.size, self.params.skip, self.params.length)
        &&& self.size matches Some(n) ==> n == self.run.media[0].source.len()
        &&& self.map.wf()
        &&& forall|p: int| #[trigger]
            self.map.status_at(p) == plan::opened(
                engine::prior_regions(prior),
                self.domain,
                self.cli.refresh,
                p,
            )
        &&& engine::hashing_conflict(
            self.cli.hash_chunk,
            plan::prior_hashes(prior),
            self.params.sector_size,
        ) is None
        &&& self.run.is_run()
        &&& self.run.machine[0] == plan::first_state(
            self.cli,
            self.params,
            prior,
            self.domain,
            self.map,
            self.direct,
        )
    }

    /// The files as the run found them.
    pub open spec fn before(self) -> Media {
        self.run.media[0]
    }

    /// The files as the run left them.
    pub open spec fn after(self) -> Media {
        self.run.media.last()
    }

    /// The driver was told that the copy is through.
    pub open spec fn finished(self) -> bool {
        self.run.machine.last().action() == Action::Stop(Outcome::Finished)
    }

    /// No read of the source gave a media error.
    pub open spec fn without_errors(self) -> bool {
        forall|i: int|
            0 <= i < self.run.replies.len() ==> !(#[trigger] self.run.replies[i] is MediaError)
    }
}

/// The value of a flag, where it is given.
pub open spec fn given(flag: Option<u64>, otherwise: u64) -> u64 {
    match flag {
        Some(value) => value,
        None => otherwise,
    }
}

/// Byte `p` counted from `skip` on is one the user asked for: the source has it, and
/// a length limit (`0`: none) does not leave it out.
pub open spec fn asked_for(source: Seq<u8>, skip: int, length: int, p: int) -> bool {
    &&& 0 <= p
    &&& skip + p < source.len()
    &&& length > 0 ==> p < length
}

// ---------------------------------------------------------------------------
// Imaging.

/// The target is blank from `seek` on, as `--skip-zeros` assumes.
pub open spec fn blank_from(media: Media, seek: int) -> bool {
    forall|q: int| seek <= q ==> #[trigger] (media.target)(q) == 0
}

proof fn lemma_fresh_start(l: Launch)
    requires
        l.is_launch(),
        l.existing is None,
        l.cli.skip_zeros == Some(true) && !l.cli.refresh ==> blank_from(
            l.before(),
            given(l.cli.seek, 0) as int,
        ),
    ensures
        l.run.in_domain().is_run(),
        world::kept(l.run.in_domain().machine[0], l.run.in_domain().world[0], Seq::empty()),
        l.params.skip == given(l.cli.skip, 0),
        l.params.seek == given(l.cli.seek, 0),
        l.params.length == given(l.cli.length, 0),
{
    media::lemma_run_in_domain(l.run);
    let w = l.run.in_domain().world[0];
    assert(l.run.machine[0].wf());
    assert forall|p: int|
        l.params.skip_zeros && !l.cli.refresh && world::in_reach(
            l.domain,
            p,
        ) implies #[trigger] world::not_stale(w, p) by {
        assert((l.before().target)(l.params.seek + p) == 0);
    }
    plan::law_fresh_run_starts_sound(l.cli, l.params, l.domain, l.map, l.direct, w);
}

/// A fresh copy without errors images its source: every byte that was asked for is on
/// the target, byte `skip + p` of the source at `seek + p`, and nothing else of the
/// target has changed. A copy that writes all it reads has written exactly that many
/// bytes.
pub proof fn law_fresh_copy_images_the_source(l: Launch)
    requires
        l.is_launch(),
        l.existing is None,
        !l.cli.refresh,
        l.size is Some,
        l.domain > 0,
        l.cli.skip_zeros == Some(true) ==> blank_from(l.before(), given(l.cli.seek, 0) as int),
        l.finished(),
        l.without_errors(),
    ensures
        ({
            let (skip, seek) = (given(l.cli.skip, 0) as int, given(l.cli.seek, 0) as int);
            let length = given(l.cli.length, 0) as int;
            let source = l.before().source;
            &&& forall|p: int| #[trigger]
                asked_for(source, skip, length, p) ==> (l.after().target)(seek + p) == source[skip
                    + p]
            &&& forall|q: int| #[trigger]
                (l.after().target)(q) == (l.before().target)(q) || asked_for(
                    source,
                    skip,
                    length,
                    q - seek,
                )
            &&& l.cli.skip_zeros != Some(true) && l.cli.skip_unchanged != Some(true) ==> ({
                let rest = source.len() - skip;
                l.run.machine.last().bytes_written_this_run == if 0 < length < rest {
                    length
                } else {
                    rest
                }
            })
        }),
{
    lemma_fresh_start(l);
    let inner = l.run.in_domain();
    let last = l.run.machine.len() - 1;
    let (skip, seek) = (l.params.skip as int, l.params.seek as int);
    let length = l.params.length as int;
    let source = l.before().source;
    let m = l.run.machine[0];
    assert(m.wf());
    assert forall|q: int| #[trigger] (m.map)(q) != Some(RegionStatus::Bad) by {
        assert(l.map.status_at(q) == (l.map.statuses())(q));
    }
    media::lemma_run_in_domain(l.run);
    media::lemma_source_is_long_enough(l.run, last);
    assert forall|p: int| #[trigger] asked_for(source, skip, length, p) implies (l.after().target)(
        seek + p,
    ) == source[skip + p] by {
        assert(0 <= p < l.domain);
        effects::law_run_without_errors_is_complete(inner, p);
        world::law_complete_copy_is_a_copy(inner, Seq::empty(), p);
        assert((inner.world[last].target)(p) == (l.run.media[last].target)(seek + p));
        assert(inner.world[0].source[p] == source[skip + p]);
    }
    assert forall|q: int| #[trigger]
        (l.after().target)(q) == (l.before().target)(q) || asked_for(
            source,
            skip,
            length,
            q - seek,
        ) by {
        if !asked_for(source, skip, length, q - seek) {
            media::law_target_is_left_alone_outside(l.run, last, q);
        }
    }
    if l.cli.skip_zeros != Some(true) && l.cli.skip_unchanged != Some(true) {
        let end = l.run.machine[last];
        effects::law_plain_copy_writes_what_it_copies(inner, Seq::empty(), last);
        assert forall|p: int| 0 <= p < l.domain implies #[trigger] (end.map)(p) == Some(
            RegionStatus::Done,
        ) by {
            effects::law_run_without_errors_is_complete(inner, p);
        }
        assert forall|p: int| 0 <= p < l.domain implies #[trigger] (m.map)(p) != Some(
            RegionStatus::Done,
        ) by {
            assert(l.map.status_at(p) == (l.map.statuses())(p));
        }
        region::lemma_tally_extremes(end.map, RegionStatus::Done, l.domain as int);
        region::lemma_tally_extremes(m.map, RegionStatus::Done, l.domain as int);
    }
}

// ---------------------------------------------------------------------------
// Resuming.

/// A record is true of the files: what it has as done is on the target, byte
/// `skip + p` of the source at `seek + p`.
pub open spec fn is_true_of(
    record: spec_fn(int) -> Option<RegionStatus>,
    skip: int,
    seek: int,
    media: Media,
) -> bool {
    forall|p: int| #[trigger]
        record(p) == Some(RegionStatus::Done) ==> 0 <= p && skip + p < media.source.len() && (
        media.target)(seek + p) == media.source[skip + p]
}

/// The regions of a state, byte by byte.
pub open spec fn recorded(s: StateFile) -> spec_fn(int) -> Option<RegionStatus> {
    |p: int| region::status_in(s.regions@, p)
}

/// From `seek` on the target shows nothing that a copy which leaves zeros out would
/// let stand: it reads as zero, or holds the source's byte already.
pub open spec fn shows_no_stale_data(media: Media, skip: int, seek: int) -> bool {
    forall|q: int|
        seek <= q ==> #[trigger] (media.target)(q) == 0 || (skip + (q - seek) < media.source.len()
            && (media.target)(q) == media.source[skip + (q - seek)])
}

/// What a copy (not a refresh) may start from: no state, or one that is true of the
/// files; and a target fit for leaving zeros out, where that is done.
pub open spec fn starts_true(l: Launch) -> bool {
    &&& !l.cli.refresh
    &&& l.existing matches Some(s) ==> is_true_of(
        recorded(s),
        s.params.skip as int,
        s.params.seek as int,
        l.before(),
    )
    &&& l.params.skip_zeros ==> shows_no_stale_data(
        l.before(),
        l.params.skip as int,
        l.params.seek as int,
    )
}

proof fn lemma_true_start(l: Launch)
    requires
        l.is_launch(),
        starts_true(l),
    ensures
        l.run.in_domain().is_run(),
        world::kept(
            l.run.in_domain().machine[0],
            l.run.in_domain().world[0],
            l.run.machine[0].hasher.chunks,
        ),
        l.existing matches Some(s) ==> l.params.skip == s.params.skip && l.params.seek
            == s.params.seek,
{
    media::lemma_run_in_domain(l.run);
    let w = l.run.in_domain().world[0];
    let m = l.run.machine[0];
    let (skip, seek) = (l.params.skip as int, l.params.seek as int);
    assert(m.wf());
    assert forall|p: int| #[trigger] (m.map)(p) == Some(RegionStatus::Done) implies world::faithful(
        m,
        w,
        m.hasher.chunks,
        p,
    ) by {
        assert(l.map.status_at(p) == (l.map.statuses())(p));
        let s = l.existing->0;
        assert(recorded(s)(p) == Some(RegionStatus::Done));
    }
    assert forall|p: int|
        m.options.skip_zeros && world::in_reach(m.options.domain, p) && #[trigger] (m.map)(p)
            != Some(RegionStatus::Done) implies world::not_stale(w, p) by {
        assert((l.before().target)(seek + p) == (l.before().target)(seek + p));
    }
    world::law_start_keeps(m, w);
}

/// Runs keep the record true: whatever state a copy is interrupted in, what its map
/// has as done is on the target, at the offsets the record says. A resume works at
/// the offsets of the run it resumes, on the same grid, whether they are given again
/// or not.
pub proof fn law_copy_keeps_the_record_true(l: Launch, k: int)
    requires
        l.is_launch(),
        starts_true(l),
        0 <= k < l.run.machine.len(),
    ensures
        is_true_of(
            l.run.machine[k].map,
            l.params.skip as int,
            l.params.seek as int,
            l.run.media[k],
        ),
        l.existing matches Some(s) ==> {
            &&& l.params.skip == s.params.skip
            &&& l.params.seek == s.params.seek
            &&& l.params.sector_size == s.params.sector_size
            &&& l.cli.skip is None || l.cli.skip == Some(s.params.skip)
            &&& l.cli.seek is None || l.cli.seek == Some(s.params.seek)
        },
        l.existing is None ==> l.params.skip == given(l.cli.skip, 0) && l.params.seek == given(
            l.cli.seek,
            0,
        ),
{
    lemma_true_start(l);
    let inner = l.run.in_domain();
    let chunks = l.run.machine[0].hasher.chunks;
    media::lemma_run_in_domain(l.run);
    world::law_run_keeps(inner, chunks, k);
    world::lemma_fixed(inner, k);
    media::lemma_options_stay(l.run, k);
    let (m, w) = (inner.machine[k], inner.world[k]);
    assert forall|p: int| #[trigger] (m.map)(p) == Some(RegionStatus::Done) implies 0 <= p
        && l.params.skip + p < l.run.media[k].source.len() && (l.run.media[k].target)(
        l.params.seek + p,
    ) == l.run.media[k].source[l.params.skip + p] by {
        assert(world::faithful(m, w, chunks, p));
    }
}

/// A copy that finishes without an error has every byte on the target that was asked
/// for: fresh, or resumed from a state that is true of the files, with a length that
/// may have changed, if the state has no bad region or this run is to retry them.
/// Nothing else of the target has changed.
pub proof fn law_copy_completes(l: Launch)
    requires
        l.is_launch(),
        starts_true(l),
        l.domain > 0,
        l.size is Some || l.params.skip + l.domain <= l.before().source.len(),
        l.existing matches Some(s) ==> l.cli.retry || forall|p: int| #[trigger]
            recorded(s)(p) != Some(RegionStatus::Bad),
        l.finished(),
        l.without_errors(),
    ensures
        ({
            let (skip, seek) = match l.existing {
                Some(s) => (s.params.skip as int, s.params.seek as int),
                None => (given(l.cli.skip, 0) as int, given(l.cli.seek, 0) as int),
            };
            let length = given(
                l.cli.length,
                match l.existing {
                    Some(s) => s.params.length,
                    None => 0,
                },
            ) as int;
            let source = l.before().source;
            &&& forall|p: int| #[trigger]
                asked_for(source, skip, length, p) ==> (l.after().target)(seek + p) == source[skip
                    + p]
            &&& forall|q: int| #[trigger]
                (l.after().target)(q) == (l.before().target)(q) || asked_for(
                    source,
                    skip,
                    length,
                    q - seek,
                )
        }),
{
    lemma_true_start(l);
    let inner = l.run.in_domain();
    let last = l.run.machine.len() - 1;
    let (skip, seek) = (l.params.skip as int, l.params.seek as int);
    let length = l.params.length as int;
    let source = l.before().source;
    let (m, end) = (l.run.machine[0], l.run.machine[last]);
    assert(m.wf());
    assert(end.wf());
    media::lemma_run_in_domain(l.run);
    media::lemma_options_stay(l.run, last);
    media::lemma_source_is_long_enough(l.run, last);
    law_copy_keeps_the_record_true(l, last);
    assert forall|p: int| 0 <= p < l.domain implies #[trigger] (end.map)(p) == Some(
        RegionStatus::Done,
    ) by {
        world::law_finished_run_tried_everything(inner, p);
        if l.cli.retry {
            effects::law_readable_source_leaves_nothing_bad(inner, p);
        } else {
            assert(l.map.status_at(p) == (l.map.statuses())(p));
            if let Some(s) = l.existing {
                assert(recorded(s)(p) != Some(RegionStatus::Bad));
            }
            effects::lemma_stays_good(inner, last, p);
        }
    }
    assert forall|p: int| #[trigger] asked_for(source, skip, length, p) implies (l.after().target)(
        seek + p,
    ) == source[skip + p] by {
        assert((end.map)(p) == Some(RegionStatus::Done));
    }
    assert forall|q: int| #[trigger]
        (l.after().target)(q) == (l.before().target)(q) || asked_for(
            source,
            skip,
            length,
            q - seek,
        ) by {
        if !asked_for(source, skip, length, q - seek) {
            media::law_target_is_left_alone_outside(l.run, last, q);
        }
    }
}

// ---------------------------------------------------------------------------
// Read errors.

/// Some read of this run, of no more than a sector and with byte `q` of the source in
/// it, gave a media error.
pub open spec fn failed_at(run: MediaRun, sector: int, q: int) -> bool {
    exists|k: int|
        0 <= k < run.replies.len() && #[trigger] run.replies[k] is MediaError && (
        run.machine[k].action() matches Action::ReadSource { offset, want, request } && offset <= q
            < offset + want && want <= sector)
}

proof fn lemma_bad_has_a_cause(run: MediaRun, i: int, p: int)
    requires
        run.is_run(),
        0 <= i < run.machine.len(),
        (run.machine[i].map)(p) == Some(RegionStatus::Bad),
    ensures
        (run.machine[0].map)(p) == Some(RegionStatus::Bad) || failed_at(
            run,
            run.machine[0].options.sector as int,
            run.machine[0].options.skip + p,
        ),
    decreases i,
{
    if i > 0 {
        let m = run.machine[i - 1];
        assert(m.wf());
        assert(run.step_ok(i - 1, run.replies[i - 1]));
        media::lemma_options_stay(run, i - 1);
        media::lemma_answer_is_expected(m, run.replies[i - 1]);
        effects::law_only_unreadable_sectors_turn_bad(
            m,
            run.replies[i - 1],
            run.signals[i - 1],
            p,
        );
        if (m.map)(p) == Some(RegionStatus::Bad) {
            lemma_bad_has_a_cause(run, i - 1, p);
        } else {
            assert(run.replies[i - 1] is MediaError);
        }
    }
}

/// A read error costs the sector it hit and nothing more: a copy that finishes has
/// every byte of a source that holds the whole domain on the target, but for those
/// that were bad before and those that a read of no more than a sector failed on.
pub proof fn law_only_unreadable_bytes_are_missing(l: Launch, p: int)
    requires
        l.is_launch(),
        starts_true(l),
        l.domain > 0,
        l.size is Some || l.params.skip + l.domain <= l.before().source.len(),
        l.finished(),
        asked_for(l.before().source, l.params.skip as int, l.params.length as int, p),
    ensures
        ({
            let source = l.before().source;
            ||| (l.after().target)(l.params.seek + p) == source[l.params.skip + p]
            ||| l.existing matches Some(s) && recorded(s)(p) == Some(RegionStatus::Bad)
            ||| failed_at(l.run, l.params.sector_size as int, l.params.skip + p)
        }),
{
    lemma_true_start(l);
    let inner = l.run.in_domain();
    let last = l.run.machine.len() - 1;
    let end = l.run.machine[last];
    assert(l.run.machine[0].wf());
    media::lemma_source_is_long_enough(l.run, last);
    law_copy_keeps_the_record_true(l, last);
    world::law_finished_run_tried_everything(inner, p);
    media::lemma_options_stay(l.run, last);
    if (end.map)(p) == Some(RegionStatus::Bad) {
        lemma_bad_has_a_cause(l.run, last, p);
        assert(l.map.status_at(p) == (l.map.statuses())(p));
    } else {
        assert((end.map)(p) == Some(RegionStatus::Done));
    }
}

/// `--retry` reads the bad regions again, whatever else is asked for: after a run with
/// it that finishes on a source that holds the whole domain, a byte is bad only if a
/// read of this run, of no more than a sector and with the byte in it, failed.
pub proof fn law_retry_reads_again(l: Launch, p: int)
    requires
        l.is_launch(),
        l.domain > 0,
        l.size is Some || l.params.skip + l.domain <= l.before().source.len(),
        l.finished(),
        l.cli.retry,
        (l.run.machine.last().map)(p) == Some(RegionStatus::Bad),
    ensures
        failed_at(l.run, l.params.sector_size as int, l.params.skip + p),
{
    let inner = l.run.in_domain();
    let last = l.run.machine.len() - 1;
    assert(l.run.machine[0].wf());
    assert(l.run.machine[last].wf());
    media::lemma_run_in_domain(l.run);
    media::lemma_source_is_long_enough(l.run, last);
    effects::law_retry_leaves_only_unreadable_sectors(inner, p);
    let k = choose|k: int|
        0 <= k < inner.replies.len() && inner.machine[k].pass == Pass::Retry && effects::unreadable(
            inner.machine[k],
            #[trigger] inner.replies[k],
            p,
        );
    media::lemma_options_stay(l.run, k);
    assert(l.run.replies[k] is MediaError);
}

/// Without `--retry` the bad regions are left alone: what a state has as bad is bad in
/// every state of the run, and the target is as it was there.
pub proof fn law_bad_regions_wait_for_a_retry(l: Launch, s: StateFile, k: int, p: int)
    requires
        l.is_launch(),
        starts_true(l),
        l.existing == Some(s),
        l.domain > 0,
        !l.cli.retry,
        recorded(s)(p) == Some(RegionStatus::Bad),
        0 <= p < l.domain,
        0 <= k < l.run.machine.len(),
    ensures
        (l.run.machine[k].map)(p) == Some(RegionStatus::Bad),
        (l.run.media[k].target)(s.params.seek + p) == (l.before().target)(s.params.seek + p),
{
    lemma_true_start(l);
    let inner = l.run.in_domain();
    media::lemma_run_in_domain(l.run);
    assert(l.map.status_at(p) == (l.map.statuses())(p));
    effects::law_bad_bytes_wait_for_a_retry(inner, l.run.machine[0].hasher.chunks, k, p);
    assert((inner.world[k].target)(p) == (l.run.media[k].target)(s.params.seek + p));
    assert((inner.world[0].target)(p) == (l.run.media[0].target)(s.params.seek + p));
}

// ---------------------------------------------------------------------------
// Verifying.

/// The manifest has a digest for chunk `i`.
pub open spec fn has_digest(chunks: Seq<Seq<char>>, i: int) -> bool {
    0 <= i < chunks.len() && chunks[i].len() > 0
}

/// Chunk `i` of `size` bytes lies in the domain and begins at `offset`.
pub open spec fn begins_at(size: int, domain: int, i: int, offset: int) -> bool {
    0 <= i && i * size < domain && offset == i * size
}

/// Some chunk of the domain begins at `offset`.
pub open spec fn is_chunk_start(size: int, domain: int, offset: int) -> bool {
    exists|i: int| #[trigger] begins_at(size, domain, i, offset)
}

/// Where chunk `i` of `size` bytes ends in a domain: at the next grid line, or with the
/// domain.
pub open spec fn chunk_stop(size: int, domain: int, i: int) -> int {
    if (i + 1) * size < domain {
        (i + 1) * size
    } else {
        domain
    }
}

/// The file `image` holds, from `seek` on, all of chunk `i` of a domain, with the digest
/// that is recorded for it.
pub open spec fn holds_chunk(
    image: Seq<u8>,
    seek: int,
    size: int,
    domain: int,
    chunks: Seq<Seq<char>>,
    i: int,
) -> bool {
    let end = seek + chunk_stop(size, domain, i);
    end <= image.len() && hash::blake3_hex(image.subrange(seek + i * size, end)) == chunks[i]
}

/// A finished pass over a known domain: it started afresh, and the driver was told that it
/// is through.
pub open spec fn is_finished_pass(
    run: VerifyMediaRun,
    image: Seq<u8>,
    seek: int,
    domain: int,
    transfer: int,
    hasher: HasherModel,
    now: Timestamp,
) -> bool {
    &&& domain > 0
    &&& run.is_run(image)
    &&& run.machine[0] == VerifyModel::start(seek, domain, transfer, hasher, None, now)
    &&& run.machine.last().action() == ReadAction::Stop(Outcome::Finished)
}

/// A finished pass was about to record its result just before.
proof fn lemma_finished_pass_was_saved(
    run: VerifyMediaRun,
    image: Seq<u8>,
    seek: int,
    domain: int,
    transfer: int,
    hasher: HasherModel,
    now: Timestamp,
) -> (k: int)
    requires
        is_finished_pass(run, image, seek, domain, transfer, hasher, now),
    ensures
        0 <= k,
        k + 2 == run.machine.len(),
        run.machine[k].at == VerifyAt::Finishing,
        run.machine.last() == (VerifyModel {
            at: VerifyAt::Stopped(Outcome::Finished),
            ..run.machine[k]
        }),
{
    let k = run.machine.len() - 2;
    assert(run.machine[run.machine.len() - 1].wf());
    if k >= 0 {
        assert(run.machine[k].wf());
        assert(run.step_ok(image, k, run.replies[k]));
    }
    k
}

/// What a pass that started afresh has found in a state of it.
proof fn lemma_pass_finds(
    run: VerifyMediaRun,
    image: Seq<u8>,
    seek: int,
    domain: int,
    transfer: int,
    hasher: HasherModel,
    now: Timestamp,
    i: int,
)
    requires
        is_finished_pass(run, image, seek, domain, transfer, hasher, now),
        0 <= i,
        i * hasher.chunk_size < domain,
    ensures
        has_digest(hasher.chunks, i) ==> (run.machine.last().mismatches.contains(
            (i * hasher.chunk_size) as u64,
        ) <==> !holds_chunk(image, seek, hasher.chunk_size, domain, hasher.chunks, i)),
        !has_digest(hasher.chunks, i) ==> !run.machine.last().mismatches.contains(
            (i * hasher.chunk_size) as u64,
        ),
        i * hasher.chunk_size <= u64::MAX,
{
    let k = lemma_finished_pass_was_saved(run, image, seek, domain, transfer, hasher, now);
    media::lemma_verify_in_domain(run, image);
    let target = media::image_from(image, seek);
    let inner = run.in_domain();
    verify::lemma_run_finds(inner, target, k);
    let m = run.machine[k];
    assert(m.wf());
    let size = hasher.chunk_size;
    let grid = hash::ceil_div(domain, size);
    hash::lemma_ceil_div(domain, size, i);
    hash::lemma_ceil_div(domain, size, grid - 1);
    assert((i + 1) * size == i * size + size) by (nonlinear_arith);
    assert(0 <= i * size) by (nonlinear_arith)
        requires
            0 <= i,
            0 <= size,
    ;
    assert(m.mismatches =~= verify::damaged(hasher, domain, target, 0, grid));
    verify::law_damaged_chunks_are_listed(hasher, domain, target, 0, grid, i);
    let stop = chunk_stop(size, domain, i);
    if seek + stop <= image.len() {
        assert(target.subrange(i * size, stop) =~= image.subrange(seek + i * size, seek + stop));
    }
}

/// A verify pass lists exactly what is wrong: when it is through, the offset of a chunk
/// is on its list if and only if the chunk has a digest in the manifest and the target
/// does not hold the chunk with that digest, at its place from `seek` on.
pub proof fn law_verify_lists_exactly_what_is_wrong(
    run: VerifyMediaRun,
    image: Seq<u8>,
    seek: int,
    domain: int,
    transfer: int,
    hasher: HasherModel,
    now: Timestamp,
)
    requires
        is_finished_pass(run, image, seek, domain, transfer, hasher, now),
    ensures
        forall|i: int|
            0 <= i && i * hasher.chunk_size < domain ==> (
            run.machine.last().mismatches.contains(#[trigger] ((i * hasher.chunk_size) as u64))
                <==> has_digest(hasher.chunks, i) && !holds_chunk(
                image,
                seek,
                hasher.chunk_size,
                domain,
                hasher.chunks,
                i,
            )),
        forall|k: int|
            0 <= k < run.machine.last().mismatches.len() ==> is_chunk_start(
                hasher.chunk_size,
                domain,
                #[trigger] run.machine.last().mismatches[k] as int,
            ),
{
    assert forall|i: int| 0 <= i && i * hasher.chunk_size < domain implies (
    run.machine.last().mismatches.contains(#[trigger] ((i * hasher.chunk_size) as u64))
        <==> has_digest(hasher.chunks, i) && !holds_chunk(
        image,
        seek,
        hasher.chunk_size,
        domain,
        hasher.chunks,
        i,
    )) by {
        lemma_pass_finds(run, image, seek, domain, transfer, hasher, now, i);
    }
    let f = lemma_finished_pass_was_saved(run, image, seek, domain, transfer, hasher, now);
    media::lemma_verify_in_domain(run, image);
    let target = media::image_from(image, seek);
    verify::lemma_run_finds(run.in_domain(), target, f);
    let m = run.machine[f];
    assert(m.wf());
    let (size, grid) = (hasher.chunk_size, hash::ceil_div(domain, hasher.chunk_size));
    assert(m.mismatches =~= verify::damaged(hasher, domain, target, 0, grid));
    assert forall|k: int| 0 <= k < run.machine.last().mismatches.len() implies is_chunk_start(
        size,
        domain,
        #[trigger] run.machine.last().mismatches[k] as int,
    ) by {
        let i = lemma_listed_is_a_chunk(hasher, domain, target, grid, k);
        hash::lemma_ceil_div(domain, size, i);
        assert(0 <= i * size) by (nonlinear_arith)
            requires
                0 <= i,
                0 <= size,
        ;
        assert(begins_at(size, domain, i, run.machine.last().mismatches[k] as int));
    }
}

proof fn lemma_listed_is_a_chunk(
    hasher: HasherModel,
    domain: int,
    target: Seq<u8>,
    to: int,
    k: int,
) -> (i: int)
    requires
        0 <= k < verify::damaged(hasher, domain, target, 0, to).len(),
    ensures
        0 <= i < to,
        verify::damaged(hasher, domain, target, 0, to)[k] == (i * hasher.chunk_size) as u64,
    decreases to,
{
    let before = verify::damaged(hasher, domain, target, 0, to - 1);
    if k < before.len() {
        lemma_listed_is_a_chunk(hasher, domain, target, to - 1, k)
    } else {
        to - 1
    }
}

/// A pass that was interrupted, or checkpointed, and goes on from what it saved finds what
/// one pass would have found: after a pass over a known domain was at a save and a second
/// one went on from there to its end, the list has exactly the chunks that have a digest
/// and that the target does not hold with it.
pub proof fn law_interrupted_verify_finds_the_same(
    first: VerifyMediaRun,
    k: int,
    saved: Timestamp,
    second: VerifyMediaRun,
    image: Seq<u8>,
    seek: int,
    domain: int,
    transfer: int,
    hasher: HasherModel,
    now: Timestamp,
    later: Timestamp,
    i: int,
)
    requires
        domain > 0,
        first.is_run(image),
        first.machine[0] == VerifyModel::start(seek, domain, transfer, hasher, None, now),
        0 <= k < first.machine.len(),
        first.machine[k].action() == ReadAction::Save,
        second.is_run(image),
        second.machine[0] == VerifyModel::start(
            seek,
            domain,
            transfer,
            hasher,
            Some(first.machine[k].section(saved)),
            later,
        ),
        second.machine.last().action() == ReadAction::Stop(Outcome::Finished),
        0 <= i,
        i * hasher.chunk_size < domain,
    ensures
        second.machine.last().mismatches.contains((i * hasher.chunk_size) as u64) <==> has_digest(
            hasher.chunks,
            i,
        ) && !holds_chunk(image, seek, hasher.chunk_size, domain, hasher.chunks, i),
{
    let target = media::image_from(image, seek);
    let size = hasher.chunk_size;
    let grid = hash::ceil_div(domain, size);
    media::lemma_verify_in_domain(first, image);
    verify::lemma_run_finds(first.in_domain(), target, k);
    let at = first.machine[k];
    assert(at.wf());
    assert(first.machine[0].wf());
    media::lemma_verify_in_domain(second, image);
    let f = second.machine.len() - 2;
    let n = second.machine.len() - 1;
    assert(second.machine[n].wf());
    assert(second.machine[0].wf());
    if f >= 0 {
        assert(second.machine[f].wf());
        assert(second.step_ok(image, f, second.replies[f]));
    }
    assert(second.machine[f].at == VerifyAt::Finishing);
    verify::lemma_run_finds(second.in_domain(), target, f);
    let m = second.machine[f];
    let before = if at.at == VerifyAt::Finishing {
        0
    } else {
        at.index
    };
    hash::lemma_chunks_ended_grow(size, domain, domain, domain);
    assert(at.mismatches =~= verify::damaged(hasher, domain, target, 0, at.index));
    verify::law_resumed_pass_lists_the_same(hasher, domain, target, 0, before, grid);
    assert(m.mismatches =~= verify::damaged(hasher, domain, target, 0, grid));
    hash::lemma_ceil_div(domain, size, i);
    hash::lemma_ceil_div(domain, size, grid - 1);
    assert((i + 1) * size == i * size + size) by (nonlinear_arith);
    assert(0 <= i * size) by (nonlinear_arith)
        requires
            0 <= i,
            0 <= size,
    ;
    verify::law_damaged_chunks_are_listed(hasher, domain, target, 0, grid, i);
    let stop = chunk_stop(size, domain, i);
    if seek + stop <= image.len() {
        assert(target.subrange(i * size, stop) =~= image.subrange(seek + i * size, seek + stop));
    }
}

/// The same of a source of unknown size: its manifest says how many chunks there are. The
/// target is whole if it holds each of them with its digest, in full but for the last
/// one, which may end where the target does.
pub proof fn law_verify_of_an_unknown_size(
    run: VerifyMediaRun,
    image: Seq<u8>,
    seek: int,
    transfer: int,
    hasher: HasherModel,
    now: Timestamp,
    i: int,
)
    requires
        run.is_run(image),
        run.machine[0] == VerifyModel::start(seek, 0, transfer, hasher, None, now),
        run.machine.last().action() == ReadAction::Stop(Outcome::Finished),
        0 <= i < hasher.chunks.len(),
    ensures
        ({
            let size = hasher.chunk_size;
            let (from, full) = (seek + i * size, seek + (i + 1) * size);
            let to = if i + 1 == hasher.chunks.len() && from < image.len() < full {
                image.len() as int
            } else {
                full
            };
            run.machine.last().mismatches.contains((i * size) as u64) <==> hasher.chunks[i].len()
                > 0 && !(to <= image.len() && hash::blake3_hex(image.subrange(from, to))
                == hasher.chunks[i])
        }),
{
    let target = media::image_from(image, seek);
    let size = hasher.chunk_size;
    let grid = hasher.chunks.len() as int;
    media::lemma_verify_in_domain(run, image);
    let f = run.machine.len() - 2;
    let n = run.machine.len() - 1;
    assert(run.machine[n].wf());
    assert(run.machine[0].wf());
    if f >= 0 {
        assert(run.machine[f].wf());
        assert(run.step_ok(image, f, run.replies[f]));
    }
    assert(run.machine[f].at == VerifyAt::Finishing);
    verify::lemma_run_finds(run.in_domain(), target, f);
    let m = run.machine[f];
    assert(m.mismatches =~= verify::damaged(hasher, 0, target, 0, grid));
    assert((i + 1) * size == i * size + size) by (nonlinear_arith);
    assert(0 <= i * size && (grid - 1) * size <= grid * size) by (nonlinear_arith)
        requires
            0 <= i,
            0 <= size,
    ;
    verify::law_damaged_chunks_are_listed(hasher, 0, target, 0, grid, i);
    let end = verify::end_on(hasher, 0, target, i);
    if seek + end <= image.len() {
        assert(target.subrange(i * size, end) =~= image.subrange(seek + i * size, seek + end));
    }
}

// ---------------------------------------------------------------------------
// Refreshing.

/// A refresh of a known domain from scratch: without a state, or with one that has left
/// nothing of the domain untried; and of a source that holds all of it.
pub open spec fn is_refresh(l: Launch) -> bool {
    &&& l.is_launch()
    &&& l.cli.refresh
    &&& l.domain > 0
    &&& l.size is Some || l.params.skip + l.domain <= l.before().source.len()
    &&& l.existing matches Some(s) ==> forall|p: int|
        0 <= p < l.domain ==> (#[trigger] recorded(s)(p)) is Some && recorded(s)(p) != Some(
            RegionStatus::Untried,
        )
}

/// The recorded digests a refresh goes by, and the size of their chunks.
pub open spec fn manifest(l: Launch) -> Option<(int, Seq<Seq<char>>)> {
    match l.existing {
        Some(s) => match s.hashes {
            Some(h) => Some((h.chunk_size as int, hash::texts(h.chunks@))),
            None => None,
        },
        None => None,
    }
}

/// A verify pass that ran to its end has `offset` on its recorded list.
pub open spec fn is_listed(l: Launch, offset: u64) -> bool {
    l.existing matches Some(s) && (s.verify matches Some(v) && v.cursor is None
        && v.mismatches@.contains(offset))
}

/// Byte `p` of the domain is in a chunk that a refresh may take for unchanged: the digest
/// on record is that of the chunk of the source, no finished verify pass has the chunk
/// on its list, and the user did not ask for the target to be compared.
pub open spec fn may_be_left(l: Launch, p: int) -> bool {
    let source = l.before().source;
    let skip = l.params.skip;
    manifest(l) matches Some((size, chunks)) && ({
        let i = p / size;
        let end = chunk_stop(size, l.domain as int, i);
        &&& has_digest(chunks, i)
        &&& chunks[i] == hash::blake3_hex(source.subrange(skip + i * size, skip + end))
        &&& !is_listed(l, (i * size) as u64)
        &&& l.cli.skip_unchanged != Some(true)
    })
}

proof fn lemma_refresh_start(l: Launch)
    requires
        is_refresh(l),
    ensures
        l.run.in_domain().is_run(),
        world::kept(
            l.run.in_domain().machine[0],
            l.run.in_domain().world[0],
            l.run.machine[0].hasher.chunks,
        ),
        forall|p: int| #[trigger] (l.run.machine[0].map)(p) != Some(RegionStatus::Done),
{
    media::lemma_run_in_domain(l.run);
    let w = l.run.in_domain().world[0];
    let m = l.run.machine[0];
    assert(m.wf());
    let regions = engine::prior_regions(l.prior());
    if let Some(s) = l.existing {
        assert forall|p: int| #[trigger]
            engine::base_status(regions, l.domain, p) != Some(RegionStatus::Untried) by {
            assert(recorded(s)(p) == region::status_in(s.regions@, p));
        }
        assert(plan::nothing_untried(regions, l.domain));
    }
    assert forall|p: int| #[trigger] (m.map)(p) != Some(RegionStatus::Done) by {
        assert(l.map.status_at(p) == (l.map.statuses())(p));
    }
    world::law_start_keeps(m, w);
}

/// A byte a refresh has done is the source's on the target, or lies in a chunk that may be
/// left alone, and then the target is as it was there.
proof fn lemma_refreshed(l: Launch, p: int)
    requires
        is_refresh(l),
        (l.run.machine.last().map)(p) == Some(RegionStatus::Done),
    ensures
        0 <= p < l.domain,
        ({
            let source = l.before().source;
            let q = l.params.seek + p;
            ||| (l.after().target)(q) == source[l.params.skip + p]
            ||| may_be_left(l, p) && (l.after().target)(q) == (l.before().target)(q)
        }),
{
    lemma_refresh_start(l);
    let inner = l.run.in_domain();
    let last = l.run.machine.len() - 1;
    let m = l.run.machine[0];
    assert(m.wf());
    assert(l.run.machine[last].wf());
    media::lemma_run_in_domain(l.run);
    media::lemma_options_stay(l.run, last);
    let chunks = m.hasher.chunks;
    effects::law_refresh_brings_the_target_up_to_date(inner, chunks, p);
    let (skip, seek) = (l.params.skip as int, l.params.seek as int);
    assert((inner.world[last].target)(p) == (l.after().target)(seek + p));
    assert((inner.world[0].target)(p) == (l.before().target)(seek + p));
    let (w, size, domain) = (inner.world[0], m.hasher.chunk_size, l.domain as int);
    if world::vouched(m, w, chunks, p) {
        let i = p / size;
        hash::lemma_within_chunk(size, p, 0);
        let end = hash::chunk_end(size, domain, i);
        assert(hash::source_chunk(w.source, size, domain, i) =~= l.before().source.subrange(
            skip + i * size,
            skip + end,
        ));
        let s = l.existing->0;
        assert(s.hashes is Some);
        if is_listed(l, (i * size) as u64) {
            let v = s.verify->0;
            assert(plan::prior_verify(l.prior()) == Some(v@));
            assert(m.repair == v.mismatches@);
        }
    }
}

/// A refresh makes the target match the source: when it finishes without an error (and no
/// bad region is left from before, or it is to retry them), every byte that was asked for
/// is the source's on the target, or lies in a chunk whose digest on record is still that
/// of the source, which no finished verify pass lists, in a run that was not to compare
/// the target. Such a chunk is not touched; nor is anything outside the domain.
pub proof fn law_refresh_makes_the_target_match(l: Launch)
    requires
        is_refresh(l),
        l.existing matches Some(s) ==> l.cli.retry || forall|p: int| #[trigger]
            recorded(s)(p) != Some(RegionStatus::Bad),
        l.finished(),
        l.without_errors(),
    ensures
        ({
            let (skip, seek) = (l.params.skip as int, l.params.seek as int);
            let source = l.before().source;
            &&& forall|p: int| #[trigger]
                asked_for(source, skip, l.params.length as int, p) ==> (l.after().target)(seek + p)
                    == source[skip + p] || (may_be_left(l, p) && (l.after().target)(seek + p) == (
                l.before().target)(seek + p))
            &&& forall|q: int| #[trigger]
                (l.after().target)(q) == (l.before().target)(q) || asked_for(
                    source,
                    skip,
                    l.params.length as int,
                    q - seek,
                )
        }),
{
    lemma_refresh_start(l);
    let inner = l.run.in_domain();
    let last = l.run.machine.len() - 1;
    let (skip, seek) = (l.params.skip as int, l.params.seek as int);
    let source = l.before().source;
    let length = l.params.length as int;
    assert(l.run.machine[0].wf());
    media::lemma_source_is_long_enough(l.run, last);
    assert forall|p: int| #[trigger] asked_for(source, skip, length, p) implies (l.after().target)(
        seek + p,
    ) == source[skip + p] || (may_be_left(l, p) && (l.after().target)(seek + p) == (
    l.before().target)(seek + p)) by {
        world::law_finished_run_tried_everything(inner, p);
        if l.cli.retry {
            effects::law_readable_source_leaves_nothing_bad(inner, p);
        } else {
            assert(l.map.status_at(p) == (l.map.statuses())(p));
            if let Some(s) = l.existing {
                assert(recorded(s)(p) != Some(RegionStatus::Bad));
            }
            effects::lemma_stays_good(inner, last, p);
        }
        lemma_refreshed(l, p);
    }
    assert forall|q: int| #[trigger]
        (l.after().target)(q) == (l.before().target)(q) || asked_for(
            source,
            skip,
            length,
            q - seek,
        ) by {
        if !asked_for(source, skip, length, q - seek) {
            media::law_target_is_left_alone_outside(l.run, last, q);
        }
    }
}

/// Verify finds, refresh repairs. A verify pass over a target is through and its result
/// is recorded; then a refresh with that state goes over the same extent. Every byte that
/// the refresh has done of a chunk that has a digest and was not on the target with it is
/// the source's on the target afterwards, whatever the manifest says of the source.
pub proof fn law_verify_finds_refresh_repairs(
    pass: VerifyMediaRun,
    image: Seq<u8>,
    transfer: int,
    hasher: HasherModel,
    now: Timestamp,
    saved: int,
    later: Timestamp,
    l: Launch,
    s: StateFile,
    i: int,
    p: int,
)
    requires
        is_refresh(l),
        l.existing == Some(s),
        is_finished_pass(
            pass,
            image,
            l.params.seek as int,
            l.domain as int,
            transfer,
            hasher,
            now,
        ),
        0 <= saved < pass.machine.len(),
        pass.machine[saved].action() == ReadAction::Save,
        saved + 2 == pass.machine.len(),
        state::verify_view(s.verify) == Some(pass.machine[saved].section(later)),
        s.hashes matches Some(h) && h.chunk_size == hasher.chunk_size,
        0 <= i,
        has_digest(hasher.chunks, i),
        !holds_chunk(
            image,
            l.params.seek as int,
            hasher.chunk_size,
            l.domain as int,
            hasher.chunks,
            i,
        ),
        i * hasher.chunk_size <= p < (i + 1) * hasher.chunk_size,
        (l.run.machine.last().map)(p) == Some(RegionStatus::Done),
    ensures
        (l.after().target)(l.params.seek + p) == l.before().source[l.params.skip + p],
{
    let (seek, domain) = (l.params.seek as int, l.domain as int);
    lemma_refreshed(l, p);
    let size = hasher.chunk_size;
    let k = lemma_finished_pass_was_saved(pass, image, seek, domain, transfer, hasher, now);
    lemma_pass_finds(pass, image, seek, domain, transfer, hasher, now, i);
    assert((i + 1) * size == i * size + size) by (nonlinear_arith);
    vstd::arithmetic::div_mod::lemma_fundamental_div_mod_converse(p, size, i, p - i * size);
    assert(p / size == i);
    assert(is_listed(l, (i * size) as u64));
}

// ---------------------------------------------------------------------------
// The manifest.

/// The size of the chunks of a fresh manifest, where none is given: 64 MiB.
pub open spec fn usual_chunk() -> u64 {
    67108864
}

/// A fresh copy records digests of its source only: in any of its states, a chunk of a
/// known domain has no digest, or that of its bytes in the source from `skip` on. The
/// chunks are of the size the user gave, or of 64 MiB.
pub proof fn law_copy_records_the_sources_digests(l: Launch, k: int, i: int)
    requires
        l.is_launch(),
        l.existing is None,
        starts_true(l),
        l.domain > 0,
        0 <= k < l.run.machine.len(),
        0 <= i,
        i * given(l.cli.hash_chunk, usual_chunk()) < l.domain,
    ensures
        ({
            let (m, size) = (l.run.machine[k], given(l.cli.hash_chunk, usual_chunk()) as int);
            let (skip, source) = (l.params.skip, l.before().source);
            let end = chunk_stop(size, l.domain as int, i);
            &&& m.hasher.chunk_size == size
            &&& has_digest(m.hasher.chunks, i) ==> m.hasher.chunks[i] == hash::blake3_hex(
                source.subrange(skip + i * size, skip + end),
            ) && skip + end <= source.len()
        }),
{
    lemma_true_start(l);
    let inner = l.run.in_domain();
    media::lemma_run_in_domain(l.run);
    world::lemma_fixed(inner, k);
    assert(inner.machine[k].wf());
    world::law_run_keeps(inner, Seq::empty(), k);
    let m = l.run.machine[k];
    let (size, domain) = (m.hasher.chunk_size, l.domain as int);
    assert(hash::digest_at(m.hasher.chunks, i) == hash::digest_at(m.hasher.chunks, i));
    let end = hash::chunk_end(size, domain, i);
    assert(0 <= i * size && (i + 1) * size == i * size + size) by (nonlinear_arith)
        requires
            0 <= i,
            0 < size,
    ;
    let w = inner.world[k];
    if end <= w.source.len() {
        assert(hash::source_chunk(w.source, size, domain, i) =~= l.before().source.subrange(
            l.params.skip + i * size,
            l.params.skip + end,
        ));
    }
}

proof fn lemma_image_is_long_enough(run: GapMediaRun, image: Seq<u8>, i: int)
    requires
        run.is_run(image),
        !run.machine[0].short,
        run.machine[0].seek + run.machine[0].domain <= image.len(),
        0 <= i < run.machine.len(),
    ensures
        !run.machine[i].short,
        run.machine[i].seek == run.machine[0].seek,
        run.machine[i].domain == run.machine[0].domain,
    decreases i,
{
    if i > 0 {
        lemma_image_is_long_enough(run, image, i - 1);
        let m = run.machine[i - 1];
        assert(m.wf());
        assert(run.step_ok(image, i - 1, run.replies[i - 1]));
        media::law_gap_filling_reads_the_right_bytes(m);
    }
}

/// A run without errors leaves a complete manifest of its source: a fresh copy of a known
/// domain finishes without an error, and the gap-filling pass that follows goes through
/// the target that it left. Then every chunk has a digest, and that of its bytes in the
/// source.
pub proof fn law_error_free_run_has_the_sources_manifest(
    l: Launch,
    gaps: GapMediaRun,
    image: Seq<u8>,
    i: int,
)
    requires
        l.is_launch(),
        l.existing is None,
        starts_true(l),
        l.domain > 0,
        l.size is Some || l.params.skip + l.domain <= l.before().source.len(),
        l.finished(),
        l.without_errors(),
        l.params.seek + l.domain <= image.len(),
        forall|q: int| 0 <= q < image.len() ==> #[trigger] image[q] == (l.after().target)(q),
        gaps.is_run(image),
        ({
            let (g, m) = (gaps.machine[0], l.run.machine.last());
            &&& g.seek == l.params.seek
            &&& g.domain == l.domain
            &&& g.map == m.map
            &&& g.hasher == m.hasher
            &&& g.range is None
            &&& !g.short
        }),
        gaps.machine.last().action() == ReadAction::Stop(Outcome::Finished),
        0 <= i,
        i * given(l.cli.hash_chunk, usual_chunk()) < l.domain,
    ensures
        ({
            let size = given(l.cli.hash_chunk, usual_chunk()) as int;
            let (skip, source) = (l.params.skip, l.before().source);
            let end = chunk_stop(size, l.domain as int, i);
            hash::digest_at(gaps.machine.last().hasher.chunks, i) == hash::blake3_hex(
                source.subrange(skip + i * size, skip + end),
            )
        }),
{
    let last = l.run.machine.len() - 1;
    let (m, end_state) = (l.run.machine[last], gaps.machine.len() - 1);
    let (skip, seek, source) = (l.params.skip as int, l.params.seek as int, l.before().source);
    law_copy_records_the_sources_digests(l, last, i);
    law_copy_keeps_the_record_true(l, last);
    media::lemma_options_stay(l.run, last);
    assert(gaps.machine[end_state].wf());
    assert(gaps.machine[0].wf());
    let (size, domain) = (m.hasher.chunk_size, l.domain as int);
    let end = chunk_stop(size, domain, i);
    assert(0 <= i * size && (i + 1) * size == i * size + size) by (nonlinear_arith)
        requires
            0 <= i,
            0 < size,
    ;
    media::lemma_gap_filling_in_domain(gaps, image);
    let target = |p: int| image[seek + p];
    let g = gaps.machine[0];
    hash::lemma_ceil_div(domain, size, i);
    let back = readback::target_bytes(target, i * size, end - i * size);
    let there = source.subrange(skip + i * size, skip + end);
    assert(back =~= there) by {
        assert forall|k: int| 0 <= k < end - i * size implies #[trigger] back[k] == there[k] by {
            let p = i * size + k;
            assert(back[k] == target(p));
            assert(there[k] == source[skip + p]);
            lemma_all_done(l, p);
            assert((m.map)(p) == Some(RegionStatus::Done));
            assert(image[seek + p] == (l.after().target)(seek + p));
        }
    }
    if g.is_gap(i) {
        lemma_image_is_long_enough(gaps, image, end_state);
        gapfill::law_finished_pass_fills_every_gap(gaps.in_domain(), target, i);
    } else {
        gapfill::law_pass_fills_only_gaps(gaps.in_domain(), target, i);
        assert(hash::digest_at(m.hasher.chunks, i).len() > 0) by {
            assert forall|p: int| i * size <= p < end implies #[trigger] (m.map)(p) == Some(
                RegionStatus::Done,
            ) by {
                lemma_all_done(l, p);
            }
        }
    }
}

/// After a copy that finished without an error, every byte of the domain is done.
proof fn lemma_all_done(l: Launch, p: int)
    requires
        l.is_launch(),
        l.existing is None,
        starts_true(l),
        l.domain > 0,
        l.size is Some || l.params.skip + l.domain <= l.before().source.len(),
        l.finished(),
        l.without_errors(),
        0 <= p < l.domain,
    ensures
        (l.run.machine.last().map)(p) == Some(RegionStatus::Done),
{
    lemma_true_start(l);
    let inner = l.run.in_domain();
    let last = l.run.machine.len() - 1;
    assert(l.run.machine[0].wf());
    media::lemma_source_is_long_enough(l.run, last);
    assert forall|q: int| #[trigger] (inner.machine[0].map)(q) != Some(RegionStatus::Bad) by {
        assert(l.map.status_at(q) == (l.map.statuses())(q));
    }
    effects::law_run_without_errors_is_complete(inner, p);
}

// ---------------------------------------------------------------------------
// Sources of unknown size.

proof fn lemma_stream_reaches_the_end(run: MediaRun, i: int)
    requires
        run.is_run(),
        run.machine[0].options.domain == 0,
        run.machine[0].at == At::Start,
        0 <= run.machine[0].pos,
        0 <= i < run.machine.len(),
    ensures
        world::filled(run.machine[i], run.machine[0].pos),
        run.machine[i].at == At::Stopped(Outcome::Finished) ==> run.machine[i].pos
            >= run.machine[0].options.limit() || run.media[0].source.len()
            <= run.machine[0].options.skip + run.machine[i].pos,
    decreases i,
{
    if i > 0 {
        lemma_stream_reaches_the_end(run, i - 1);
        media::lemma_options_stay(run, i - 1);
        let (m, reply) = (run.machine[i - 1], run.replies[i - 1]);
        assert(m.wf());
        assert(run.step_ok(i - 1, reply));
        media::lemma_answer_is_expected(m, reply);
        media::law_actions_name_the_right_bytes(m);
        world::law_step_leaves_no_hole(m, run.machine[0].pos, reply, run.signals[i - 1]);
        if let ReplyModel::Source(data) = reply {
            if data.len() == 0 {
                reveal(CopyModel::on_source);
                reveal(CopyModel::on_end_of_source);
                reveal(CopyModel::end_input);
            }
        }
    }
}

/// A source of unknown size is copied to its end: when a fresh copy without a length limit
/// finishes, every byte of the source from `skip` on is on the target, from `seek` on.
pub proof fn law_unknown_size_is_copied_to_its_end(l: Launch, p: int)
    requires
        l.is_launch(),
        l.existing is None,
        starts_true(l),
        l.domain == 0,
        l.finished(),
        0 <= p,
        l.before().source.len() <= u64::MAX - 1 - l.params.seek,
        l.before().source.len() <= u64::MAX - 1,
        given(l.cli.skip, 0) + p < l.before().source.len(),
    ensures
        l.size is None ==> (l.after().target)(given(l.cli.seek, 0) + p)
            == l.before().source[given(l.cli.skip, 0) + p],
{
    let last = l.run.machine.len() - 1;
    lemma_true_start(l);
    assert(l.run.machine[0].wf());
    assert(l.run.machine[last].wf());
    law_copy_keeps_the_record_true(l, last);
    media::lemma_options_stay(l.run, last);
    if l.size is None {
        assert(l.map@.len() == 0) by {
            if l.map@.len() > 0 {
                let r = l.map@[0];
                assert(r.valid());
                region::lemma_status_of(l.map@, 0, r.start as int);
                assert(l.map.status_at(r.start as int) is Some);
            }
        }
        lemma_stream_reaches_the_end(l.run, last);
        let m = l.run.machine[last];
        assert(p < m.pos);
        assert((m.map)(p) == Some(RegionStatus::Done));
    }
}

// ---------------------------------------------------------------------------
// Writing less.

/// What an action to come needs: a block that is compared or written is no block of zeros
/// where those are left out.
proof fn lemma_no_zeros_are_written(run: MediaRun, k: int)
    requires
        run.is_run(),
        run.machine[0].at == At::Start,
        run.machine[0].options.skip_zeros,
        0 <= k < run.machine.len(),
    ensures
        ({
            let m = run.machine[k];
            (m.at == At::Comparing || m.at == At::Writing) ==> !copier::all_zero(m.payload())
        }),
    decreases k,
{
    if k > 0 {
        lemma_no_zeros_are_written(run, k - 1);
        media::lemma_options_stay(run, k - 1);
        let (m, reply, signals) = (run.machine[k - 1], run.replies[k - 1], run.signals[k - 1]);
        assert(m.wf());
        assert(run.step_ok(k - 1, reply));
        media::lemma_answer_is_expected(m, reply);
        lemma_leads_to_a_block(m, reply, signals);
    }
}

/// How a step comes to a block that is to be compared or written.
proof fn lemma_leads_to_a_block(m: CopyModel, reply: ReplyModel, signals: Signals)
    requires
        m.wf(),
        m.expects(reply),
    ensures
        ({
            let next = m.next(reply, signals);
            &&& next.at == At::Writing && m.options.compares() ==> {
                &&& m.at == At::Comparing
                &&& next == (CopyModel { at: At::Writing, ..m })
                &&& reply matches ReplyModel::Target(data) && data != Some(m.payload())
            }
            &&& (next.at == At::Writing || next.at == At::Comparing) && m.options.skip_zeros
                ==> !copier::all_zero(next.payload()) || (m.at == At::Comparing && next.payload()
                == m.payload())
        }),
{
    match reply {
        ReplyModel::Source(data) => {
            reveal(CopyModel::on_source);
            reveal(CopyModel::on_end_of_source);
            reveal(CopyModel::fall_back);
            reveal(CopyModel::end_input);
            reveal(CopyModel::chunk_read);
            let used = data.take(copier::min(data.len() as int, m.want()));
            world::lemma_resume_records(CopyModel { job: None, ..m }, signals);
            world::lemma_resume_records(CopyModel { pos: m.stop, short: true, ..m }, signals);
            if let Some(end) = m.isolating {
                world::lemma_resume_records(
                    CopyModel { pos: end, isolating: None, short: true, ..m },
                    signals,
                );
            }
            if used.len() > 0 {
                match m.job {
                    Some(job) => {
                        let next = CopyModel {
                            chunk: m.chunk + used,
                            job: Some(JobModel { offset: job.offset + used.len(), ..job }),
                            ..m
                        };
                        world::lemma_resume_records(next, signals);
                        world::lemma_resume_records(
                            CopyModel {
                                map: region::marked(
                                    next.map,
                                    job.start,
                                    job.length,
                                    RegionStatus::Done,
                                ),
                                processed: copier::counted(next.processed, job.length),
                                bytes_skipped_by_hash: copier::counted(
                                    next.bytes_skipped_by_hash,
                                    job.length,
                                ),
                                job: None,
                                pos: job.start + job.length,
                                ..next
                            },
                            signals,
                        );
                    },
                    None => {
                        lemma_commit_leads_on(CopyModel { block: used, ..m }, signals);
                    },
                }
            }
        },
        ReplyModel::MediaError => {
            reveal(CopyModel::on_media_error);
            reveal(CopyModel::fall_back);
            reveal(CopyModel::moved);
            let want = m.want();
            world::lemma_resume_records(CopyModel { job: None, ..m }, signals);
            world::lemma_resume_records(
                CopyModel { isolating: Some(m.pos + want), ..m },
                signals,
            );
            world::lemma_resume_records(
                CopyModel {
                    hasher: m.hasher.broken(m.pos + want),
                    map: region::marked(m.map, m.pos, want, RegionStatus::Bad),
                    ..m
                }.moved(want),
                signals,
            );
        },
        ReplyModel::Target(data) => {
            reveal(CopyModel::on_target);
            lemma_commit_leads_on(m, signals);
        },
        ReplyModel::Failed => {},
        ReplyModel::Done => {
            reveal(CopyModel::on_written);
            let n = m.payload().len() as int;
            lemma_commit_leads_on(
                CopyModel {
                    bytes_written: copier::counted(m.bytes_written, n),
                    bytes_written_this_run: copier::counted(m.bytes_written_this_run, n),
                    wrote_this_run: true,
                    ..m
                },
                signals,
            );
            world::lemma_resume_records(m, signals);
            world::lemma_resume_records(CopyModel { readahead_off: true, ..m }, signals);
        },
    }
}

/// With a block done, the next one of a chunk is compared, or the copy goes on.
proof fn lemma_commit_leads_on(m: CopyModel, signals: Signals)
    ensures
        m.commit(signals).at != At::Writing,
        m.job is None ==> m.commit(signals).at != At::Comparing,
        m.commit(signals).at == At::Comparing ==> m.job is Some,
{
    reveal(CopyModel::commit);
    reveal(CopyModel::moved);
    match m.job {
        Some(job) => {
            reveal(CopyModel::commit_chunk_block);
            let n = m.payload().len() as int;
            world::lemma_resume_records(
                CopyModel {
                    map: region::marked(m.map, job.start + job.offset, n, RegionStatus::Done),
                    processed: copier::counted(m.processed, n),
                    hasher: HasherModel {
                        chunks: hash::with_digest(m.hasher.chunks, job.index, m.digest),
                        ..m.hasher
                    },
                    job: None,
                    pos: job.start + job.length,
                    ..m
                },
                signals,
            );
        },
        None => {
            let n = m.block.len() as int;
            world::lemma_resume_records(
                CopyModel {
                    hasher: m.hasher.feed(m.pos, m.block),
                    map: region::marked(m.map, m.pos, n, RegionStatus::Done),
                    ..m
                }.moved(n),
                signals,
            );
        },
    }
}

/// What need not be written is not. With `--skip-unchanged`, and in a refresh, a block is
/// written only after the target was read there and did not give the block back. With
/// `--skip-zeros` (not in a refresh) no block of zeros is written.
pub proof fn law_only_what_must_be_is_written(l: Launch, k: int)
    requires
        l.is_launch(),
        0 <= k < l.run.machine.len(),
        l.run.machine[k].action() is Write,
    ensures
        l.params.skip_unchanged || l.cli.refresh ==> {
            let (offset, length) = (
                l.run.machine[k].action()->Write_offset,
                l.run.machine[k].action()->Write_length,
            );
            &&& k > 0
            &&& l.run.machine[k - 1].action() == Action::ReadTarget { offset, length }
            &&& l.run.replies[k - 1] != ReplyModel::Target(Some(l.run.machine[k].payload()))
            &&& l.run.machine[k - 1].payload() == l.run.machine[k].payload()
        },
        l.params.skip_zeros && !l.cli.refresh ==> exists|i: int|
            0 <= i < l.run.machine[k].payload().len() && #[trigger] l.run.machine[k].payload()[i]
                != 0,
{
    assert(l.run.machine[k].wf());
    assert(l.run.machine[0].wf());
    if l.params.skip_unchanged || l.cli.refresh {
        let m = l.run.machine[k - 1];
        if k > 0 {
            media::lemma_options_stay(l.run, k - 1);
            assert(m.wf());
            assert(l.run.step_ok(k - 1, l.run.replies[k - 1]));
            media::lemma_answer_is_expected(m, l.run.replies[k - 1]);
            lemma_leads_to_a_block(m, l.run.replies[k - 1], l.run.signals[k - 1]);
        }
    }
    if l.params.skip_zeros && !l.cli.refresh {
        lemma_no_zeros_are_written(l.run, k);
        let data = l.run.machine[k].payload();
        let i = choose|i: int| 0 <= i < data.len() && #[trigger] data[i] != 0;
        assert(data[i] != 0);
    }
}

} // verus!
