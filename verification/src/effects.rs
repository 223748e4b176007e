//! What a copy touches, and what it leaves alone.
//!
//! The laws of [`crate::world`] say that what a run marks done is on the target.
//! Those here say what else becomes of map, target and manifest: done bytes stay
//! as they are, only sectors that could not be read turn bad, and a retry leaves
//! only those that failed again; nothing but the source's bytes is ever written
//! or hashed; a run without trouble is complete, and one with nothing to do does
//! nothing; and an interrupted run stops with its state saved.

use crate::copier;
use crate::copier::{Action, At, CopyModel, CopyOptions, JobModel, Outcome, Pass, ReplyModel, Signals};
use crate::hash;
use crate::hash::HasherModel;
use crate::region;
use crate::region::RegionStatus;
use crate::world;
use crate::world::{Run, World};
use vstd::prelude::*;

verus! {

// ---------------------------------------------------------------------------
// The map.

/// A sector that was read on its own, byte `p` in it, gave a media error.
pub open spec fn unreadable(m: CopyModel, reply: ReplyModel, p: int) -> bool {
    &&& reply is MediaError
    &&& m.action() matches Action::ReadSource { offset, want, request } && offset
        <= m.options.skip + p < offset + want && want <= m.options.sector
}

/// A byte turns bad only where a read of no more than a sector, with the byte in
/// it, gave a media error: a single dead sector costs one sector, not the whole
/// transfer block. All else a step does to the map is to mark bytes done.
pub proof fn law_only_unreadable_sectors_turn_bad(
    m: CopyModel,
    reply: ReplyModel,
    signals: Signals,
    p: int,
)
    requires
        m.wf(),
        m.expects(reply),
    ensures
        ({
            let next = (m.next(reply, signals).map)(p);
            ||| next == (m.map)(p)
            ||| next == Some(RegionStatus::Done)
            ||| next == Some(RegionStatus::Bad) && m.pos <= p < m.stop && unreadable(m, reply, p)
        }),
{
    world::lemma_next_records(m, reply, signals);
    let next = m.next(reply, signals);
    assert((next.map)(p) == (next.map)(p));
}

/// What a copy over a known domain reads of the source, compares and writes is
/// still untried (in a retry: bad): a resume copies only what is left.
pub proof fn law_only_open_bytes_are_copied(
    m: CopyModel,
    w: World,
    prior: Seq<Seq<char>>,
    p: int,
)
    requires
        m.wf(),
        world::kept(m, w, prior),
        m.options.domain > 0,
        m.action() matches Action::ReadSource { offset, want, request } ==> offset <= m.options.skip
            + p < offset + want,
        m.action() matches Action::ReadTarget { offset, length } ==> offset <= m.options.seek + p
            < offset + length,
        m.action() matches Action::Write { offset, length } ==> offset <= m.options.seek + p
            < offset + length,
        m.action() is ReadSource || m.action() is ReadTarget || m.action() is Write,
    ensures
        (m.map)(p) == Some(m.pass_status()),
        (m.map)(p) != Some(RegionStatus::Done),
{
    world::law_io_stays_in_bounds(m);
    assert(m.pos <= p < m.stop);
}

/// One step leaves a done byte done, and the target as it is there.
pub proof fn law_step_leaves_done_bytes_alone(
    m: CopyModel,
    w: World,
    prior: Seq<Seq<char>>,
    reply: ReplyModel,
    signals: Signals,
    after: World,
    p: int,
)
    requires
        m.wf(),
        m.expects(reply),
        world::kept(m, w, prior),
        w.leads_to(m, reply, after),
        m.options.domain > 0,
        (m.map)(p) == Some(RegionStatus::Done),
    ensures
        (m.next(reply, signals).map)(p) == Some(RegionStatus::Done),
        (after.target)(p) == (w.target)(p),
{
    law_only_unreadable_sectors_turn_bad(m, reply, signals, p);
    if reply is MediaError && unreadable(m, reply, p) {
        law_only_open_bytes_are_copied(m, w, prior, p);
    }
    if m.at == At::Writing && m.read_pos() <= p < m.read_pos() + m.payload().len() {
        world::law_io_stays_in_bounds(m);
        law_only_open_bytes_are_copied(m, w, prior, p);
    }
}

/// A byte that is done at the start of a run (a resume, or a retry) is done in
/// all of it, and the target is not touched there.
pub proof fn law_resume_leaves_done_bytes_alone(run: Run, prior: Seq<Seq<char>>, i: int, p: int)
    requires
        run.is_run(),
        world::kept(run.machine[0], run.world[0], prior),
        run.machine[0].options.domain > 0,
        (run.machine[0].map)(p) == Some(RegionStatus::Done),
        0 <= i < run.machine.len(),
    ensures
        (run.machine[i].map)(p) == Some(RegionStatus::Done),
        (run.world[i].target)(p) == (run.world[0].target)(p),
    decreases i,
{
    if i > 0 {
        law_resume_leaves_done_bytes_alone(run, prior, i - 1, p);
        world::law_run_keeps(run, prior, i - 1);
        world::lemma_fixed(run, i - 1);
        assert(run.step_ok(i - 1, run.replies[i - 1]));
        law_step_leaves_done_bytes_alone(
            run.machine[i - 1],
            run.world[i - 1],
            prior,
            run.replies[i - 1],
            run.signals[i - 1],
            run.world[i],
            p,
        );
    }
}

// ---------------------------------------------------------------------------
// The passes.

/// `n` is in the pass of `m`, or in the retry pass that `m` was to end with.
spec fn pass_follows(m: CopyModel, n: CopyModel) -> bool {
    &&& n.pass == m.pass || (n.pass == Pass::Retry && m.options.retry)
    &&& m.pass == Pass::Sequential ==> n.pass == m.pass && n.pos == m.pos
}

proof fn lemma_resume_passes(m: CopyModel, signals: Signals)
    ensures
        pass_follows(m, m.resume(signals)),
        pass_follows(m, m.advance(signals)),
        m.resume(signals).map == m.map,
        m.advance(signals).map == m.map,
{
    reveal(CopyModel::open_stride);
    reveal(CopyModel::open_region);
    reveal(CopyModel::end_pass);
    reveal(CopyModel::next_region);
    reveal(CopyModel::end_input);
    reveal(CopyModel::settle);
    reveal(CopyModel::resume);
    reveal(CopyModel::advance);
}

/// What a step does to byte `p` and to the pass: the byte keeps its status unless
/// it lies ahead, and only a copy that is to retry goes on to the retry pass.
spec fn step_follows(m: CopyModel, n: CopyModel, p: int) -> bool {
    &&& (n.map)(p) == (m.map)(p) || world::lies_ahead(m, p)
    &&& n.pass == m.pass || (n.pass == Pass::Retry && m.options.retry)
    &&& m.pass == Pass::Sequential ==> n.pass == m.pass && m.pos <= n.pos
}

proof fn lemma_commit_follows(m: CopyModel, signals: Signals, p: int)
    requires
        m.sound(),
        m.at_block(),
    ensures
        step_follows(m, m.commit(signals), p),
{
    reveal(CopyModel::commit);
    reveal(CopyModel::moved);
    match m.job {
        Some(job) => {
            reveal(CopyModel::commit_chunk_block);
            let n = m.payload().len() as int;
            let next = CopyModel {
                map: region::marked(m.map, job.start + job.offset, n, RegionStatus::Done),
                processed: copier::counted(m.processed, n),
                hasher: HasherModel {
                    chunks: hash::with_digest(m.hasher.chunks, job.index, m.digest),
                    ..m.hasher
                },
                job: None,
                pos: job.start + job.length,
                ..m
            };
            lemma_resume_passes(next, signals);
        },
        None => {
            let n = m.block.len() as int;
            let next = CopyModel {
                hasher: m.hasher.feed(m.pos, m.block),
                map: region::marked(m.map, m.pos, n, RegionStatus::Done),
                ..m
            }.moved(n);
            lemma_resume_passes(next, signals);
        },
    }
}

proof fn lemma_step_follows(m: CopyModel, reply: ReplyModel, signals: Signals, p: int)
    requires
        m.wf(),
        m.expects(reply),
    ensures
        step_follows(m, m.next(reply, signals), p),
{
    match reply {
        ReplyModel::Source(data) => {
            reveal(CopyModel::on_source);
            reveal(CopyModel::on_end_of_source);
            reveal(CopyModel::fall_back);
            reveal(CopyModel::end_input);
            reveal(CopyModel::chunk_read);
            let used = data.take(copier::min(data.len() as int, m.want()));
            lemma_resume_passes(CopyModel { job: None, ..m }, signals);
            lemma_resume_passes(CopyModel { pos: m.stop, short: true, ..m }, signals);
            if let Some(end) = m.isolating {
                lemma_resume_passes(
                    CopyModel { pos: end, isolating: None, short: true, ..m },
                    signals,
                );
            }
            if used.len() > 0 {
                match m.job {
                    Some(job) => {
                        let next = CopyModel {
                            chunk: m.chunk + used,
                            job: Some(JobModel { offset: job.offset + used.len(), ..job }),
                            ..m
                        };
                        lemma_resume_passes(next, signals);
                        lemma_resume_passes(
                            CopyModel {
                                map: region::marked(
                                    next.map,
                                    job.start,
                                    job.length,
                                    RegionStatus::Done,
                                ),
                                processed: copier::counted(next.processed, job.length),
                                bytes_skipped_by_hash: copier::counted(
                                    next.bytes_skipped_by_hash,
                                    job.length,
                                ),
                                job: None,
                                pos: job.start + job.length,
                                ..next
                            },
                            signals,
                        );
                    },
                    None => {
                        lemma_commit_follows(CopyModel { block: used, ..m }, signals, p);
                    },
                }
            }
        },
        ReplyModel::MediaError => {
            reveal(CopyModel::on_media_error);
            reveal(CopyModel::fall_back);
            reveal(CopyModel::moved);
            let want = m.want();
            lemma_resume_passes(CopyModel { job: None, ..m }, signals);
            lemma_resume_passes(CopyModel { isolating: Some(m.pos + want), ..m }, signals);
            lemma_resume_passes(
                CopyModel {
                    hasher: m.hasher.broken(m.pos + want),
                    map: region::marked(m.map, m.pos, want, RegionStatus::Bad),
                    ..m
                }.moved(want),
                signals,
            );
        },
        ReplyModel::Target(data) => {
            reveal(CopyModel::on_target);
            lemma_commit_follows(m, signals, p);
        },
        ReplyModel::Failed => {},
        ReplyModel::Done => {
            reveal(CopyModel::on_written);
            lemma_resume_passes(m, signals);
            lemma_resume_passes(CopyModel { readahead_off: true, ..m }, signals);
            if m.at == At::Writing {
                let n = m.payload().len() as int;
                lemma_commit_follows(
                    CopyModel {
                        bytes_written: copier::counted(m.bytes_written, n),
                        bytes_written_this_run: copier::counted(m.bytes_written_this_run, n),
                        wrote_this_run: true,
                        ..m
                    },
                    signals,
                    p,
                );
            }
        },
    }
}

/// Without a retry, what is bad stays bad: a byte that is bad at the start of a run
/// (of a source of unknown size: before its frontier) is bad in all of it, and the
/// target is not touched there. Nor does such a run ever come to the retry pass.
pub proof fn law_bad_bytes_wait_for_a_retry(run: Run, prior: Seq<Seq<char>>, i: int, p: int)
    requires
        run.is_run(),
        world::kept(run.machine[0], run.world[0], prior),
        run.machine[0].at == At::Start,
        run.machine[0].pass != Pass::Retry,
        !run.machine[0].options.retry,
        (run.machine[0].map)(p) == Some(RegionStatus::Bad),
        run.machine[0].options.domain == 0 ==> p < run.machine[0].pos,
        0 <= i < run.machine.len(),
    ensures
        (run.machine[i].map)(p) == Some(RegionStatus::Bad),
        (run.world[i].target)(p) == (run.world[0].target)(p),
        run.machine[i].pass == run.machine[0].pass,
        run.machine[0].options.domain == 0 ==> p < run.machine[i].pos,
    decreases i,
{
    assert(run.machine[i].wf());
    if i > 0 {
        law_bad_bytes_wait_for_a_retry(run, prior, i - 1, p);
        world::law_run_keeps(run, prior, i - 1);
        world::lemma_fixed(run, i - 1);
        let (m, w, after) = (run.machine[i - 1], run.world[i - 1], run.world[i]);
        assert(m.wf());
        assert(run.step_ok(i - 1, run.replies[i - 1]));
        lemma_step_follows(m, run.replies[i - 1], run.signals[i - 1], p);
        assert((m.map)(p) == (m.map)(p));
        assert((after.target)(p) == (after.target)(p));
        if m.at == At::Writing && m.options.domain > 0 {
            world::law_io_stays_in_bounds(m);
        }
    }
}

// ---------------------------------------------------------------------------
// The target.

/// A run changes the target to the source's bytes and to nothing else: wherever
/// the target is not as it was, it holds the source's byte.
pub proof fn law_only_source_bytes_are_written(run: Run, prior: Seq<Seq<char>>, i: int, p: int)
    requires
        run.is_run(),
        world::kept(run.machine[0], run.world[0], prior),
        0 <= i < run.machine.len(),
    ensures
        ({
            let source = run.world[0].source;
            ||| (run.world[i].target)(p) == (run.world[0].target)(p)
            ||| 0 <= p < source.len() && (run.world[i].target)(p) == source[p]
        }),
{
    world::law_run_moves_on(run, prior, 0, i);
    assert((run.world[i].target)(p) == (run.world[i].target)(p));
}

/// The write counters go by the writes that were carried out, and by nothing
/// else.
pub proof fn law_step_counts_writes(m: CopyModel, reply: ReplyModel, signals: Signals)
    ensures
        ({
            let next = m.next(reply, signals);
            let n = m.payload().len() as int;
            if m.at == At::Writing && reply is Done {
                &&& next.wrote_this_run
                &&& next.bytes_written == copier::counted(m.bytes_written, n)
                &&& next.bytes_written_this_run == copier::counted(m.bytes_written_this_run, n)
            } else {
                world::same_counts(m, next)
            }
        }),
{
    world::lemma_next_records(m, reply, signals);
    if m.at == At::Writing && reply is Done {
        reveal(CopyModel::on_written);
        let n = m.payload().len() as int;
        world::lemma_commit_records(
            CopyModel {
                bytes_written: copier::counted(m.bytes_written, n),
                bytes_written_this_run: copier::counted(m.bytes_written_this_run, n),
                wrote_this_run: true,
                ..m
            },
            signals,
        );
    }
}

/// A copy that writes all it reads: it neither compares with the target nor leaves
/// zeros out.
pub open spec fn writes_all(options: CopyOptions) -> bool {
    !options.refresh && !options.skip_unchanged && !options.skip_zeros
}

/// The bytes written since `first` are those done since (of a source of unknown
/// size: those passed since), and the total goes by them.
spec fn tallies(m: CopyModel, first: CopyModel) -> bool {
    let domain = m.options.domain as int;
    let done = RegionStatus::Done;
    &&& m.bytes_written_this_run == if domain > 0 {
        region::tally(m.map, done, domain) - region::tally(first.map, done, domain)
    } else {
        m.pos - first.pos
    }
    &&& m.bytes_written == copier::counted(first.bytes_written, m.bytes_written_this_run)
}

proof fn lemma_write_tallies(m: CopyModel, first: CopyModel, signals: Signals)
    requires
        m.wf(),
        m.at == At::Writing,
        writes_all(m.options),
        world::open_ahead(m),
        0 <= first.pos,
        tallies(m, first),
    ensures
        tallies(m.on_written(signals), first),
{
    reveal(CopyModel::on_written);
    reveal(CopyModel::commit);
    reveal(CopyModel::moved);
    let n = m.payload().len() as int;
    let domain = m.options.domain as int;
    let next = CopyModel {
        bytes_written: copier::counted(m.bytes_written, n),
        bytes_written_this_run: copier::counted(m.bytes_written_this_run, n),
        wrote_this_run: true,
        hasher: m.hasher.feed(m.pos, m.block),
        map: region::marked(m.map, m.pos, n, RegionStatus::Done),
        ..m
    }.moved(n);
    world::lemma_resume_records(next, signals);
    lemma_resume_passes(next, signals);
    if domain > 0 {
        assert forall|p: int| m.pos <= p < m.pos + n implies #[trigger] (m.map)(p) != Some(
            RegionStatus::Done,
        ) by {
            assert(world::lies_ahead(m, p));
        }
        region::lemma_tally_marked(m.map, m.pos, n, RegionStatus::Done, domain);
        region::lemma_count_bounded(
            |p: int| (next.map)(p) == Some(RegionStatus::Done),
            domain,
        );
    }
}

proof fn lemma_step_tallies(m: CopyModel, first: CopyModel, reply: ReplyModel, signals: Signals)
    requires
        m.wf(),
        m.expects(reply),
        writes_all(m.options),
        world::open_ahead(m),
        0 <= first.pos,
        tallies(m, first),
    ensures
        tallies(m.next(reply, signals), first),
{
    let next = m.next(reply, signals);
    if m.at == At::Writing && reply is Done {
        lemma_write_tallies(m, first, signals);
    } else {
        world::lemma_next_records(m, reply, signals);
        match reply {
            ReplyModel::Source(data) => {
                reveal(CopyModel::on_source);
                reveal(CopyModel::on_end_of_source);
                reveal(CopyModel::end_input);
                lemma_resume_passes(CopyModel { pos: m.stop, short: true, ..m }, signals);
                if let Some(end) = m.isolating {
                    lemma_resume_passes(
                        CopyModel { pos: end, isolating: None, short: true, ..m },
                        signals,
                    );
                }
            },
            ReplyModel::MediaError => {
                reveal(CopyModel::on_media_error);
                reveal(CopyModel::moved);
                let want = m.want();
                lemma_resume_passes(CopyModel { isolating: Some(m.pos + want), ..m }, signals);
                lemma_resume_passes(
                    CopyModel {
                        hasher: m.hasher.broken(m.pos + want),
                        map: region::marked(m.map, m.pos, want, RegionStatus::Bad),
                        ..m
                    }.moved(want),
                    signals,
                );
            },
            ReplyModel::Target(data) => {},
            ReplyModel::Failed => {},
            ReplyModel::Done => {
                lemma_resume_passes(m, signals);
                lemma_resume_passes(CopyModel { readahead_off: true, ..m }, signals);
            },
        }
        if m.options.domain > 0 {
            let domain = m.options.domain as int;
            assert forall|p: int| 0 <= p < domain implies (#[trigger] (next.map)(p) == Some(
                RegionStatus::Done,
            )) == ((m.map)(p) == Some(RegionStatus::Done)) by {
                if m.pos <= p < m.pos + m.want() {
                    assert(world::lies_ahead(m, p));
                    assert((m.map)(p) == Some(m.pass_status()));
                }
            }
            region::lemma_tally_same(next.map, m.map, RegionStatus::Done, domain);
        }
    }
}

proof fn lemma_run_tallies(run: Run, prior: Seq<Seq<char>>, i: int)
    requires
        run.is_run(),
        world::kept(run.machine[0], run.world[0], prior),
        writes_all(run.machine[0].options),
        run.machine[0].bytes_written_this_run == 0,
        0 <= i < run.machine.len(),
    ensures
        tallies(run.machine[i], run.machine[0]),
    decreases i,
{
    assert(run.machine[0].wf());
    if i > 0 {
        lemma_run_tallies(run, prior, i - 1);
        world::law_run_keeps(run, prior, i - 1);
        world::lemma_fixed(run, i - 1);
        assert(run.machine[i - 1].wf());
        assert(run.step_ok(i - 1, run.replies[i - 1]));
        lemma_step_tallies(
            run.machine[i - 1],
            run.machine[0],
            run.replies[i - 1],
            run.signals[i - 1],
        );
    }
}

/// A copy that writes all it reads has written, at any time, exactly as many bytes
/// as it has copied: over a known domain as many as are done by now and were not at
/// its start, with errors or without, in a retry too; of a source of unknown size as
/// many as lie between its first position and the present one. The total is that of
/// the runs before and of this one.
pub proof fn law_plain_copy_writes_what_it_copies(run: Run, prior: Seq<Seq<char>>, i: int)
    requires
        run.is_run(),
        world::kept(run.machine[0], run.world[0], prior),
        writes_all(run.machine[0].options),
        run.machine[0].bytes_written_this_run == 0,
        0 <= i < run.machine.len(),
    ensures
        ({
            let (first, m) = (run.machine[0], run.machine[i]);
            let (domain, done) = (first.options.domain as int, RegionStatus::Done);
            &&& domain > 0 ==> m.bytes_written_this_run == region::tally(m.map, done, domain)
                - region::tally(first.map, done, domain)
            &&& domain == 0 ==> m.bytes_written_this_run == m.pos - first.pos
            &&& m.bytes_written == copier::counted(first.bytes_written, m.bytes_written_this_run)
        }),
{
    lemma_run_tallies(run, prior, i);
    world::lemma_fixed(run, i);
}

/// How many bytes of a known domain are untried.
pub open spec fn untried_bytes(m: CopyModel) -> int {
    region::tally(m.map, RegionStatus::Untried, m.options.domain as int) as int
}

/// The progress display has counted the bytes that are untried no more.
spec fn progresses(m: CopyModel, first: CopyModel) -> bool {
    m.processed == untried_bytes(first) - untried_bytes(m)
}

/// The bytes of a block that lies ahead are marked, and counted unless the pass is a retry.
proof fn lemma_marked_progress(
    m: CopyModel,
    next: CopyModel,
    first: CopyModel,
    start: int,
    n: int,
    status: RegionStatus,
)
    requires
        m.options.domain > 0,
        world::open_ahead(m),
        progresses(m, first),
        first.options == m.options,
        status != RegionStatus::Untried,
        0 <= start,
        0 <= n,
        start + n <= m.options.domain,
        forall|p: int| start <= p < start + n ==> #[trigger] world::lies_ahead(m, p),
        next.options == m.options,
        next.map == region::marked(m.map, start, n, status),
        next.processed == if m.pass == Pass::Retry {
            m.processed
        } else {
            copier::counted(m.processed, n)
        },
    ensures
        progresses(next, first),
{
    let domain = m.options.domain as int;
    region::lemma_count_bounded(
        |p: int| (first.map)(p) == Some(RegionStatus::Untried),
        domain,
    );
    assert forall|p: int| start <= p < start + n implies #[trigger] (m.map)(p) == Some(
        m.pass_status(),
    ) by {
        assert(world::lies_ahead(m, p));
    }
    if m.pass == Pass::Retry {
        region::lemma_tally_same(next.map, m.map, RegionStatus::Untried, domain);
    } else {
        region::lemma_tally_lost(m.map, start, n, status, RegionStatus::Untried, domain);
    }
}

proof fn lemma_resume_progress(m: CopyModel, first: CopyModel, signals: Signals)
    requires
        progresses(m, first),
    ensures
        progresses(m.resume(signals), first),
        progresses(m.advance(signals), first),
{
    reveal(CopyModel::open_stride);
    reveal(CopyModel::open_region);
    reveal(CopyModel::end_pass);
    reveal(CopyModel::next_region);
    reveal(CopyModel::end_input);
    reveal(CopyModel::settle);
    reveal(CopyModel::resume);
    reveal(CopyModel::advance);
}

proof fn lemma_commit_progress(m: CopyModel, first: CopyModel, signals: Signals)
    requires
        m.sound(),
        m.at_block(),
        m.options.domain > 0,
        world::open_ahead(m),
        first.options == m.options,
        progresses(m, first),
    ensures
        progresses(m.commit(signals), first),
{
    reveal(CopyModel::commit);
    reveal(CopyModel::moved);
    match m.job {
        Some(job) => {
            reveal(CopyModel::commit_chunk_block);
            let n = m.payload().len() as int;
            let next = CopyModel {
                map: region::marked(m.map, job.start + job.offset, n, RegionStatus::Done),
                processed: copier::counted(m.processed, n),
                ..m
            };
            lemma_marked_progress(
                m,
                next,
                first,
                job.start + job.offset,
                n,
                RegionStatus::Done,
            );
            let last = CopyModel {
                hasher: HasherModel {
                    chunks: hash::with_digest(m.hasher.chunks, job.index, m.digest),
                    ..m.hasher
                },
                job: None,
                pos: job.start + job.length,
                ..next
            };
            lemma_resume_progress(last, first, signals);
        },
        None => {
            let n = m.block.len() as int;
            let next = CopyModel {
                hasher: m.hasher.feed(m.pos, m.block),
                map: region::marked(m.map, m.pos, n, RegionStatus::Done),
                ..m
            }.moved(n);
            lemma_marked_progress(m, next, first, m.pos, n, RegionStatus::Done);
            lemma_resume_progress(next, first, signals);
        },
    }
}

proof fn lemma_step_progress(m: CopyModel, first: CopyModel, reply: ReplyModel, signals: Signals)
    requires
        m.wf(),
        m.expects(reply),
        m.options.domain > 0,
        world::open_ahead(m),
        first.options == m.options,
        progresses(m, first),
    ensures
        progresses(m.next(reply, signals), first),
{
    match reply {
        ReplyModel::Source(data) => {
            reveal(CopyModel::on_source);
            reveal(CopyModel::on_end_of_source);
            reveal(CopyModel::fall_back);
            reveal(CopyModel::end_input);
            reveal(CopyModel::chunk_read);
            let used = data.take(copier::min(data.len() as int, m.want()));
            lemma_resume_progress(CopyModel { job: None, ..m }, first, signals);
            lemma_resume_progress(CopyModel { pos: m.stop, short: true, ..m }, first, signals);
            if let Some(end) = m.isolating {
                lemma_resume_progress(
                    CopyModel { pos: end, isolating: None, short: true, ..m },
                    first,
                    signals,
                );
            }
            if used.len() > 0 {
                match m.job {
                    Some(job) => {
                        let read = CopyModel {
                            chunk: m.chunk + used,
                            job: Some(JobModel { offset: job.offset + used.len(), ..job }),
                            ..m
                        };
                        lemma_resume_progress(read, first, signals);
                        let done = CopyModel {
                            map: region::marked(
                                read.map,
                                job.start,
                                job.length,
                                RegionStatus::Done,
                            ),
                            processed: copier::counted(read.processed, job.length),
                            bytes_skipped_by_hash: copier::counted(
                                read.bytes_skipped_by_hash,
                                job.length,
                            ),
                            job: None,
                            pos: job.start + job.length,
                            ..read
                        };
                        lemma_marked_progress(
                            m,
                            done,
                            first,
                            job.start,
                            job.length,
                            RegionStatus::Done,
                        );
                        lemma_resume_progress(done, first, signals);
                    },
                    None => {
                        let next = CopyModel { block: used, ..m };
                        if m.options.skip_zeros && copier::all_zero(used) {
                            assert forall|p: int| world::lies_ahead(next, p) implies #[trigger] (
                            next.map)(p) == Some(next.pass_status()) by {
                                assert(world::lies_ahead(m, p));
                            }
                            lemma_commit_progress(next, first, signals);
                        }
                    },
                }
            }
        },
        ReplyModel::MediaError => {
            reveal(CopyModel::on_media_error);
            reveal(CopyModel::fall_back);
            reveal(CopyModel::moved);
            let want = m.want();
            lemma_resume_progress(CopyModel { job: None, ..m }, first, signals);
            lemma_resume_progress(
                CopyModel { isolating: Some(m.pos + want), ..m },
                first,
                signals,
            );
            if m.job is None && m.isolating is Some {
                let next = CopyModel {
                    hasher: m.hasher.broken(m.pos + want),
                    map: region::marked(m.map, m.pos, want, RegionStatus::Bad),
                    ..m
                }.moved(want);
                lemma_marked_progress(m, next, first, m.pos, want, RegionStatus::Bad);
                lemma_resume_progress(next, first, signals);
            }
        },
        ReplyModel::Target(data) => {
            reveal(CopyModel::on_target);
            if data == Some(m.payload()) {
                lemma_commit_progress(m, first, signals);
            }
        },
        ReplyModel::Failed => {},
        ReplyModel::Done => {
            reveal(CopyModel::on_written);
            lemma_resume_progress(m, first, signals);
            lemma_resume_progress(CopyModel { readahead_off: true, ..m }, first, signals);
            if m.at == At::Writing {
                let n = m.payload().len() as int;
                let next = CopyModel {
                    bytes_written: copier::counted(m.bytes_written, n),
                    bytes_written_this_run: copier::counted(m.bytes_written_this_run, n),
                    wrote_this_run: true,
                    ..m
                };
                assert forall|p: int| world::lies_ahead(next, p) implies #[trigger] (next.map)(p)
                    == Some(next.pass_status()) by {
                    assert(world::lies_ahead(m, p));
                }
                lemma_commit_progress(next, first, signals);
            }
        },
    }
}

/// The progress display tells the truth: over a known domain it has counted, at any time,
/// exactly the bytes that were untried when the run began and are so no more. What a
/// retry reads was counted before.
pub proof fn law_progress_is_what_was_tried(run: Run, prior: Seq<Seq<char>>, i: int)
    requires
        run.is_run(),
        world::kept(run.machine[0], run.world[0], prior),
        run.machine[0].options.domain > 0,
        run.machine[0].processed == 0,
        0 <= i < run.machine.len(),
    ensures
        run.machine[i].processed == untried_bytes(run.machine[0]) - untried_bytes(run.machine[i]),
    decreases i,
{
    if i > 0 {
        law_progress_is_what_was_tried(run, prior, i - 1);
        world::law_run_keeps(run, prior, i - 1);
        world::lemma_fixed(run, i - 1);
        assert(run.machine[i - 1].wf());
        assert(run.step_ok(i - 1, run.replies[i - 1]));
        lemma_step_progress(
            run.machine[i - 1],
            run.machine[0],
            run.replies[i - 1],
            run.signals[i - 1],
        );
    }
}

/// A run that has not written has not changed the target, so a verify result
/// from before (which is kept exactly then) still describes it. A run that failed
/// may have been writing when it did, and is left out.
pub proof fn law_verify_result_is_kept_only_of_an_untouched_target(run: Run, i: int, p: int)
    requires
        run.is_run(),
        0 <= i < run.machine.len(),
        !run.machine[i].wrote_this_run,
        run.machine[i].at != At::Stopped(Outcome::Failed),
    ensures
        (run.world[i].target)(p) == (run.world[0].target)(p),
    decreases i,
{
    if i > 0 {
        assert(run.step_ok(i - 1, run.replies[i - 1]));
        law_step_counts_writes(run.machine[i - 1], run.replies[i - 1], run.signals[i - 1]);
        law_verify_result_is_kept_only_of_an_untouched_target(run, i - 1, p);
    }
}

// ---------------------------------------------------------------------------
// Refreshing.

/// A refresh brings the target up to date: a byte it has done is the source's,
/// or lies in a chunk whose digest in the manifest it started from is still the
/// source's and which is not up for repair, and is left as it was.
pub proof fn law_refresh_brings_the_target_up_to_date(run: Run, prior: Seq<Seq<char>>, p: int)
    requires
        run.is_run(),
        world::kept(run.machine[0], run.world[0], prior),
        (run.machine.last().map)(p) == Some(RegionStatus::Done),
    ensures
        ({
            let source = run.world[0].source;
            ||| 0 <= p < source.len() && (run.world.last().target)(p) == source[p]
            ||| {
                &&& world::vouched(run.machine[0], run.world[0], prior, p)
                &&& (run.world.last().target)(p) == (run.world[0].target)(p)
            }
        }),
{
    let last = run.machine.len() - 1;
    world::law_run_keeps(run, prior, last);
    world::lemma_fixed(run, last);
    assert(world::faithful(run.machine[last], run.world[last], prior, p));
    law_only_source_bytes_are_written(run, prior, last, p);
}

/// Verify finds, refresh repairs: once a refresh has done a chunk that a verify
/// pass listed, the target holds the source's bytes there, whatever the manifest
/// says.
pub proof fn law_refresh_repairs_listed_chunks(run: Run, prior: Seq<Seq<char>>, p: int)
    requires
        run.is_run(),
        world::kept(run.machine[0], run.world[0], prior),
        (run.machine.last().map)(p) == Some(RegionStatus::Done),
        ({
            let size = run.machine[0].hasher.chunk_size;
            run.machine[0].repair.contains((p / size * size) as u64)
        }),
    ensures
        0 <= p < run.world[0].source.len(),
        (run.world.last().target)(p) == run.world[0].source[p],
{
    law_refresh_brings_the_target_up_to_date(run, prior, p);
}

/// A refresh that compares with the target repairs whatever is not the source's
/// there: every byte it has done is on the target, whatever the manifest says.
pub proof fn law_comparing_refresh_repairs_everything(run: Run, prior: Seq<Seq<char>>, p: int)
    requires
        run.is_run(),
        world::kept(run.machine[0], run.world[0], prior),
        run.machine[0].options.skip_unchanged,
        (run.machine.last().map)(p) == Some(RegionStatus::Done),
    ensures
        0 <= p < run.world[0].source.len(),
        (run.world.last().target)(p) == run.world[0].source[p],
{
    law_refresh_brings_the_target_up_to_date(run, prior, p);
}

/// A chunk whose source bytes still have the digest in the manifest, and which
/// is not up for repair, is done without any target I/O: it is neither compared
/// nor written, unless the target is to be compared.
pub proof fn law_matching_chunk_needs_no_target_io(
    m: CopyModel,
    job: JobModel,
    data: Seq<u8>,
    signals: Signals,
    p: int,
)
    requires
        m.wf(),
        m.at == At::Reading,
        m.job == Some(job),
        data.len() >= m.want(),
        job.offset + m.want() == job.length,
        hash::blake3_hex(m.chunk + data.take(m.want())) == hash::digest_at(
            m.hasher.chunks,
            job.index,
        ),
        !m.repair.contains(job.start as u64),
        !m.options.skip_unchanged,
        job.start <= p < job.start + job.length,
    ensures
        ({
            let next = m.next(ReplyModel::Source(data), signals);
            &&& next.at != At::Comparing
            &&& next.at != At::Writing
            &&& (next.map)(p) == Some(RegionStatus::Done)
            &&& next.wrote_this_run == m.wrote_this_run
        }),
{
    reveal(CopyModel::on_source);
    reveal(CopyModel::chunk_read);
    let used = data.take(m.want());
    let next = CopyModel {
        chunk: m.chunk + used,
        job: Some(JobModel { offset: job.offset + used.len(), ..job }),
        ..m
    };
    world::lemma_resume_records(
        CopyModel {
            map: region::marked(next.map, job.start, job.length, RegionStatus::Done),
            processed: copier::counted(next.processed, job.length),
            bytes_skipped_by_hash: copier::counted(next.bytes_skipped_by_hash, job.length),
            job: None,
            pos: job.start + job.length,
            ..next
        },
        signals,
    );
}

// ---------------------------------------------------------------------------
// Retrying.

/// How far a retry has come: up to its position, and over the whole domain once
/// it is through.
spec fn retry_front(m: CopyModel) -> int {
    if m.at == At::Stopped(Outcome::Finished) {
        m.options.domain as int
    } else {
        m.pos
    }
}

/// Unless the source ended early, a byte that a retry has passed and that is
/// still bad has `failed`; and a copy that was to retry does not finish before.
spec fn retried(m: CopyModel, p: int, failed: bool) -> bool {
    m.options.domain > 0 ==> {
        &&& m.pass == Pass::Retry && !m.short && 0 <= p < retry_front(m) && (m.map)(p) == Some(
            RegionStatus::Bad,
        ) ==> failed
        &&& m.at == At::Stopped(Outcome::Finished) && m.options.retry ==> m.pass == Pass::Retry
    }
}

proof fn lemma_resume_retries(m: CopyModel, signals: Signals, p: int, failed: bool)
    requires
        m.nested(),
        m.options.domain > 0 ==> forall|q: int|
            (#[trigger] (m.map)(q) is Some) <==> 0 <= q < m.options.domain,
        m.at != At::Stopped(Outcome::Finished),
        retried(m, p, failed),
    ensures
        retried(m.resume(signals), p, failed),
        retried(m.advance(signals), p, failed),
{
    reveal(CopyModel::open_stride);
    reveal(CopyModel::open_region);
    reveal(CopyModel::end_pass);
    reveal(CopyModel::next_region);
    reveal(CopyModel::end_input);
    reveal(CopyModel::settle);
    reveal(CopyModel::resume);
    reveal(CopyModel::advance);
    if m.options.domain > 0 {
        let domain = m.options.domain as int;
        region::lemma_is_span(m.map, m.pass_status(), m.stop);
        region::lemma_is_span(m.map, RegionStatus::Bad, 0);
        if (m.map)(p) == Some(RegionStatus::Bad) {
            if m.stop <= p && m.pass == Pass::Retry {
                region::lemma_next_span_exists(m.map, RegionStatus::Bad, m.stop, p, domain);
            }
            if 0 <= p {
                region::lemma_next_span_exists(m.map, RegionStatus::Bad, 0, p, domain);
            }
        }
    }
}

proof fn lemma_commit_retries(m: CopyModel, signals: Signals, p: int, failed: bool)
    requires
        m.sound(),
        m.at_block(),
        m.at != At::Stopped(Outcome::Finished),
        retried(m, p, failed),
    ensures
        retried(m.commit(signals), p, failed),
{
    reveal(CopyModel::commit);
    reveal(CopyModel::moved);
    match m.job {
        Some(job) => {
            reveal(CopyModel::commit_chunk_block);
            let n = m.payload().len() as int;
            if job.offset + n >= job.length {
                let next = CopyModel {
                    map: region::marked(m.map, job.start + job.offset, n, RegionStatus::Done),
                    processed: copier::counted(m.processed, n),
                    hasher: HasherModel {
                        chunks: hash::with_digest(m.hasher.chunks, job.index, m.digest),
                        ..m.hasher
                    },
                    job: None,
                    pos: job.start + job.length,
                    ..m
                };
                lemma_resume_retries(next, signals, p, failed);
            }
        },
        None => {
            let n = m.block.len() as int;
            let next = CopyModel {
                hasher: m.hasher.feed(m.pos, m.block),
                map: region::marked(m.map, m.pos, n, RegionStatus::Done),
                ..m
            }.moved(n);
            lemma_resume_retries(next, signals, p, failed);
        },
    }
}

proof fn lemma_source_retries(
    m: CopyModel,
    data: Seq<u8>,
    signals: Signals,
    p: int,
    failed: bool,
)
    requires
        m.wf(),
        m.at == At::Reading,
        retried(m, p, failed),
    ensures
        retried(m.on_source(data, signals), p, failed),
{
    reveal(CopyModel::on_source);
    let used = data.take(copier::min(data.len() as int, m.want()));
    if used.len() == 0 {
        reveal(CopyModel::on_end_of_source);
        reveal(CopyModel::fall_back);
        reveal(CopyModel::end_input);
        if m.job is Some {
            lemma_resume_retries(CopyModel { job: None, ..m }, signals, p, failed);
        } else if m.pass != Pass::Sequential {
            match m.isolating {
                Some(end) => {
                    lemma_resume_retries(
                        CopyModel { pos: end, isolating: None, short: true, ..m },
                        signals,
                        p,
                        failed,
                    );
                },
                None => {
                    lemma_resume_retries(
                        CopyModel { pos: m.stop, short: true, ..m },
                        signals,
                        p,
                        failed,
                    );
                },
            }
        }
    } else {
        match m.job {
            Some(job) => {
                let next = CopyModel {
                    chunk: m.chunk + used,
                    job: Some(JobModel { offset: job.offset + used.len(), ..job }),
                    ..m
                };
                if job.offset + used.len() < job.length {
                    lemma_resume_retries(next, signals, p, failed);
                } else {
                    reveal(CopyModel::chunk_read);
                    lemma_resume_retries(
                        CopyModel {
                            map: region::marked(
                                next.map,
                                job.start,
                                job.length,
                                RegionStatus::Done,
                            ),
                            processed: copier::counted(next.processed, job.length),
                            bytes_skipped_by_hash: copier::counted(
                                next.bytes_skipped_by_hash,
                                job.length,
                            ),
                            job: None,
                            pos: job.start + job.length,
                            ..next
                        },
                        signals,
                        p,
                        failed,
                    );
                }
            },
            None => {
                if m.options.skip_zeros && copier::all_zero(used) {
                    lemma_commit_retries(CopyModel { block: used, ..m }, signals, p, failed);
                }
            },
        }
    }
}

proof fn lemma_step_retries(
    m: CopyModel,
    reply: ReplyModel,
    signals: Signals,
    p: int,
    failed: bool,
)
    requires
        m.wf(),
        m.expects(reply),
        retried(m, p, failed),
    ensures
        retried(
            m.next(reply, signals),
            p,
            failed || (m.pass == Pass::Retry && unreadable(m, reply, p)),
        ),
{
    let now = failed || (m.pass == Pass::Retry && unreadable(m, reply, p));
    match reply {
        ReplyModel::Source(data) => {
            lemma_source_retries(m, data, signals, p, failed);
        },
        ReplyModel::MediaError => {
            reveal(CopyModel::on_media_error);
            reveal(CopyModel::fall_back);
            reveal(CopyModel::moved);
            let want = m.want();
            if m.job is Some {
                lemma_resume_retries(CopyModel { job: None, ..m }, signals, p, now);
            } else if m.pass == Pass::Sequential {
            } else if m.isolating is Some {
                let next = CopyModel {
                    hasher: m.hasher.broken(m.pos + want),
                    map: region::marked(m.map, m.pos, want, RegionStatus::Bad),
                    ..m
                }.moved(want);
                lemma_resume_retries(next, signals, p, now);
            } else {
                lemma_resume_retries(
                    CopyModel { isolating: Some(m.pos + want), ..m },
                    signals,
                    p,
                    now,
                );
            }
        },
        ReplyModel::Target(data) => {
            reveal(CopyModel::on_target);
            if data == Some(m.payload()) {
                lemma_commit_retries(m, signals, p, failed);
            }
        },
        ReplyModel::Failed => {},
        ReplyModel::Done => {
            match m.at {
                At::Writing => {
                    reveal(CopyModel::on_written);
                    let n = m.payload().len() as int;
                    lemma_commit_retries(
                        CopyModel {
                            bytes_written: copier::counted(m.bytes_written, n),
                            bytes_written_this_run: copier::counted(m.bytes_written_this_run, n),
                            wrote_this_run: true,
                            ..m
                        },
                        signals,
                        p,
                        failed,
                    );
                },
                At::Readahead => {
                    lemma_resume_retries(CopyModel { readahead_off: true, ..m }, signals, p, now);
                },
                At::Flushing { stop: true } => {},
                _ => {
                    lemma_resume_retries(m, signals, p, now);
                },
            }
        },
    }
}

/// In one of the first `n` steps of the run, in its retry pass, a read of no more
/// than a sector with byte `p` in it gave a media error.
pub open spec fn failed_in_retry(run: Run, n: int, p: int) -> bool {
    exists|i: int|
        0 <= i < n && run.machine[i].pass == Pass::Retry && unreadable(
            run.machine[i],
            #[trigger] run.replies[i],
            p,
        )
}

proof fn lemma_run_retries(run: Run, i: int, p: int)
    requires
        run.is_run(),
        run.machine[0].at == At::Start,
        run.machine[0].pass != Pass::Retry,
        0 <= i < run.machine.len(),
    ensures
        retried(run.machine[i], p, failed_in_retry(run, i, p)),
    decreases i,
{
    if i > 0 {
        lemma_run_retries(run, i - 1, p);
        let (m, reply) = (run.machine[i - 1], run.replies[i - 1]);
        assert(run.step_ok(i - 1, reply));
        let before = failed_in_retry(run, i - 1, p);
        lemma_step_retries(m, reply, run.signals[i - 1], p, before);
        if before {
            let k = choose|k: int|
                0 <= k < i - 1 && run.machine[k].pass == Pass::Retry && unreadable(
                    run.machine[k],
                    #[trigger] run.replies[k],
                    p,
                );
            assert(unreadable(run.machine[k], run.replies[k], p));
        }
    }
}

/// A retry recovers what is readable: after a finished run with a retry, unless
/// the source ended early, a byte is bad only if a read of no more than a sector
/// with the byte in it gave a media error in the retry pass of this very run.
pub proof fn law_retry_leaves_only_unreadable_sectors(run: Run, p: int)
    requires
        run.is_run(),
        run.machine[0].at == At::Start,
        run.machine[0].pass != Pass::Retry,
        run.machine[0].options.domain > 0,
        run.machine[0].options.retry,
        run.machine.last().at == At::Stopped(Outcome::Finished),
        !run.machine.last().short,
        (run.machine.last().map)(p) == Some(RegionStatus::Bad),
    ensures
        failed_in_retry(run, run.replies.len() as int, p),
{
    let last = run.machine.len() - 1;
    lemma_run_retries(run, last, p);
    world::lemma_fixed(run, last);
    assert(run.machine[last].wf());
}

/// A finished run with a retry from a source that is readable by now leaves no
/// byte bad.
pub proof fn law_readable_source_leaves_nothing_bad(run: Run, p: int)
    requires
        run.is_run(),
        run.machine[0].at == At::Start,
        run.machine[0].pass != Pass::Retry,
        run.machine[0].options.domain > 0,
        run.machine[0].options.retry,
        run.machine.last().at == At::Stopped(Outcome::Finished),
        !run.machine.last().short,
        forall|i: int|
            0 <= i < run.replies.len() && run.machine[i].pass == Pass::Retry ==> !(
            #[trigger] run.replies[i] is MediaError),
    ensures
        (run.machine.last().map)(p) != Some(RegionStatus::Bad),
{
    if (run.machine.last().map)(p) == Some(RegionStatus::Bad) {
        law_retry_leaves_only_unreadable_sectors(run, p);
        let k = choose|k: int|
            0 <= k < run.replies.len() && run.machine[k].pass == Pass::Retry && unreadable(
                run.machine[k],
                #[trigger] run.replies[k],
                p,
            );
        assert(run.replies[k] is MediaError);
    }
}

// ---------------------------------------------------------------------------
// Runs without trouble.

pub(crate) proof fn lemma_stays_good(run: Run, i: int, p: int)
    requires
        run.is_run(),
        (run.machine[0].map)(p) != Some(RegionStatus::Bad),
        forall|k: int| 0 <= k < run.replies.len() ==> !(#[trigger] run.replies[k] is MediaError),
        0 <= i < run.machine.len(),
    ensures
        (run.machine[i].map)(p) != Some(RegionStatus::Bad),
    decreases i,
{
    if i > 0 {
        lemma_stays_good(run, i - 1, p);
        assert(run.step_ok(i - 1, run.replies[i - 1]));
        assert(run.machine[i - 1].wf());
        law_only_unreadable_sectors_turn_bad(
            run.machine[i - 1],
            run.replies[i - 1],
            run.signals[i - 1],
            p,
        );
    }
}

/// A run without trouble is complete: over a known domain with no bad byte at its
/// start, a run that finishes without a media error and before the end of its
/// source has every byte done.
pub proof fn law_run_without_errors_is_complete(run: Run, p: int)
    requires
        run.is_run(),
        run.machine[0].at == At::Start,
        run.machine[0].pass != Pass::Retry,
        run.machine[0].pos == 0,
        run.machine[0].options.domain > 0,
        forall|q: int| #[trigger] (run.machine[0].map)(q) != Some(RegionStatus::Bad),
        forall|i: int| 0 <= i < run.replies.len() ==> !(#[trigger] run.replies[i] is MediaError),
        run.machine.last().at == At::Stopped(Outcome::Finished),
        !run.machine.last().short,
        0 <= p < run.machine[0].options.domain,
    ensures
        (run.machine.last().map)(p) == Some(RegionStatus::Done),
{
    world::law_finished_run_tried_everything(run, p);
    lemma_stays_good(run, run.machine.len() - 1, p);
}

/// A copy with nothing left to do does nothing: over a known domain that is all
/// done, without a refresh, the first step ends it, with map, manifest and
/// counters as they were.
pub proof fn law_completed_copy_has_nothing_to_do(m: CopyModel, signals: Signals)
    requires
        m.at == At::Start,
        m.options.domain > 0,
        m.pass != Pass::Sequential,
        m.pos == m.stop == m.region_end == 0,
        forall|p: int| #[trigger] (m.map)(p) is Some ==> (m.map)(p) == Some(RegionStatus::Done),
    ensures
        ({
            let next = m.next(ReplyModel::Done, signals);
            &&& next.action() == Action::Stop(Outcome::Finished)
            &&& next == (CopyModel { at: next.at, pass: next.pass, ..m })
        }),
{
    reveal(CopyModel::open_region);
    reveal(CopyModel::end_pass);
    reveal(CopyModel::next_region);
    reveal(CopyModel::settle);
    reveal(CopyModel::resume);
    region::lemma_is_span(m.map, m.pass_status(), 0);
    region::lemma_is_span(m.map, RegionStatus::Bad, 0);
    let next = m.next(ReplyModel::Done, signals);
    assert forall|status: RegionStatus, start: int, end: int|
        status != RegionStatus::Done implies !(#[trigger] region::is_next_span(
        m.map,
        status,
        0,
        start,
        end,
    )) by {
        assert((m.map)(start) == (m.map)(start));
    }
}

/// The same of a source of unknown size: copied to its length limit, the first
/// step ends it; else the first read does, if the source has no more to give.
pub proof fn law_completed_stream_has_nothing_to_do(m: CopyModel, signals: Signals, more: Signals)
    requires
        m.wf(),
        m.at == At::Start,
        m.pass == Pass::Sequential,
        m.hasher.run.len() == 0,
        !signals.interrupted,
    ensures
        ({
            let next = m.next(ReplyModel::Done, signals);
            let last = if m.pos < m.stop {
                next.next(ReplyModel::Source(Seq::empty()), more)
            } else {
                next
            };
            &&& m.pos < m.stop ==> next == (CopyModel { at: At::Reading, ..m })
            &&& last == (CopyModel { at: At::Stopped(Outcome::Finished), ..m })
        }),
{
    reveal(CopyModel::settle);
    reveal(CopyModel::resume);
    reveal(CopyModel::end_input);
    reveal(CopyModel::on_source);
    reveal(CopyModel::on_end_of_source);
    if m.hasher.building() {
        m.hasher.lemma_building_has_run();
    }
    let next = m.next(ReplyModel::Done, signals);
    let used = Seq::<u8>::empty().take(0);
    assert(used.len() == 0);
}

// ---------------------------------------------------------------------------
// The manifest.

/// The manifest is the source's: after a run that started without one, every
/// digest is that of its chunk of the source, or (the last one of a source of
/// unknown size) of what the source holds of it.
pub proof fn law_manifest_is_of_the_source(run: Run, i: int)
    requires
        run.is_run(),
        world::kept(run.machine[0], run.world[0], Seq::empty()),
        0 <= i,
    ensures
        ({
            let m = run.machine.last();
            let source = run.world[0].source;
            let (size, domain) = (m.hasher.chunk_size, m.hasher.domain);
            let digest = hash::digest_at(m.hasher.chunks, i);
            ||| digest.len() == 0
            ||| digest == hash::blake3_hex(hash::source_chunk(source, size, domain, i))
                && hash::chunk_end(size, domain, i) <= source.len()
            ||| domain == 0 && m.pos <= source.len() && i == m.pos / size && digest
                == hash::blake3_hex(source.subrange(i * size, m.pos))
        }),
{
    let last = run.machine.len() - 1;
    world::law_run_keeps(run, Seq::empty(), last);
    world::lemma_fixed(run, last);
    let m = run.machine[last];
    assert(m.wf());
    assert(hash::digest_at(m.hasher.chunks, i) == hash::digest_at(m.hasher.chunks, i));
}

/// The hasher has taken in the source from its first byte to the position, which
/// is within the range, and at the end of the input its tail.
pub open spec fn taken_in(m: CopyModel, source: Seq<u8>, first: HasherModel) -> bool {
    let fed = first.feed(0, source.take(m.pos));
    &&& 0 <= m.pos <= source.len()
    &&& m.pos <= m.stop
    &&& m.hasher == if m.at == At::Stopped(Outcome::Finished) {
        fed.finish()
    } else {
        fed
    }
}

proof fn lemma_resume_takes_in(m: CopyModel, source: Seq<u8>, first: HasherModel, signals: Signals)
    requires
        m.pass == Pass::Sequential,
        m.at != At::Stopped(Outcome::Finished),
        taken_in(m, source, first),
    ensures
        taken_in(m.resume(signals), source, first),
        taken_in(m.advance(signals), source, first),
        taken_in(m.end_input(), source, first),
{
    reveal(CopyModel::advance);
    reveal(CopyModel::resume);
    reveal(CopyModel::settle);
    reveal(CopyModel::end_input);
}

proof fn lemma_commit_takes_in(m: CopyModel, source: Seq<u8>, first: HasherModel, signals: Signals)
    requires
        m.sound(),
        m.at_block(),
        m.options.domain == 0,
        m.at != At::Stopped(Outcome::Finished),
        world::agrees(source, m.pos, m.block),
        first.wf(),
        first.domain == 0,
        first.chunk_size == m.hasher.chunk_size,
        taken_in(m, source, first),
    ensures
        taken_in(m.commit(signals), source, first),
{
    reveal(CopyModel::commit);
    reveal(CopyModel::moved);
    let n = m.block.len() as int;
    let next = CopyModel {
        hasher: m.hasher.feed(m.pos, m.block),
        map: region::marked(m.map, m.pos, n, RegionStatus::Done),
        ..m
    }.moved(n);
    assert(m.block[n - 1] == source[m.pos + (n - 1)]);
    assert(source.take(m.pos) + m.block =~= source.take(m.pos + n));
    hash::lemma_quotients_grow(first.chunk_size, m.pos + n, u64::MAX - 1);
    hash::law_feed_in_pieces(first, 0, source.take(m.pos), m.block);
    lemma_resume_takes_in(next, source, first, signals);
}

proof fn lemma_step_takes_in(
    m: CopyModel,
    w: World,
    prior: Seq<Seq<char>>,
    first: HasherModel,
    reply: ReplyModel,
    signals: Signals,
)
    requires
        m.wf(),
        m.expects(reply),
        w.honest(m, reply),
        world::kept(m, w, prior),
        m.options.domain == 0,
        first.wf(),
        first.domain == 0,
        first.chunk_size == m.hasher.chunk_size,
        taken_in(m, w.source, first),
    ensures
        taken_in(m.next(reply, signals), w.source, first),
{
    match reply {
        ReplyModel::Source(data) => {
            reveal(CopyModel::on_source);
            reveal(CopyModel::on_end_of_source);
            let used = data.take(copier::min(data.len() as int, m.want()));
            if used.len() == 0 {
                lemma_resume_takes_in(m, w.source, first, signals);
            } else {
                let next = CopyModel { block: used, ..m };
                lemma_commit_takes_in(next, w.source, first, signals);
            }
        },
        ReplyModel::MediaError => {
            reveal(CopyModel::on_media_error);
        },
        ReplyModel::Target(data) => {
            reveal(CopyModel::on_target);
            lemma_commit_takes_in(m, w.source, first, signals);
        },
        ReplyModel::Failed => {},
        ReplyModel::Done => {
            if m.at == At::Writing {
                reveal(CopyModel::on_written);
                let n = m.payload().len() as int;
                let next = CopyModel {
                    bytes_written: copier::counted(m.bytes_written, n),
                    bytes_written_this_run: copier::counted(m.bytes_written_this_run, n),
                    wrote_this_run: true,
                    ..m
                };
                lemma_commit_takes_in(next, w.source, first, signals);
            } else {
                lemma_resume_takes_in(m, w.source, first, signals);
                let next = CopyModel { readahead_off: true, ..m };
                lemma_resume_takes_in(next, w.source, first, signals);
            }
        },
    }
}

proof fn lemma_run_takes_in(run: Run, prior: Seq<Seq<char>>, i: int)
    requires
        run.is_run(),
        world::kept(run.machine[0], run.world[0], prior),
        run.machine[0].options.domain == 0,
        taken_in(run.machine[0], run.world[0].source, run.machine[0].hasher),
        0 <= i < run.machine.len(),
    ensures
        taken_in(run.machine[i], run.world[0].source, run.machine[0].hasher),
    decreases i,
{
    assert(run.machine[0].wf());
    if i > 0 {
        lemma_run_takes_in(run, prior, i - 1);
        world::law_run_keeps(run, prior, i - 1);
        world::lemma_fixed(run, i - 1);
        assert(run.machine[i - 1].wf());
        assert(run.step_ok(i - 1, run.replies[i - 1]));
        lemma_step_takes_in(
            run.machine[i - 1],
            run.world[i - 1],
            prior,
            run.machine[0].hasher,
            run.replies[i - 1],
            run.signals[i - 1],
        );
    }
}

/// A source of unknown size has its whole manifest once it is copied: when a run
/// from its first byte finishes, every chunk with a byte in what was copied has
/// the digest of those bytes, the last one included.
pub proof fn law_copied_stream_has_its_manifest(run: Run, prior: Seq<Seq<char>>, i: int)
    requires
        run.is_run(),
        world::kept(run.machine[0], run.world[0], prior),
        run.machine[0].at == At::Start,
        run.machine[0].options.domain == 0,
        run.machine[0].pos == 0,
        run.machine[0].hasher.run.len() == 0,
        run.machine.last().at == At::Stopped(Outcome::Finished),
        0 <= i,
        i * run.machine[0].hasher.chunk_size < run.machine.last().pos,
    ensures
        ({
            let (m, source) = (run.machine.last(), run.world[0].source);
            let size = run.machine[0].hasher.chunk_size;
            let end = if (i + 1) * size <= m.pos {
                (i + 1) * size
            } else {
                m.pos
            };
            &&& m.pos <= source.len()
            &&& hash::digest_at(m.hasher.chunks, i) == hash::blake3_hex(
                source.subrange(i * size, end),
            )
        }),
{
    let first = run.machine[0].hasher;
    let source = run.world[0].source;
    let last = run.machine.len() - 1;
    let m = run.machine[last];
    assert(run.machine[0].wf());
    assert(m.wf());
    assert(source.take(0).len() == 0);
    lemma_run_takes_in(run, prior, last);
    world::lemma_fixed(run, last);
    let copied = source.take(m.pos);
    let end = if (i + 1) * first.chunk_size <= m.pos {
        (i + 1) * first.chunk_size
    } else {
        m.pos
    };
    hash::lemma_quotients_grow(first.chunk_size, m.pos, u64::MAX - 1);
    hash::law_whole_input_hashes_every_chunk(first, copied, i);
    assert((i + 1) * first.chunk_size == i * first.chunk_size + first.chunk_size)
        by (nonlinear_arith);
    assert(copied.subrange(i * first.chunk_size, end) =~= source.subrange(
        i * first.chunk_size,
        end,
    ));
}

// ---------------------------------------------------------------------------
// What is asked of the driver.

/// Healthy reads are of whole transfers: a read that does not isolate an error asks for a
/// transfer, or for all that is left of the range (in a refresh by the manifest: of the
/// chunk). A read that does is of a sector, or of what is left of the block.
pub proof fn law_reads_are_as_large_as_they_may_be(m: CopyModel)
    requires
        m.wf(),
        m.action() is ReadSource,
    ensures
        m.action() matches Action::ReadSource { offset, want, request } ==> {
            let end = match m.isolating {
                Some(end) => end,
                None => m.stop,
            };
            let most = if m.isolating is Some {
                m.options.sector
            } else {
                m.options.transfer
            };
            &&& 0 < want <= most
            &&& want == most || offset + want == m.options.skip + end
        },
{
}

/// A buffered read asks for what it uses. A direct read asks for whole sectors, no more
/// than are needed, unless the room for it ends before.
pub proof fn law_direct_reads_are_of_whole_sectors(m: CopyModel)
    requires
        m.wf(),
        m.action() is ReadSource,
    ensures
        m.action() matches Action::ReadSource { offset, want, request } ==> {
            &&& !m.options.direct ==> request == want
            &&& m.options.direct ==> want <= request < want + m.options.sector && (
            request as int % m.options.sector as int == 0 || (m.job matches Some(job) && request
                == m.hasher.chunk_size - job.offset))
        },
{
    let (want, sector) = (m.want(), m.options.sector as int);
    copier::lemma_aligned_up(want, sector, m.options.transfer as int);
    let c = hash::ceil_div(want, sector);
    hash::lemma_ceil_div(want, sector, c - 1);
    assert((c - 1) * sector == c * sector - sector) by (nonlinear_arith);
}

/// The first read error on a buffered source switches read-ahead off, before anything is
/// read again; after that, and with direct reads, it is left alone.
pub proof fn law_first_error_switches_read_ahead_off(m: CopyModel, signals: Signals)
    requires
        m.wf(),
        m.at == At::Reading,
        m.options.domain > 0,
        m.job is None,
        m.isolating is None,
    ensures
        ({
            let next = m.next(ReplyModel::MediaError, signals);
            &&& next.action() == Action::DisableReadahead <==> !m.options.direct && !m.readahead_off
            &&& next.map == m.map
            &&& next.action() == Action::DisableReadahead ==> next.next(
                ReplyModel::Done,
                signals,
            ).readahead_off
        }),
{
    reveal(CopyModel::on_media_error);
    reveal(CopyModel::resume);
    reveal(CopyModel::settle);
    let next = CopyModel { isolating: Some(m.pos + m.want()), ..m };
    world::lemma_resume_records(next, signals);
}

/// A failed block is read again sector by sector, from its start, unless the run is
/// interrupted.
pub proof fn law_failed_block_is_isolated(m: CopyModel, signals: Signals)
    requires
        m.wf(),
        m.at == At::Reading,
        m.options.domain > 0,
        m.job is None,
        m.isolating is None,
        m.options.direct || m.readahead_off,
        !signals.interrupted,
    ensures
        ({
            let next = m.next(ReplyModel::MediaError, signals);
            m.action() matches Action::ReadSource { offset, want, request } ==> (
            next.action() matches Action::ReadSource { offset: again, want: less, request: asked }
                && again == offset && less <= m.options.sector && less <= want)
        }),
{
    reveal(CopyModel::on_media_error);
    reveal(CopyModel::resume);
    reveal(CopyModel::settle);
}

/// A checkpoint is saved when it is due: once a block is through (its bytes written, or its
/// sector found unreadable), the state is flushed before anything else, but for a chunk
/// of a refresh that is still being written.
pub proof fn law_checkpoint_is_saved_when_due(m: CopyModel, reply: ReplyModel, signals: Signals)
    requires
        m.wf(),
        signals.flush_due,
        (m.at == At::Writing && reply is Done) || (m.at == At::Reading && reply is MediaError
            && m.job is None && m.isolating is Some),
        m.options.domain > 0,
    ensures
        ({
            let next = m.next(reply, signals);
            next.action() == Action::Flush || (m.job is Some && next.job is Some)
        }),
{
    reveal(CopyModel::on_media_error);
    reveal(CopyModel::on_written);
    reveal(CopyModel::commit);
    reveal(CopyModel::commit_chunk_block);
    reveal(CopyModel::advance);
}

/// After a checkpoint the copy goes on where it was: what is flushed is the state as it is,
/// and neither map nor manifest nor counters change.
pub proof fn law_checkpoint_changes_nothing(m: CopyModel, signals: Signals)
    requires
        m.wf(),
        m.action() == Action::Flush,
        m.options.domain > 0,
    ensures
        ({
            let next = m.next(ReplyModel::Done, signals);
            &&& next.map == m.map
            &&& next.hasher == m.hasher
            &&& next.bytes_written == m.bytes_written
            &&& next.bytes_written_this_run == m.bytes_written_this_run
            &&& next.bytes_skipped_by_hash == m.bytes_skipped_by_hash
            &&& next.processed == m.processed
            &&& next.short == m.short
        }),
{
    reveal(CopyModel::open_stride);
    reveal(CopyModel::open_region);
    reveal(CopyModel::end_pass);
    reveal(CopyModel::next_region);
    reveal(CopyModel::settle);
    reveal(CopyModel::resume);
}

// ---------------------------------------------------------------------------
// Interruption.

/// An interrupted run is saved: it stops as interrupted only after its state was
/// flushed. And once the signal is there, no further read of the source begins.
pub proof fn law_interrupted_run_is_saved(m: CopyModel, reply: ReplyModel, signals: Signals)
    requires
        m.wf(),
        m.expects(reply),
    ensures
        m.next(reply, signals).at == At::Stopped(Outcome::Interrupted) ==> m.action()
            == Action::Flush && reply is Done,
        signals.interrupted ==> m.next(reply, signals).at != At::Reading,
{
    world::lemma_next_records(m, reply, signals);
}

/// Going on changes neither the map nor what was saved, and neither fails nor, without a
/// signal, stops.
spec fn is_calm(m: CopyModel, n: CopyModel, signals: Signals) -> bool {
    &&& n.map == m.map
    &&& n.bytes_skipped_by_hash == m.bytes_skipped_by_hash
    &&& n.at != At::Stopped(Outcome::Failed)
    &&& n.at != At::Stopped(Outcome::Interrupted)
    &&& !signals.interrupted ==> n.at != (At::Flushing { stop: true })
}

proof fn lemma_going_on(signals: Signals)
    ensures
        forall|m: CopyModel| is_calm(m, #[trigger] m.resume(signals), signals),
        forall|m: CopyModel| is_calm(m, #[trigger] m.advance(signals), signals),
{
    assert forall|m: CopyModel| is_calm(m, #[trigger] m.resume(signals), signals) by {
        reveal(CopyModel::open_stride);
        reveal(CopyModel::open_region);
        reveal(CopyModel::end_pass);
        reveal(CopyModel::next_region);
        reveal(CopyModel::end_input);
        reveal(CopyModel::settle);
        reveal(CopyModel::resume);
    }
    assert forall|m: CopyModel| is_calm(m, #[trigger] m.advance(signals), signals) by {
        reveal(CopyModel::advance);
        assert(is_calm(m, m.resume(signals), signals));
    }
}

/// Only a signal interrupts a run: without one it neither stops as interrupted nor prepares
/// to, and once it does, it stops as soon as its state is saved.
#[verifier::rlimit(40)]
pub proof fn law_only_signals_interrupt(m: CopyModel, reply: ReplyModel, signals: Signals)
    requires
        m.wf(),
        m.expects(reply),
    ensures
        ({
            let next = m.next(reply, signals);
            let stopping = At::Flushing { stop: true };
            &&& m.at != stopping && !signals.interrupted ==> next.at != stopping && next.at
                != At::Stopped(Outcome::Interrupted)
            &&& m.at == stopping && reply is Done ==> next.at == At::Stopped(Outcome::Interrupted)
        }),
{
    lemma_going_on(signals);
    reveal(CopyModel::end_input);
    reveal(CopyModel::moved);
    reveal(CopyModel::commit);
    reveal(CopyModel::commit_chunk_block);
    reveal(CopyModel::chunk_read);
    reveal(CopyModel::fall_back);
    reveal(CopyModel::on_source);
    reveal(CopyModel::on_end_of_source);
    reveal(CopyModel::on_media_error);
    reveal(CopyModel::on_target);
    reveal(CopyModel::on_written);
}

/// Only what cannot be helped fails a run: an action that failed for good, or an unreadable
/// spot of a source of unknown size, which cannot be passed over. Neither changes what is
/// recorded.
#[verifier::rlimit(40)]
pub proof fn law_only_failures_fail(m: CopyModel, reply: ReplyModel, signals: Signals)
    requires
        m.wf(),
        m.expects(reply),
    ensures
        ({
            let next = m.next(reply, signals);
            &&& next.at == At::Stopped(Outcome::Failed) <==> reply is Failed || (reply is MediaError
                && m.options.domain == 0)
            &&& next.at == At::Stopped(Outcome::Failed) ==> next.map == m.map && next.hasher
                == m.hasher && next.bytes_written == m.bytes_written && next.pos == m.pos
        }),
{
    lemma_going_on(signals);
    reveal(CopyModel::end_input);
    reveal(CopyModel::moved);
    reveal(CopyModel::commit);
    reveal(CopyModel::commit_chunk_block);
    reveal(CopyModel::chunk_read);
    reveal(CopyModel::fall_back);
    reveal(CopyModel::on_source);
    reveal(CopyModel::on_end_of_source);
    reveal(CopyModel::on_media_error);
    reveal(CopyModel::on_target);
    reveal(CopyModel::on_written);
}

/// What a refresh reports as unchanged per manifest is what it passed over: the bytes of a
/// chunk that is done once it has been read, without the target having been looked at.
#[verifier::rlimit(40)]
pub proof fn law_savings_are_what_was_passed_over(m: CopyModel, reply: ReplyModel, signals: Signals)
    requires
        m.wf(),
        m.expects(reply),
    ensures
        ({
            let next = m.next(reply, signals);
            let passed = m.job is Some && reply is Source && (next.map)(m.pos)
                == Some(RegionStatus::Done) && (m.map)(m.pos) != Some(RegionStatus::Done);
            &&& passed ==> next.bytes_skipped_by_hash == copier::counted(
                m.bytes_skipped_by_hash,
                m.stop - m.pos,
            ) && forall|p: int| m.pos <= p < m.stop ==> #[trigger] (next.map)(p) == Some(
                RegionStatus::Done,
            )
            &&& next.bytes_skipped_by_hash != m.bytes_skipped_by_hash ==> m.job is Some
                && reply is Source && (next.map)(m.pos) == Some(RegionStatus::Done)
        }),
{
    lemma_going_on(signals);
    reveal(CopyModel::end_input);
    reveal(CopyModel::moved);
    reveal(CopyModel::commit);
    reveal(CopyModel::commit_chunk_block);
    reveal(CopyModel::chunk_read);
    reveal(CopyModel::fall_back);
    reveal(CopyModel::on_source);
    reveal(CopyModel::on_end_of_source);
    reveal(CopyModel::on_media_error);
    reveal(CopyModel::on_target);
    reveal(CopyModel::on_written);
}

// ---------------------------------------------------------------------------
// Every run ends.

/// The passes a copy has before it, the present one included.
pub open spec fn passes_left(m: CopyModel) -> int {
    if m.at matches At::Stopped(outcome) {
        0
    } else if m.pass == Pass::Retry {
        1
    } else {
        2
    }
}

/// How far the position is from the end.
pub open spec fn way_left(m: CopyModel) -> int {
    let end = if m.options.domain > 0 {
        m.options.domain as int
    } else {
        m.options.limit()
    };
    if m.pos < end {
        end - m.pos
    } else {
        0
    }
}

/// The ways a position can be gone about that are left: by the manifest, by writing the
/// chunk, by reading the block, by reading its sectors.
pub open spec fn ways_left(m: CopyModel) -> int {
    if m.at == (At::Flushing { stop: true }) {
        0
    } else if m.at == At::Start || m.at == (At::Flushing { stop: false }) {
        5
    } else {
        match (m.job, m.isolating) {
            (Some(job), _) => if job.writing {
                3
            } else {
                4
            },
            (None, Some(end)) => 1,
            (None, None) => 2,
        }
    }
}

/// What is left of the chunk being refreshed.
pub open spec fn chunk_left(m: CopyModel) -> int {
    match m.job {
        Some(job) => if job.offset < job.length {
            job.length - job.offset
        } else {
            0
        },
        None => 0,
    }
}

/// The actions that are left for a block.
pub open spec fn actions_left(m: CopyModel) -> int {
    match m.at {
        At::Readahead => 4,
        At::Reading => 3,
        At::Comparing => 2,
        At::Writing => 1,
        _ => 0,
    }
}

/// `n` is nearer to its end than `m`.
pub open spec fn is_nearer(m: CopyModel, n: CopyModel) -> bool {
    decreases_to!(passes_left(m), way_left(m), ways_left(m), chunk_left(m), actions_left(m) =>
        passes_left(n), way_left(n), ways_left(n), chunk_left(n), actions_left(n))
}

/// Where going on leads to.
spec fn goes_on(m: CopyModel, n: CopyModel) -> bool {
    ||| n.at matches At::Stopped(outcome)
    ||| m.pass != Pass::Retry && n.pass == Pass::Retry
    ||| {
        &&& n.pass == m.pass
        &&& n.options == m.options
        &&& n.pos >= m.pos
        &&& n.at == At::Reading || n.at == (At::Flushing { stop: true })
        &&& n.pos == m.pos && m.pos < m.stop ==> n.job == m.job && n.isolating == m.isolating
    }
}

proof fn lemma_resume_goes_on(m: CopyModel, signals: Signals)
    requires
        m.options.domain > 0 ==> m.pos <= m.stop,
        (m.pass == Pass::Sequential) == (m.options.domain == 0),
    ensures
        goes_on(m, m.resume(signals)),
{
    reveal(CopyModel::open_stride);
    reveal(CopyModel::open_region);
    reveal(CopyModel::end_pass);
    reveal(CopyModel::next_region);
    reveal(CopyModel::end_input);
    reveal(CopyModel::settle);
    reveal(CopyModel::resume);
    region::lemma_is_span(m.map, m.pass_status(), m.stop);
}

proof fn lemma_advance_goes_on(m: CopyModel, signals: Signals)
    requires
        m.options.domain > 0 ==> m.pos <= m.stop,
        (m.pass == Pass::Sequential) == (m.options.domain == 0),
    ensures
        goes_on(m, m.advance(signals)) || m.advance(signals) == (CopyModel {
            at: At::Flushing { stop: false },
            ..m
        }),
{
    reveal(CopyModel::advance);
    lemma_resume_goes_on(m, signals);
}

/// A block or a chunk that is through brings the copy on.
proof fn lemma_further(m: CopyModel, further: CopyModel, n: CopyModel)
    requires
        m.wf(),
        !(m.at matches At::Stopped(outcome)),
        further.options == m.options,
        further.pass == m.pass,
        m.pos < further.pos,
        m.pos < m.stop,
        goes_on(further, n) || n == (CopyModel { at: At::Flushing { stop: false }, ..further }),
    ensures
        is_nearer(m, n),
{
}

#[verifier::rlimit(40)]
proof fn lemma_commit_is_nearer(m: CopyModel, now: CopyModel, signals: Signals)
    requires
        m.wf(),
        m.at == At::Reading || m.at == At::Comparing || m.at == At::Writing,
        m.at == At::Reading ==> m.job is None,
        now == (CopyModel {
            block: now.block,
            bytes_written: now.bytes_written,
            bytes_written_this_run: now.bytes_written_this_run,
            wrote_this_run: now.wrote_this_run,
            ..m
        }),
        m.job is None ==> 0 < now.block.len() && m.pos + now.block.len() <= m.stop,
        m.job is Some ==> now.block == m.block,
    ensures
        is_nearer(m, now.commit(signals)),
{
    reveal(CopyModel::commit);
    match m.job {
        None => {
            reveal(CopyModel::moved);
            let n = now.block.len() as int;
            let further = CopyModel {
                hasher: now.hasher.feed(now.pos, now.block),
                map: region::marked(now.map, now.pos, n, RegionStatus::Done),
                ..now
            }.moved(n);
            lemma_advance_goes_on(further, signals);
            lemma_further(m, further, further.advance(signals));
        },
        Some(job) => {
            reveal(CopyModel::commit_chunk_block);
            let n = now.payload().len() as int;
            assert(now.payload() == m.payload());
            assert(n == copier::min(m.options.transfer as int, job.length - job.offset));
            assert(n > 0);
            if job.offset + n >= job.length {
                let further = CopyModel {
                    map: region::marked(now.map, job.start + job.offset, n, RegionStatus::Done),
                    processed: copier::counted(now.processed, n),
                    hasher: HasherModel {
                        chunks: hash::with_digest(now.hasher.chunks, job.index, now.digest),
                        ..now.hasher
                    },
                    job: None,
                    pos: job.start + job.length,
                    ..now
                };
                lemma_advance_goes_on(further, signals);
                lemma_further(m, further, further.advance(signals));
            }
        },
    }
}

/// Every run ends: each answer, whatever it is, brings the copy nearer to its end, and
/// nearer is well-founded. So a run makes no endless loop of reads, not even over a source
/// that gives nothing but errors.
#[verifier::rlimit(40)]
pub proof fn law_every_run_ends(m: CopyModel, reply: ReplyModel, signals: Signals)
    requires
        m.wf(),
        m.expects(reply),
    ensures
        is_nearer(m, m.next(reply, signals)),
{
    match reply {
        ReplyModel::Source(data) => {
            reveal(CopyModel::on_source);
            let used = data.take(copier::min(data.len() as int, m.want()));
            assert(m.want() > 0);
            if used.len() == 0 {
                lemma_end_is_nearer(m, signals);
            } else {
                match m.job {
                    Some(job) => {
                        let now = CopyModel {
                            chunk: m.chunk + used,
                            job: Some(JobModel { offset: job.offset + used.len(), ..job }),
                            ..m
                        };
                        if job.offset + used.len() < job.length {
                            lemma_resume_goes_on(now, signals);
                        } else {
                            reveal(CopyModel::chunk_read);
                            let further = CopyModel {
                                map: region::marked(
                                    now.map,
                                    job.start,
                                    job.length,
                                    RegionStatus::Done,
                                ),
                                processed: copier::counted(now.processed, job.length),
                                bytes_skipped_by_hash: copier::counted(
                                    now.bytes_skipped_by_hash,
                                    job.length,
                                ),
                                job: None,
                                pos: job.start + job.length,
                                ..now
                            };
                            lemma_advance_goes_on(further, signals);
                            lemma_further(m, further, further.advance(signals));
                        }
                    },
                    None => {
                        let now = CopyModel { block: used, ..m };
                        if m.options.skip_zeros && copier::all_zero(used) {
                            lemma_commit_is_nearer(m, now, signals);
                        }
                    },
                }
            }
        },
        ReplyModel::MediaError => {
            reveal(CopyModel::on_media_error);
            reveal(CopyModel::fall_back);
            reveal(CopyModel::moved);
            assert(m.want() > 0);
            if m.job is Some {
                lemma_resume_goes_on(CopyModel { job: None, ..m }, signals);
            } else if m.pass == Pass::Sequential {
            } else if m.isolating is Some {
                let want = m.want();
                let further = CopyModel {
                    hasher: m.hasher.broken(m.pos + want),
                    map: region::marked(m.map, m.pos, want, RegionStatus::Bad),
                    ..m
                }.moved(want);
                lemma_advance_goes_on(further, signals);
                lemma_further(m, further, further.advance(signals));
            } else {
                lemma_resume_goes_on(
                    CopyModel { isolating: Some(m.pos + m.want()), ..m },
                    signals,
                );
            }
        },
        ReplyModel::Target(data) => {
            reveal(CopyModel::on_target);
            if data == Some(m.payload()) {
                lemma_block_fits(m);
                lemma_commit_is_nearer(m, m, signals);
            }
        },
        ReplyModel::Failed => {},
        ReplyModel::Done => {
            match m.at {
                At::Writing => {
                    reveal(CopyModel::on_written);
                    let n = m.payload().len() as int;
                    let now = CopyModel {
                        bytes_written: copier::counted(m.bytes_written, n),
                        bytes_written_this_run: copier::counted(m.bytes_written_this_run, n),
                        wrote_this_run: true,
                        ..m
                    };
                    lemma_block_fits(m);
                    lemma_commit_is_nearer(m, now, signals);
                },
                At::Readahead => {
                    lemma_resume_goes_on(CopyModel { readahead_off: true, ..m }, signals);
                },
                _ => {
                    lemma_resume_goes_on(m, signals);
                },
            }
        },
    }
}

proof fn lemma_block_fits(m: CopyModel)
    requires
        m.wf(),
        m.at == At::Comparing || m.at == At::Writing,
    ensures
        m.job is None ==> 0 < m.block.len() && m.pos + m.block.len() <= m.stop,
{
}

proof fn lemma_end_is_nearer(m: CopyModel, signals: Signals)
    requires
        m.wf(),
        m.at == At::Reading,
    ensures
        is_nearer(m, m.on_end_of_source(signals)),
{
    reveal(CopyModel::on_end_of_source);
    reveal(CopyModel::fall_back);
    reveal(CopyModel::end_input);
    if m.job is Some {
        lemma_resume_goes_on(CopyModel { job: None, ..m }, signals);
    } else if m.pass != Pass::Sequential {
        match m.isolating {
            Some(end) => {
                let further = CopyModel { pos: end, isolating: None, short: true, ..m };
                lemma_advance_goes_on(further, signals);
                lemma_further(m, further, further.advance(signals));
            },
            None => {
                let further = CopyModel { pos: m.stop, short: true, ..m };
                lemma_resume_goes_on(further, signals);
                lemma_further(m, further, further.resume(signals));
            },
        }
    }
}

// ---------------------------------------------------------------------------
// Isolation.

/// Isolation goes on to the end of the block: however the sectors before turn out, every
/// further read of the block is of a sector, until the position is past the block (or the
/// pass is over).
#[verifier::rlimit(40)]
pub proof fn law_isolation_goes_on_to_the_end(
    m: CopyModel,
    reply: ReplyModel,
    signals: Signals,
    end: int,
)
    requires
        m.wf(),
        m.expects(reply),
        m.isolating == Some(end),
    ensures
        ({
            let next = m.next(reply, signals);
            &&& next.at != At::Stopped(Outcome::Finished) && next.pass == m.pass && next.pos < end
                ==> next.isolating == Some(end)
            &&& next.isolating == Some(end) && next.wf() ==> (
            next.action() matches Action::ReadSource { offset, want, request } ==> want
                <= m.options.sector)
        }),
{
    world::lemma_next_records(m, reply, signals);
    lemma_going_on_stays(signals);
    reveal(CopyModel::end_input);
    reveal(CopyModel::moved);
    reveal(CopyModel::commit);
    reveal(CopyModel::fall_back);
    reveal(CopyModel::on_source);
    reveal(CopyModel::on_end_of_source);
    reveal(CopyModel::on_media_error);
    reveal(CopyModel::on_target);
    reveal(CopyModel::on_written);
}

/// Going on from within a range stays where it is, and from its end does not go back.
spec fn stays(m: CopyModel, n: CopyModel) -> bool {
    m.options.domain > 0 && m.pass != Pass::Sequential && m.pos <= m.stop ==> {
        &&& m.pos < m.stop ==> n.pos == m.pos && n.isolating == m.isolating && n.job == m.job
        &&& n.pos >= m.pos || n.pass != m.pass || n.at == At::Stopped(Outcome::Finished)
    }
}

proof fn lemma_going_on_stays(signals: Signals)
    ensures
        forall|m: CopyModel| stays(m, #[trigger] m.resume(signals)),
        forall|m: CopyModel| stays(m, #[trigger] m.advance(signals)),
{
    assert forall|m: CopyModel| stays(m, #[trigger] m.resume(signals)) by {
        if m.options.domain > 0 && m.pass != Pass::Sequential && m.pos <= m.stop {
            lemma_resume_goes_on(m, signals);
        }
        reveal(CopyModel::open_stride);
        reveal(CopyModel::open_region);
        reveal(CopyModel::end_pass);
        reveal(CopyModel::next_region);
        reveal(CopyModel::settle);
        reveal(CopyModel::resume);
    }
    assert forall|m: CopyModel| stays(m, #[trigger] m.advance(signals)) by {
        reveal(CopyModel::advance);
        assert(stays(m, m.resume(signals)));
    }
}

/// A source of unknown size is read as far as it may be: to its length limit, if there is
/// one, or to the last position that is an offset on both sides; and no further.
pub proof fn law_streams_are_read_to_their_limit(o: CopyOptions)
    requires
        o.valid(),
    ensures
        0 <= o.limit(),
        o.length > 0 ==> o.limit() <= o.length,
        o.skip + o.limit() < u64::MAX,
        o.seek + o.limit() < u64::MAX,
        o.limit() == o.length || o.skip + o.limit() == u64::MAX - 1 || o.seek + o.limit()
            == u64::MAX - 1,
{
}

// ---------------------------------------------------------------------------
// Nothing is left out.

/// A retry that was asked for is not left out, even if the source ended early: a copy over a
/// known domain that finishes before its retry pass has no bad byte. And the retry begins
/// with the first bad byte there is.
#[verifier::rlimit(40)]
pub proof fn law_retry_is_not_left_out(m: CopyModel, reply: ReplyModel, signals: Signals, p: int)
    requires
        m.wf(),
        m.expects(reply),
        m.options.domain > 0,
        m.options.retry,
        m.pass != Pass::Retry,
        0 <= p < m.options.domain,
    ensures
        ({
            let next = m.next(reply, signals);
            &&& next.at == At::Stopped(Outcome::Finished) ==> (next.map)(p) != Some(
                RegionStatus::Bad,
            )
            &&& next.pass == Pass::Retry && !(next.at matches At::Stopped(outcome)) && p < next.pos
                ==> (next.map)(p) != Some(RegionStatus::Bad)
        }),
{
    lemma_going_on_retries(signals, p);
    reveal(CopyModel::end_input);
    reveal(CopyModel::moved);
    reveal(CopyModel::commit);
    reveal(CopyModel::commit_chunk_block);
    reveal(CopyModel::chunk_read);
    reveal(CopyModel::fall_back);
    reveal(CopyModel::on_source);
    reveal(CopyModel::on_end_of_source);
    reveal(CopyModel::on_media_error);
    reveal(CopyModel::on_target);
    reveal(CopyModel::on_written);
}

/// The map is of the domain, and the first pass is under way.
spec fn before_retry(m: CopyModel) -> bool {
    &&& m.options.domain > 0
    &&& m.options.retry
    &&& m.pass != Pass::Retry
    &&& m.pass != Pass::Sequential
    &&& forall|p: int| (#[trigger] (m.map)(p) is Some) <==> 0 <= p < m.options.domain
}

spec fn is_retried(m: CopyModel, n: CopyModel, p: int) -> bool {
    before_retry(m) && 0 <= p < m.options.domain ==> {
        &&& n.at == At::Stopped(Outcome::Finished) ==> (n.map)(p) != Some(RegionStatus::Bad)
        &&& n.pass == Pass::Retry && !(n.at matches At::Stopped(outcome)) && p < n.pos ==> (n.map)(
            p,
        ) != Some(RegionStatus::Bad)
    }
}

proof fn lemma_going_on_retries(signals: Signals, p: int)
    ensures
        forall|m: CopyModel| is_retried(m, #[trigger] m.resume(signals), p),
        forall|m: CopyModel| is_retried(m, #[trigger] m.advance(signals), p),
{
    assert forall|m: CopyModel| is_retried(m, #[trigger] m.resume(signals), p) by {
        reveal(CopyModel::open_stride);
        reveal(CopyModel::open_region);
        reveal(CopyModel::end_pass);
        reveal(CopyModel::next_region);
        reveal(CopyModel::settle);
        reveal(CopyModel::resume);
        if before_retry(m) && 0 <= p < m.options.domain {
            let bad = RegionStatus::Bad;
            if (m.map)(p) == Some(bad) {
                assert forall|q: int| m.options.domain <= q implies #[trigger] (m.map)(q) is None by {
                }
                region::lemma_next_span_exists(m.map, bad, 0, p, m.options.domain as int);
                region::lemma_is_span(m.map, bad, 0);
            }
        }
    }
    assert forall|m: CopyModel| is_retried(m, #[trigger] m.advance(signals), p) by {
        reveal(CopyModel::advance);
        assert(is_retried(m, m.resume(signals), p));
    }
}

/// A chunk that is rewritten is compared and written in whole transfers, but for its end.
pub proof fn law_chunks_are_rewritten_in_whole_transfers(m: CopyModel)
    requires
        m.wf(),
        m.job is Some,
        m.at == At::Comparing || m.at == At::Writing,
    ensures
        ({
            let n = m.payload().len() as int;
            &&& 0 < n <= m.options.transfer
            &&& n == m.options.transfer || m.read_pos() + n == m.stop
        }),
{
}

} // verus!
