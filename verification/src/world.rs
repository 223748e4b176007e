//! What a copy does to the world: the laws of a whole run.
//!
//! The [`World`] is what the driver works on: the bytes of the source and of the
//! target, both in domain coordinates. A reply is *honest* if it reports those
//! bytes; a carried-out write changes them, and one that fails may have done so in
//! part. Over any run of honest replies the
//! copier keeps its promises: a byte marked done is on the target, a digest in
//! the manifest is the digest of the source's chunk, and a pass that ran to its
//! end left nothing untried.

use crate::copier;
use crate::copier::{At, CopyModel, JobModel, Outcome, Pass, ReplyModel, Signals};
use crate::hash;
use crate::hash::HasherModel;
use crate::region;
use crate::region::{RegionStatus, Statuses};
use vstd::prelude::*;

verus! {

/// Source and target in domain coordinates: byte `p` of the domain is
/// `source[p]`, and belongs at `target(p)`.
pub struct World {
    pub source: Seq<u8>,
    pub target: spec_fn(int) -> u8,
}

/// `data` is what `source` holds at `at`.
pub open spec fn agrees(source: Seq<u8>, at: int, data: Seq<u8>) -> bool {
    &&& data.len() > 0 ==> 0 <= at && at + data.len() <= source.len()
    &&& forall|i: int| 0 <= i < data.len() ==> #[trigger] data[i] == source[at + i]
}

/// `data` is what `target` holds at `at`.
pub open spec fn holds(target: spec_fn(int) -> u8, at: int, data: Seq<u8>) -> bool {
    forall|i: int| 0 <= i < data.len() ==> #[trigger] data[i] == target(at + i)
}

/// `target` with `data` written at `at`.
pub open spec fn written(target: spec_fn(int) -> u8, at: int, data: Seq<u8>) -> spec_fn(int) -> u8 {
    |p: int| if at <= p < at + data.len() { data[p - at] } else { target(p) }
}

impl World {
    /// The reply reports what source and target hold.
    pub open spec fn honest(self, m: CopyModel, reply: ReplyModel) -> bool {
        match reply {
            ReplyModel::Source(data) => agrees(self.source, m.read_pos(), data),
            ReplyModel::Target(Some(data)) => holds(self.target, m.read_pos(), data),
            _ => true,
        }
    }

    /// What the pending action does to the world, if it does what it is to do.
    pub open spec fn after(self, m: CopyModel, reply: ReplyModel) -> World {
        if m.at == At::Writing && reply is Done {
            World { target: written(self.target, m.read_pos(), m.payload()), ..self }
        } else {
            self
        }
    }

    /// What the pending action may do to the world: a write that fails may have
    /// put any part of its block on the target; all else is as it is to be.
    pub open spec fn leads_to(self, m: CopyModel, reply: ReplyModel, after: World) -> bool {
        if m.at == At::Writing && reply is Failed {
            &&& after.source == self.source
            &&& forall|p: int| #[trigger]
                (after.target)(p) == (self.target)(p) || (m.read_pos() <= p < m.read_pos()
                    + m.payload().len() && (after.target)(p) == m.payload()[p - m.read_pos()])
        } else {
            after == self.after(m, reply)
        }
    }
}

/// `after` is `w` at some later time: the source may have grown, and a byte of
/// the target is as it was or has become the source's.
pub open spec fn later(w: World, after: World) -> bool {
    &&& w.source.len() <= after.source.len()
    &&& forall|p: int| 0 <= p < w.source.len() ==> #[trigger] after.source[p] == w.source[p]
    &&& forall|p: int| #[trigger]
        (after.target)(p) == (w.target)(p) || (0 <= p < after.source.len() && (after.target)(p)
            == after.source[p])
}

/// Byte `p` was taken over from an earlier run on the word of `prior`, the
/// manifest the refresh started from: its chunk of the source still has the
/// digest recorded there, and is not up for repair. A refresh that compares with
/// the target takes nothing over.
pub open spec fn vouched(m: CopyModel, w: World, prior: Seq<Seq<char>>, p: int) -> bool {
    let size = m.hasher.chunk_size;
    let index = p / size;
    &&& m.options.refresh
    &&& !m.options.skip_unchanged
    &&& m.options.domain > 0
    &&& hash::chunk_end(size, m.options.domain as int, index) <= w.source.len()
    &&& hash::digest_at(prior, index).len() > 0
    &&& hash::digest_at(prior, index) == hash::blake3_hex(
        hash::source_chunk(w.source, size, m.options.domain as int, index),
    )
    &&& !m.repair.contains((index * size) as u64)
}

/// The target holds the source's byte `p`, or (in a refresh) the manifest it
/// started from vouches for it.
pub open spec fn faithful(m: CopyModel, w: World, prior: Seq<Seq<char>>, p: int) -> bool {
    (0 <= p < w.source.len() && (w.target)(p) == w.source[p]) || vouched(m, w, prior, p)
}

/// Every done byte is faithful.
pub open spec fn done_is_faithful(m: CopyModel, w: World, prior: Seq<Seq<char>>) -> bool {
    forall|p: int| #[trigger] (m.map)(p) == Some(RegionStatus::Done) ==> faithful(m, w, prior, p)
}

/// The target shows no stale data at byte `p`: it reads as zero there, or holds
/// the source's byte already.
pub open spec fn not_stale(w: World, p: int) -> bool {
    (w.target)(p) == 0 || (0 <= p < w.source.len() && (w.target)(p) == w.source[p])
}

/// Byte `p` is one that a copy over `domain` bytes (`0`: of unknown size) may
/// come to.
pub open spec fn in_reach(domain: u64, p: int) -> bool {
    0 <= p && (domain > 0 ==> p < domain)
}

/// Where zero blocks are left out, the target shows no stale data wherever a byte
/// is still to be copied.
pub open spec fn blank_elsewhere(m: CopyModel, w: World) -> bool {
    m.options.skip_zeros ==> forall|p: int|
        in_reach(m.options.domain, p) && #[trigger] (m.map)(p) != Some(RegionStatus::Done)
            ==> not_stale(w, p)
}

/// The bytes the machine holds are the source's.
pub open spec fn buffers_agree(m: CopyModel, w: World) -> bool {
    &&& agrees(w.source, m.hasher.run_start(), m.hasher.run)
    &&& m.job matches Some(job) ==> agrees(w.source, job.start, m.chunk)
    &&& (m.at == At::Comparing || m.at == At::Writing) && m.job is None ==> agrees(
        w.source,
        m.pos,
        m.block,
    )
}

/// Chunk `i` is the tail of a source of unknown size that has been copied to its
/// end (or to the length limit): its digest is that of the bytes there are.
pub open spec fn is_tail_digest(m: CopyModel, w: World, i: int) -> bool {
    &&& m.options.domain == 0
    &&& m.at == At::Stopped(Outcome::Finished)
    &&& i == m.pos / m.hasher.chunk_size
    &&& m.pos <= w.source.len()
    &&& hash::digest_at(m.hasher.chunks, i) == hash::blake3_hex(
        w.source.subrange(i * m.hasher.chunk_size, m.pos),
    )
}

/// Every digest is the one recorded in `prior`, or the digest of that chunk of
/// the source (for a source of unknown size: of what it holds of its last one).
pub open spec fn digests_agree(m: CopyModel, w: World, prior: Seq<Seq<char>>) -> bool {
    forall|i: int|
        0 <= i ==> hash::digest_at(m.hasher.chunks, i) == hash::digest_at(prior, i) || (
        #[trigger] hash::digest_at(m.hasher.chunks, i) == hash::blake3_hex(
            hash::source_chunk(w.source, m.hasher.chunk_size, m.hasher.domain, i),
        ) && hash::chunk_end(m.hasher.chunk_size, m.hasher.domain, i) <= w.source.len())
            || is_tail_digest(m, w, i)
}

/// The bytes of a source of unknown size reach the hasher without a break.
pub open spec fn streamed(m: CopyModel) -> bool {
    m.options.domain == 0 && m.hasher.run.len() > 0 ==> m.hasher.expected == m.pos
}

/// Byte `p` lies ahead in the range (in a refresh: in the region).
pub open spec fn lies_ahead(m: CopyModel, p: int) -> bool {
    let from = match m.job {
        Some(job) => if job.writing {
            job.start + job.offset
        } else {
            m.pos
        },
        None => m.pos,
    };
    let end = if m.pass == Pass::Refresh {
        m.region_end
    } else {
        m.stop
    };
    from <= p < end
}

/// What lies ahead is still as the pass found it: untried, or bad in a retry.
pub open spec fn open_ahead(m: CopyModel) -> bool {
    m.options.domain > 0 ==> forall|p: int|
        lies_ahead(m, p) ==> #[trigger] (m.map)(p) == Some(m.pass_status())
}

/// A refresh finds the chunks ahead as `prior` records them.
pub open spec fn recorded_ahead(m: CopyModel, prior: Seq<Seq<char>>) -> bool {
    m.pass == Pass::Refresh ==> forall|i: int|
        0 <= i && m.pos <= i * m.hasher.chunk_size ==> #[trigger] hash::digest_at(
            m.hasher.chunks,
            i,
        ) == hash::digest_at(prior, i)
}

/// What every state of an honest run keeps. `prior` is the manifest the run
/// started from.
pub open spec fn kept(m: CopyModel, w: World, prior: Seq<Seq<char>>) -> bool {
    &&& done_is_faithful(m, w, prior)
    &&& blank_elsewhere(m, w)
    &&& open_ahead(m)
    &&& recorded_ahead(m, prior)
    &&& buffers_agree(m, w)
    &&& streamed(m)
    &&& digests_agree(m, w, prior)
}

// ---------------------------------------------------------------------------
// Steps that only move on.

/// Facts that do not depend on where the machine is.
proof fn lemma_same_facts(m: CopyModel, n: CopyModel, w: World, prior: Seq<Seq<char>>)
    requires
        kept(m, w, prior),
        n.options == m.options,
        n.map == m.map,
        n.repair == m.repair,
        n.hasher == m.hasher,
        m.options.domain == 0 ==> n.pos == m.pos,
        m.at != At::Stopped(Outcome::Finished),
        !(n.at == At::Comparing || n.at == At::Writing),
        n.job matches Some(job) ==> agrees(w.source, job.start, n.chunk),
        open_ahead(n),
        recorded_ahead(n, prior),
    ensures
        kept(n, w, prior),
{
    assert forall|p: int| #[trigger] (n.map)(p) == Some(RegionStatus::Done) implies faithful(
        n,
        w,
        prior,
        p,
    ) by {
        assert((m.map)(p) == Some(RegionStatus::Done));
        assert(faithful(m, w, prior, p));
    }
    assert(digests_agree(n, w, prior)) by {
        assert forall|i: int| 0 <= i implies hash::digest_at(n.hasher.chunks, i) == hash::digest_at(
            prior,
            i,
        ) || (#[trigger] hash::digest_at(n.hasher.chunks, i) == hash::blake3_hex(
            hash::source_chunk(w.source, n.hasher.chunk_size, n.hasher.domain, i),
        ) && hash::chunk_end(n.hasher.chunk_size, n.hasher.domain, i) <= w.source.len()) by {
            assert(hash::digest_at(m.hasher.chunks, i) == hash::digest_at(m.hasher.chunks, i));
        }
    }
}

/// At the end of the input, the trailing chunk gets its digest.
proof fn lemma_end_input_keeps(m: CopyModel, w: World, prior: Seq<Seq<char>>)
    requires
        kept(m, w, prior),
        m.options.domain == 0,
        m.pass == Pass::Sequential,
        m.hasher.domain == 0,
        m.hasher.wf(),
        m.at != At::Stopped(Outcome::Finished),
        m.job is None,
    ensures
        kept(m.end_input(), w, prior),
{
    reveal(CopyModel::end_input);
    let n = m.end_input();
    let (h, size) = (m.hasher, m.hasher.chunk_size);
    let tail = h.expected / size;
    if h.building() {
        h.lemma_building_has_run();
        hash::lemma_within_chunk(size, h.expected, 0);
        assert(h.run[h.run.len() - 1] == w.source[h.run_start() + (h.run.len() - 1)]);
        assert(h.run.subrange(tail * size - h.run_start(), h.run.len() as int)
            =~= w.source.subrange(tail * size, m.pos));
    }
    assert forall|p: int| #[trigger] (n.map)(p) == Some(RegionStatus::Done) implies faithful(
        n,
        w,
        prior,
        p,
    ) by {
        assert((m.map)(p) == Some(RegionStatus::Done));
        assert(faithful(m, w, prior, p));
    }
    assert forall|i: int| 0 <= i implies hash::digest_at(n.hasher.chunks, i) == hash::digest_at(
        prior,
        i,
    ) || (#[trigger] hash::digest_at(n.hasher.chunks, i) == hash::blake3_hex(
        hash::source_chunk(w.source, size, n.hasher.domain, i),
    ) && hash::chunk_end(size, n.hasher.domain, i) <= w.source.len()) || is_tail_digest(
        n,
        w,
        i,
    ) by {
        assert(hash::digest_at(m.hasher.chunks, i) == hash::digest_at(m.hasher.chunks, i));
    }
}

proof fn lemma_resume_keeps(m: CopyModel, w: World, prior: Seq<Seq<char>>, signals: Signals)
    requires
        kept(m, w, prior),
        m.nested(),
        m.hasher.wf(),
        m.options.domain == 0 ==> m.job is None,
        m.at != At::Stopped(Outcome::Finished),
        (m.pass == Pass::Sequential) == (m.options.domain == 0),
        m.hasher.domain == m.options.domain,
        !(m.job matches Some(job) && job.writing),
    ensures
        kept(m.resume(signals), w, prior),
{
    reveal(CopyModel::resume);
    reveal(CopyModel::settle);
    reveal(CopyModel::next_region);
    reveal(CopyModel::end_pass);
    reveal(CopyModel::end_input);
    reveal(CopyModel::open_region);
    reveal(CopyModel::open_stride);
    region::lemma_is_span(m.map, m.pass_status(), m.stop);
    region::lemma_is_span(m.map, RegionStatus::Bad, 0);
    assert(open_ahead(m.resume(signals)));
    assert(recorded_ahead(m.resume(signals), prior));
    if m.options.domain == 0 && !signals.interrupted && m.pos >= m.stop {
        lemma_end_input_keeps(m, w, prior);
    } else {
        lemma_same_facts(m, m.resume(signals), w, prior);
    }
}

proof fn lemma_advance_keeps(m: CopyModel, w: World, prior: Seq<Seq<char>>, signals: Signals)
    requires
        kept(m, w, prior),
        m.nested(),
        m.hasher.wf(),
        m.options.domain == 0 ==> m.job is None,
        m.at != At::Stopped(Outcome::Finished),
        (m.pass == Pass::Sequential) == (m.options.domain == 0),
        m.hasher.domain == m.options.domain,
        !(m.job matches Some(job) && job.writing),
    ensures
        kept(m.advance(signals), w, prior),
{
    reveal(CopyModel::advance);
    if signals.flush_due {
        lemma_same_facts(m, m.advance(signals), w, prior);
    } else {
        lemma_resume_keeps(m, w, prior, signals);
    }
}

// ---------------------------------------------------------------------------
// Steps that record something.

/// Feeding source bytes keeps what the manifest says true.
proof fn lemma_feed_keeps(
    h: HasherModel,
    source: Seq<u8>,
    offset: int,
    data: Seq<u8>,
)
    requires
        h.wf(),
        h.can_feed(offset, data.len() as int),
        data.len() > 0,
        agrees(source, offset, data),
        agrees(source, h.run_start(), h.run),
    ensures
        agrees(source, h.feed(offset, data).run_start(), h.feed(offset, data).run),
        forall|i: int|
            0 <= i ==> hash::digest_at(h.feed(offset, data).chunks, i) == hash::digest_at(
                h.chunks,
                i,
            ) || (#[trigger] hash::digest_at(h.feed(offset, data).chunks, i) == hash::blake3_hex(
                hash::source_chunk(source, h.chunk_size, h.domain, i),
            ) && hash::chunk_end(h.chunk_size, h.domain, i) <= source.len()),
{
    assert(data[data.len() - 1] == source[offset + data.len() - 1]);
    assert(data =~= source.subrange(offset, offset + data.len()));
    if h.run.len() > 0 {
        assert(h.run[h.run.len() - 1] == source[h.run_start() + h.run.len() - 1]);
        assert(h.run =~= source.subrange(h.run_start(), h.expected));
    }
    hash::law_digests_are_of_the_source(h, source, offset, data);
}

/// Before a block is marked done: the facts hold outside the block, and the
/// target holds the block.
spec fn ready(m: CopyModel, w: World, prior: Seq<Seq<char>>) -> bool {
    let at = m.read_pos();
    let data = m.payload();
    &&& forall|p: int| #[trigger]
        (m.map)(p) == Some(RegionStatus::Done) && !(at <= p < at + data.len()) ==> faithful(
            m,
            w,
            prior,
            p,
        )
    &&& m.options.skip_zeros ==> forall|p: int|
        in_reach(m.options.domain, p) && #[trigger] (m.map)(p) != Some(RegionStatus::Done) && !(at
            <= p < at + data.len()) ==> not_stale(w, p)
    &&& holds(w.target, at, data)
    &&& agrees(w.source, at, data)
    &&& agrees(w.source, m.hasher.run_start(), m.hasher.run)
    &&& m.job matches Some(job) ==> agrees(w.source, job.start, m.chunk)
    &&& open_ahead(m)
    &&& recorded_ahead(m, prior)
    &&& streamed(m)
    &&& digests_agree(m, w, prior)
    &&& m.at != At::Stopped(Outcome::Finished)
}

proof fn lemma_kept_is_ready(m: CopyModel, w: World, prior: Seq<Seq<char>>)
    requires
        kept(m, w, prior),
        holds(w.target, m.read_pos(), m.payload()),
        agrees(w.source, m.read_pos(), m.payload()),
        m.at != At::Stopped(Outcome::Finished),
    ensures
        ready(m, w, prior),
{
}

pub(crate) proof fn lemma_payload_agrees(m: CopyModel, w: World, prior: Seq<Seq<char>>)
    requires
        m.wf(),
        kept(m, w, prior),
        m.at == At::Comparing || m.at == At::Writing,
    ensures
        agrees(w.source, m.read_pos(), m.payload()),
{
    match m.job {
        Some(job) => {
            let data = m.payload();
            let at = m.read_pos();
            assert forall|i: int| 0 <= i < data.len() implies #[trigger] data[i] == w.source[at
                + i] by {
                assert(m.chunk[job.offset + i] == w.source[job.start + (job.offset + i)]);
            }
        },
        None => {
            assert(agrees(w.source, m.pos, m.block));
        },
    }
}

proof fn lemma_commit_keeps(m: CopyModel, w: World, prior: Seq<Seq<char>>, signals: Signals)
    requires
        m.sound(),
        m.at_block(),
        ready(m, w, prior),
    ensures
        kept(m.commit(signals), w, prior),
{
    reveal(CopyModel::commit);
    match m.job {
        Some(job) => {
            lemma_commit_chunk_block_keeps(m, w, prior, job, signals);
        },
        None => {
            let n = m.block.len() as int;
            let next = CopyModel {
                hasher: m.hasher.feed(m.pos, m.block),
                map: region::marked(m.map, m.pos, n, RegionStatus::Done),
                ..m
            };
            let moved = next.moved(n);
            reveal(CopyModel::moved);
            let c = m.hasher.chunk_size;
            if m.options.domain > 0 {
                hash::lemma_chunks_ended_grow(
                    c,
                    m.options.domain as int,
                    m.pos + n,
                    m.options.domain as int,
                );
            } else {
                hash::lemma_quotients_grow(c, m.pos + n, u64::MAX - 1);
            }
            lemma_feed_keeps(m.hasher, w.source, m.pos, m.block);
            assert forall|p: int| #[trigger]
                (next.map)(p) == Some(RegionStatus::Done) implies faithful(next, w, prior, p) by {
                if m.pos <= p < m.pos + n {
                    assert(m.block[p - m.pos] == w.source[p]);
                    assert(m.block[p - m.pos] == (w.target)(p));
                } else {
                    assert((m.map)(p) == Some(RegionStatus::Done));
                    assert(faithful(m, w, prior, p));
                }
            }
            assert forall|p: int|
                next.options.skip_zeros && in_reach(next.options.domain, p) && #[trigger] (next.map)(p)
                    != Some(RegionStatus::Done) implies not_stale(w, p) by {
                assert((m.map)(p) != Some(RegionStatus::Done));
            }
            assert forall|i: int|
                0 <= i implies hash::digest_at(next.hasher.chunks, i) == hash::digest_at(
                prior,
                i,
            ) || (#[trigger] hash::digest_at(next.hasher.chunks, i) == hash::blake3_hex(
                hash::source_chunk(w.source, c, next.hasher.domain, i),
            ) && hash::chunk_end(c, next.hasher.domain, i) <= w.source.len()) by {
                assert(hash::digest_at(m.hasher.chunks, i) == hash::digest_at(
                    m.hasher.chunks,
                    i,
                ));
            }
            let calm = CopyModel { at: At::Reading, ..moved };
            assert forall|i: int|
                calm.pass == Pass::Refresh && 0 <= i && calm.pos <= i
                    * calm.hasher.chunk_size implies #[trigger] hash::digest_at(
                calm.hasher.chunks,
                i,
            ) == hash::digest_at(prior, i) by {
                hash::lemma_feed_leaves_later_chunks(m.hasher, m.pos, m.block, i);
                assert(hash::digest_at(m.hasher.chunks, i) == hash::digest_at(prior, i));
            }
            assert(kept(calm, w, prior));
            assert(calm.advance(signals) == moved.advance(signals)) by {
                lemma_advance_forgets(moved, signals);
            }
            lemma_advance_keeps(calm, w, prior, signals);
        },
    }
}

/// Going on does not depend on what was waited for.
proof fn lemma_advance_forgets(m: CopyModel, signals: Signals)
    ensures
        (CopyModel { at: At::Reading, ..m }).advance(signals) == m.advance(signals),
        (CopyModel { at: At::Reading, ..m }).resume(signals) == m.resume(signals),
{
    reveal(CopyModel::advance);
    reveal(CopyModel::resume);
    reveal(CopyModel::settle);
    reveal(CopyModel::next_region);
    reveal(CopyModel::end_pass);
    reveal(CopyModel::end_input);
    reveal(CopyModel::open_region);
    reveal(CopyModel::open_stride);
}

proof fn lemma_commit_chunk_block_keeps(
    m: CopyModel,
    w: World,
    prior: Seq<Seq<char>>,
    job: JobModel,
    signals: Signals,
)
    requires
        m.sound(),
        m.job == Some(job),
        job.writing,
        ready(m, w, prior),
    ensures
        kept(m.commit_chunk_block(job, signals), w, prior),
{
    reveal(CopyModel::commit_chunk_block);
    let n = m.payload().len() as int;
    let at = m.read_pos();
    let last = job.offset + n >= job.length;
    let hasher = if last {
        HasherModel {
            chunks: hash::with_digest(m.hasher.chunks, job.index, m.digest),
            ..m.hasher
        }
    } else {
        m.hasher
    };
    let next = CopyModel {
        map: region::marked(m.map, at, n, RegionStatus::Done),
        processed: copier::counted(m.processed, n),
        hasher,
        ..m
    };
    let domain = m.options.domain as int;
    let size = m.hasher.chunk_size;
    assert(m.chunk =~= hash::source_chunk(w.source, size, domain, job.index)) by {
        assert(m.chunk[m.chunk.len() - 1] == w.source[job.start + m.chunk.len() - 1]);
    }
    assert(hash::chunk_end(size, domain, job.index) <= w.source.len()) by {
        assert(m.chunk[m.chunk.len() - 1] == w.source[job.start + m.chunk.len() - 1]);
    }
    assert forall|i: int| 0 <= i implies hash::digest_at(next.hasher.chunks, i) == hash::digest_at(
        m.hasher.chunks,
        i,
    ) || (#[trigger] hash::digest_at(next.hasher.chunks, i) == hash::blake3_hex(
        hash::source_chunk(w.source, size, m.hasher.domain, i),
    ) && hash::chunk_end(size, m.hasher.domain, i) <= w.source.len()) by {
        if i == job.index && last {
            assert(hash::digest_at(next.hasher.chunks, i) == m.digest);
        }
    }
    assert forall|p: int| #[trigger] (next.map)(p) == Some(RegionStatus::Done) implies faithful(
        next,
        w,
        prior,
        p,
    ) by {
        if at <= p < at + n {
            assert(m.payload()[p - at] == w.source[p]);
            assert(m.payload()[p - at] == (w.target)(p));
        } else {
            assert((m.map)(p) == Some(RegionStatus::Done));
            assert(faithful(m, w, prior, p));
        }
    }
    assert forall|p: int|
        next.options.skip_zeros && in_reach(next.options.domain, p) && #[trigger] (next.map)(p)
                    != Some(RegionStatus::Done) implies not_stale(w, p) by {
        assert((m.map)(p) != Some(RegionStatus::Done));
    }
    assert forall|i: int| 0 <= i implies hash::digest_at(next.hasher.chunks, i) == hash::digest_at(
        prior,
        i,
    ) || (#[trigger] hash::digest_at(next.hasher.chunks, i) == hash::blake3_hex(
        hash::source_chunk(w.source, size, next.hasher.domain, i),
    ) && hash::chunk_end(size, next.hasher.domain, i) <= w.source.len()) by {
        assert(hash::digest_at(m.hasher.chunks, i) == hash::digest_at(m.hasher.chunks, i));
    }
    if last {
        let moved = CopyModel { job: None, pos: job.start + job.length, ..next };
        let calm = CopyModel { at: At::Reading, ..moved };
        assert(done_is_faithful(calm, w, prior)) by {
            assert forall|p: int| #[trigger]
                (calm.map)(p) == Some(RegionStatus::Done) implies faithful(calm, w, prior, p) by {
                assert((next.map)(p) == Some(RegionStatus::Done));
                assert(faithful(next, w, prior, p));
            }
        }
        assert(blank_elsewhere(calm, w)) by {
            assert forall|p: int|
                calm.options.skip_zeros && in_reach(calm.options.domain, p) && #[trigger] (
                calm.map)(p) != Some(RegionStatus::Done) implies not_stale(w, p) by {
                assert((next.map)(p) != Some(RegionStatus::Done));
            }
        }
        assert(open_ahead(calm)) by {
            assert forall|p: int| lies_ahead(calm, p) implies #[trigger] (calm.map)(p) == Some(
                calm.pass_status(),
            ) by {
                assert(lies_ahead(m, p));
                assert((m.map)(p) == Some(m.pass_status()));
            }
        }
        assert(recorded_ahead(calm, prior)) by {
            assert forall|i: int| 0 <= i && calm.pos <= i * size implies #[trigger] hash::digest_at(
                calm.hasher.chunks,
                i,
            ) == hash::digest_at(prior, i) by {
                assert(i != job.index);
                assert(hash::digest_at(m.hasher.chunks, i) == hash::digest_at(prior, i));
            }
        }
        lemma_advance_forgets(moved, signals);
        lemma_advance_keeps(calm, w, prior, signals);
    } else {
        let result = m.commit_chunk_block(job, signals);
        assert(done_is_faithful(result, w, prior)) by {
            assert forall|p: int| #[trigger]
                (result.map)(p) == Some(RegionStatus::Done) implies faithful(
                    result,
                    w,
                    prior,
                    p,
                ) by {
                assert((next.map)(p) == Some(RegionStatus::Done));
                assert(faithful(next, w, prior, p));
            }
        }
        assert(blank_elsewhere(result, w)) by {
            assert forall|p: int|
                result.options.skip_zeros && in_reach(result.options.domain, p) && #[trigger] (result.map)(p)
                    != Some(RegionStatus::Done) implies not_stale(w, p) by {
                assert((next.map)(p) != Some(RegionStatus::Done));
            }
        }
        assert(kept(result, w, prior));
    }
}

proof fn lemma_source_keeps(
    m: CopyModel,
    w: World,
    prior: Seq<Seq<char>>,
    data: Seq<u8>,
    signals: Signals,
)
    requires
        m.wf(),
        kept(m, w, prior),
        m.at == At::Reading,
        agrees(w.source, m.read_pos(), data),
    ensures
        kept(m.on_source(data, signals), w, prior),
{
    reveal(CopyModel::on_source);
    let used = data.take(copier::min(data.len() as int, m.want()));
    if used.len() == 0 {
        lemma_end_of_source_keeps(m, w, prior, signals);
    } else {
        match m.job {
            Some(job) => {
                let next = CopyModel {
                    chunk: m.chunk + used,
                    job: Some(JobModel { offset: job.offset + used.len(), ..job }),
                    ..m
                };
                assert(agrees(w.source, job.start, next.chunk));
                lemma_same_facts(m, next, w, prior);
                if job.offset + used.len() < job.length {
                    lemma_resume_keeps(next, w, prior, signals);
                } else {
                    let full = JobModel { offset: job.length, ..job };
                    lemma_chunk_read_keeps(m, next, w, prior, full, signals);
                }
            },
            None => {
                let next = CopyModel { block: used, ..m };
                lemma_same_facts(m, next, w, prior);
                assert(agrees(w.source, m.pos, used));
                if m.options.skip_zeros && copier::all_zero(used) {
                    assert forall|i: int| 0 <= i < used.len() implies #[trigger] used[i] == (
                    w.target)(m.pos + i) by {
                        let p = m.pos + i;
                        if (m.map)(p) == Some(RegionStatus::Done) {
                            assert(faithful(m, w, prior, p));
                            assert(used[i] == w.source[p]);
                        }
                    }
                    lemma_kept_is_ready(next, w, prior);
                    lemma_commit_keeps(next, w, prior, signals);
                } else {
                    let result = m.on_source(data, signals);
                    assert forall|p: int| #[trigger]
                        (result.map)(p) == Some(RegionStatus::Done) implies faithful(
                            result,
                            w,
                            prior,
                            p,
                        ) by {
                        assert((m.map)(p) == Some(RegionStatus::Done));
                        assert(faithful(m, w, prior, p));
                    }
                }
            },
        }
    }
}

proof fn lemma_end_of_source_keeps(m: CopyModel, w: World, prior: Seq<Seq<char>>, signals: Signals)
    requires
        m.wf(),
        kept(m, w, prior),
        m.at == At::Reading,
    ensures
        kept(m.on_end_of_source(signals), w, prior),
{
    reveal(CopyModel::on_end_of_source);
    reveal(CopyModel::fall_back);
    reveal(CopyModel::end_input);
    if m.job is Some {
        let next = CopyModel { job: None, ..m };
        lemma_same_facts(m, next, w, prior);
        lemma_resume_keeps(next, w, prior, signals);
    } else if m.pass == Pass::Sequential {
        lemma_end_input_keeps(m, w, prior);
    } else {
        match m.isolating {
            Some(end) => {
                let next = CopyModel { pos: end, isolating: None, short: true, ..m };
                lemma_same_facts(m, next, w, prior);
                lemma_advance_keeps(next, w, prior, signals);
            },
            None => {
                let next = CopyModel { pos: m.stop, short: true, ..m };
                lemma_same_facts(m, next, w, prior);
                lemma_resume_keeps(next, w, prior, signals);
            },
        }
    }
}

/// A byte of a chunk has the chunk's number.
proof fn lemma_chunk_of(size: int, index: int, p: int)
    requires
        size > 0,
        index * size <= p < index * size + size,
    ensures
        p / size == index,
{
    vstd::arithmetic::div_mod::lemma_fundamental_div_mod_converse(p, size, index, p - index * size);
}

proof fn lemma_chunk_read_keeps(
    before: CopyModel,
    m: CopyModel,
    w: World,
    prior: Seq<Seq<char>>,
    job: JobModel,
    signals: Signals,
)
    requires
        before.wf(),
        kept(m, w, prior),
        before.job is Some,
        job == (JobModel { offset: job.length, ..before.job->0 }),
        m == (CopyModel { chunk: m.chunk, job: Some(job), ..before }),
        m.chunk.len() == job.length,
        before.at == At::Reading,
    ensures
        kept(m.chunk_read(job, signals), w, prior),
{
    reveal(CopyModel::chunk_read);
    let size = m.hasher.chunk_size;
    let domain = m.options.domain as int;
    let digest = hash::blake3_hex(m.chunk);
    assert(m.chunk =~= hash::source_chunk(w.source, size, domain, job.index));
    if digest == hash::digest_at(m.hasher.chunks, job.index) && !m.repair.contains(
        job.start as u64,
    ) && !m.options.skip_unchanged {
        let next = CopyModel {
            map: region::marked(m.map, job.start, job.length, RegionStatus::Done),
            processed: copier::counted(m.processed, job.length),
            bytes_skipped_by_hash: copier::counted(m.bytes_skipped_by_hash, job.length),
            job: None,
            pos: job.start + job.length,
            ..m
        };
        assert forall|p: int| #[trigger] (next.map)(p) == Some(RegionStatus::Done) implies faithful(
            next,
            w,
            prior,
            p,
        ) by {
            if job.start <= p < job.start + job.length {
                lemma_chunk_of(size, job.index, p);
                assert(vouched(next, w, prior, p));
            } else {
                assert((m.map)(p) == Some(RegionStatus::Done));
                assert(faithful(m, w, prior, p));
            }
        }
        assert forall|p: int|
            next.options.skip_zeros && in_reach(next.options.domain, p) && #[trigger] (next.map)(p)
                    != Some(RegionStatus::Done) implies not_stale(w, p) by {
            assert((m.map)(p) != Some(RegionStatus::Done));
        }
        lemma_advance_keeps(next, w, prior, signals);
    } else {
        let result = m.chunk_read(job, signals);
        assert forall|p: int| #[trigger]
            (result.map)(p) == Some(RegionStatus::Done) implies faithful(result, w, prior, p) by {
            assert((m.map)(p) == Some(RegionStatus::Done));
            assert(faithful(m, w, prior, p));
        }
    }
}

proof fn lemma_media_error_keeps(m: CopyModel, w: World, prior: Seq<Seq<char>>, signals: Signals)
    requires
        m.wf(),
        kept(m, w, prior),
        m.at == At::Reading,
    ensures
        kept(m.on_media_error(signals), w, prior),
{
    reveal(CopyModel::on_media_error);
    reveal(CopyModel::fall_back);
    reveal(CopyModel::moved);
    if m.job is Some {
        let next = CopyModel { job: None, ..m };
        lemma_same_facts(m, next, w, prior);
        lemma_resume_keeps(next, w, prior, signals);
    } else if m.pass == Pass::Sequential {
        lemma_same_facts(m, m.on_media_error(signals), w, prior);
    } else if m.isolating is Some {
        let want = m.want();
        let next = CopyModel {
            hasher: m.hasher.broken(m.pos + want),
            map: region::marked(m.map, m.pos, want, RegionStatus::Bad),
            ..m
        }.moved(want);
        assert forall|p: int| #[trigger] (next.map)(p) == Some(RegionStatus::Done) implies faithful(
            next,
            w,
            prior,
            p,
        ) by {
            assert((m.map)(p) == Some(RegionStatus::Done));
            assert(faithful(m, w, prior, p));
        }
        assert forall|p: int|
            next.options.skip_zeros && in_reach(next.options.domain, p) && #[trigger] (next.map)(p)
                    != Some(RegionStatus::Done) implies not_stale(w, p) by {
            assert((m.map)(p) != Some(RegionStatus::Done));
        }
        lemma_advance_keeps(next, w, prior, signals);
    } else {
        let next = CopyModel { isolating: Some(m.pos + m.want()), ..m };
        lemma_same_facts(m, next, w, prior);
        if !m.options.direct && !m.readahead_off {
            lemma_same_facts(m, m.on_media_error(signals), w, prior);
        } else {
            lemma_resume_keeps(next, w, prior, signals);
        }
    }
}

proof fn lemma_written_keeps(m: CopyModel, w: World, prior: Seq<Seq<char>>, signals: Signals)
    requires
        m.wf(),
        kept(m, w, prior),
        m.at == At::Writing,
    ensures
        kept(m.on_written(signals), w.after(m, ReplyModel::Done), prior),
{
    reveal(CopyModel::on_written);
    lemma_payload_agrees(m, w, prior);
    let after = w.after(m, ReplyModel::Done);
    let n = m.payload().len() as int;
    let at = m.read_pos();
    let next = CopyModel {
        bytes_written: copier::counted(m.bytes_written, n),
        bytes_written_this_run: copier::counted(m.bytes_written_this_run, n),
        wrote_this_run: true,
        ..m
    };
    assert(next.payload() == m.payload());
    assert forall|p: int| #[trigger]
        (next.map)(p) == Some(RegionStatus::Done) && !(at <= p < at + n) implies faithful(
            next,
            after,
            prior,
            p,
        ) by {
        assert((m.map)(p) == Some(RegionStatus::Done));
        assert(faithful(m, w, prior, p));
    }
    assert forall|p: int|
        next.options.skip_zeros && in_reach(next.options.domain, p) && #[trigger] (next.map)(p)
            != Some(RegionStatus::Done) && !(at <= p < at + n) implies not_stale(after, p) by {
        assert((m.map)(p) != Some(RegionStatus::Done));
    }
    assert(ready(next, after, prior));
    lemma_commit_keeps(next, after, prior, signals);
}

/// What holds of source and target holds later.
proof fn lemma_later_keeps(m: CopyModel, w: World, after: World, prior: Seq<Seq<char>>)
    requires
        kept(m, w, prior),
        later(w, after),
        after.source == w.source,
    ensures
        kept(m, after, prior),
{
    assert forall|p: int| #[trigger] (m.map)(p) == Some(RegionStatus::Done) implies faithful(
        m,
        after,
        prior,
        p,
    ) by {
        assert(faithful(m, w, prior, p));
        assert((after.target)(p) == (after.target)(p));
    }
    assert forall|p: int|
        m.options.skip_zeros && in_reach(m.options.domain, p) && #[trigger] (m.map)(p) != Some(
            RegionStatus::Done,
        ) implies not_stale(after, p) by {
        assert(not_stale(w, p));
        assert((after.target)(p) == (after.target)(p));
    }
    assert forall|i: int| 0 <= i implies hash::digest_at(m.hasher.chunks, i) == hash::digest_at(
        prior,
        i,
    ) || (#[trigger] hash::digest_at(m.hasher.chunks, i) == hash::blake3_hex(
        hash::source_chunk(after.source, m.hasher.chunk_size, m.hasher.domain, i),
    ) && hash::chunk_end(m.hasher.chunk_size, m.hasher.domain, i) <= after.source.len())
        || is_tail_digest(m, after, i) by {
        assert(hash::digest_at(m.hasher.chunks, i) == hash::digest_at(m.hasher.chunks, i));
    }
}

/// One step of an honest run keeps what the run promises: every byte marked done
/// is on the target (or, in a refresh, vouched for by the manifest), and every
/// digest is the source's.
pub proof fn law_step_keeps(
    m: CopyModel,
    w: World,
    prior: Seq<Seq<char>>,
    reply: ReplyModel,
    signals: Signals,
    after: World,
)
    requires
        m.wf(),
        m.expects(reply),
        kept(m, w, prior),
        w.honest(m, reply),
        w.leads_to(m, reply, after),
    ensures
        kept(m.next(reply, signals), after, prior),
{
    match reply {
        ReplyModel::Source(data) => {
            lemma_source_keeps(m, w, prior, data, signals);
        },
        ReplyModel::MediaError => {
            lemma_media_error_keeps(m, w, prior, signals);
        },
        ReplyModel::Target(data) => {
            reveal(CopyModel::on_target);
            lemma_payload_agrees(m, w, prior);
            if data == Some(m.payload()) {
                lemma_kept_is_ready(m, w, prior);
                lemma_commit_keeps(m, w, prior, signals);
            } else {
                let next = m.next(reply, signals);
                assert forall|p: int| #[trigger]
                    (next.map)(p) == Some(RegionStatus::Done) implies faithful(
                        next,
                        w,
                        prior,
                        p,
                    ) by {
                    assert((m.map)(p) == Some(RegionStatus::Done));
                    assert(faithful(m, w, prior, p));
                }
            }
        },
        ReplyModel::Failed => {
            let next = m.next(reply, signals);
            lemma_same_facts(m, next, w, prior);
            if m.at == At::Writing {
                lemma_payload_agrees(m, w, prior);
                assert(later(w, after)) by {
                    assert forall|p: int| #[trigger] (after.target)(p) != (w.target)(p) implies 0
                        <= p < w.source.len() && (after.target)(p) == w.source[p] by {
                        assert(m.payload()[p - m.read_pos()] == w.source[m.read_pos() + (p
                            - m.read_pos())]);
                    }
                }
                lemma_later_keeps(next, w, after, prior);
            }
        },
        ReplyModel::Done => {
            match m.at {
                At::Writing => {
                    lemma_written_keeps(m, w, prior, signals);
                },
                At::Readahead => {
                    let next = CopyModel { readahead_off: true, ..m };
                    lemma_same_facts(m, next, w, prior);
                    lemma_resume_keeps(next, w, prior, signals);
                },
                At::Flushing { stop: true } => {
                    lemma_same_facts(m, m.next(reply, signals), w, prior);
                },
                _ => {
                    lemma_resume_keeps(m, w, prior, signals);
                },
            }
        },
    }
}

// ---------------------------------------------------------------------------
// Whole runs.

/// A run: the states of the machine and of the world from the start on, and the
/// reply and the signals that led from each to the next.
pub struct Run {
    pub machine: Seq<CopyModel>,
    pub world: Seq<World>,
    pub replies: Seq<ReplyModel>,
    pub signals: Seq<Signals>,
}

impl Run {
    /// Each state follows from the one before by an honest reply. (That the
    /// machine's states are well-formed is what `Copier::step` guarantees.)
    pub open spec fn is_run(self) -> bool {
        &&& self.machine.len() == self.world.len() == self.replies.len() + 1
        &&& self.signals.len() == self.replies.len()
        &&& forall|i: int| 0 <= i < self.machine.len() ==> (#[trigger] self.machine[i]).wf()
        &&& forall|i: int|
            0 <= i < self.replies.len() ==> self.step_ok(i, #[trigger] self.replies[i])
    }

    pub open spec fn step_ok(self, i: int, reply: ReplyModel) -> bool {
        &&& self.machine[i].expects(reply)
        &&& self.world[i].honest(self.machine[i], reply)
        &&& self.machine[i + 1] == self.machine[i].next(reply, self.signals[i])
        &&& self.world[i].leads_to(self.machine[i], reply, self.world[i + 1])
    }
}

/// The promises of a run hold in each of its states if they hold at its start.
pub proof fn law_run_keeps(run: Run, prior: Seq<Seq<char>>, i: int)
    requires
        run.is_run(),
        kept(run.machine[0], run.world[0], prior),
        0 <= i < run.machine.len(),
    ensures
        kept(run.machine[i], run.world[i], prior),
    decreases i,
{
    if i > 0 {
        law_run_keeps(run, prior, i - 1);
        assert(run.step_ok(i - 1, run.replies[i - 1]));
        law_step_keeps(
            run.machine[i - 1],
            run.world[i - 1],
            prior,
            run.replies[i - 1],
            run.signals[i - 1],
            run.world[i],
        );
    }
}

/// A fresh copy starts with nothing to answer for, and a resumed one starts with
/// the promises of the runs before: they hold at the start if every byte the map
/// has as done is faithful, and (where zeros are left out) the target shows no
/// stale data elsewhere.
pub proof fn law_start_keeps(m: CopyModel, w: World)
    requires
        m.at == At::Start,
        m.wf(),
        m.job is None,
        m.options.domain > 0 ==> m.pos == m.stop == m.region_end == 0,
        m.hasher.run.len() == 0,
        done_is_faithful(m, w, m.hasher.chunks),
        blank_elsewhere(m, w),
    ensures
        kept(m, w, m.hasher.chunks),
{
}

/// What a run leaves behind, the next one can start from, at once or at a later
/// time: if its map has no byte done that was not, the promises hold at its start.
/// The domain may have been clipped or extended since, or be unknown. A refresh
/// that went by the manifest is resumed as one, over the same domain, with all the
/// digests there were and no chunk more to repair; and to leave zeros out, what is
/// new of the domain must not show stale data.
pub proof fn law_resumed_run_starts_sound(
    m: CopyModel,
    w: World,
    prior: Seq<Seq<char>>,
    next: CopyModel,
    after: World,
)
    requires
        m.wf(),
        kept(m, w, prior),
        later(w, after),
        next.wf(),
        next.at == At::Start,
        next.options.domain > 0 ==> next.pos == next.stop == next.region_end == 0,
        next.hasher.run.len() == 0,
        forall|p: int| #[trigger]
            (next.map)(p) == Some(RegionStatus::Done) ==> (m.map)(p) == Some(RegionStatus::Done),
        m.options.refresh && !m.options.skip_unchanged ==> {
            &&& next.options.refresh
            &&& !next.options.skip_unchanged
            &&& next.options.domain == m.options.domain
            &&& next.hasher.chunk_size == m.hasher.chunk_size
            &&& forall|i: int|
                0 <= i && hash::digest_at(m.hasher.chunks, i).len() > 0
                    ==> #[trigger] hash::digest_at(next.hasher.chunks, i) == hash::digest_at(
                    m.hasher.chunks,
                    i,
                )
            &&& forall|start: u64| #[trigger]
                next.repair.contains(start) ==> m.repair.contains(start)
        },
        next.options.skip_zeros ==> m.options.skip_zeros && forall|p: int|
            in_reach(next.options.domain, p) && !in_reach(m.options.domain, p)
                ==> #[trigger] not_stale(after, p),
    ensures
        kept(next, after, next.hasher.chunks),
{
    let chunks = next.hasher.chunks;
    assert forall|p: int| #[trigger] (next.map)(p) == Some(RegionStatus::Done) implies faithful(
        next,
        after,
        chunks,
        p,
    ) by {
        assert((m.map)(p) == Some(RegionStatus::Done));
        assert(faithful(m, w, prior, p));
        assert((after.target)(p) == (after.target)(p));
        if vouched(m, w, prior, p) {
            let (size, domain) = (m.hasher.chunk_size, m.options.domain as int);
            hash::lemma_within_chunk(size, p, 0);
            let index = p / size;
            assert(hash::digest_at(m.hasher.chunks, index) == hash::digest_at(
                m.hasher.chunks,
                index,
            ));
            assert(hash::digest_at(chunks, index) == hash::digest_at(m.hasher.chunks, index));
            assert(hash::source_chunk(after.source, size, domain, index) =~= hash::source_chunk(
                w.source,
                size,
                domain,
                index,
            ));
        }
    }
    assert forall|p: int|
        next.options.skip_zeros && in_reach(next.options.domain, p) && #[trigger] (next.map)(p)
            != Some(RegionStatus::Done) implies not_stale(after, p) by {
        if in_reach(m.options.domain, p) {
            assert((after.target)(p) == (after.target)(p));
            if (m.map)(p) == Some(RegionStatus::Done) {
                assert(faithful(m, w, prior, p));
            } else {
                assert(not_stale(w, p));
            }
        }
    }
    law_start_keeps(next, after);
}

/// A run moves on: what it does to the target, from any of its states to any later
/// one, is to put the source's bytes there.
pub proof fn law_run_moves_on(run: Run, prior: Seq<Seq<char>>, i: int, j: int)
    requires
        run.is_run(),
        kept(run.machine[0], run.world[0], prior),
        0 <= i <= j < run.machine.len(),
    ensures
        later(run.world[i], run.world[j]),
        run.world[i].source == run.world[j].source,
    decreases j,
{
    if i < j {
        law_run_moves_on(run, prior, i, j - 1);
        law_run_keeps(run, prior, j - 1);
        let (m, w, after) = (run.machine[j - 1], run.world[j - 1], run.world[j]);
        assert(run.step_ok(j - 1, run.replies[j - 1]));
        assert(m.wf());
        if m.at == At::Writing {
            lemma_payload_agrees(m, w, prior);
        }
        assert forall|p: int| #[trigger] (after.target)(p) != (run.world[i].target)(p) implies 0
            <= p < after.source.len() && (after.target)(p) == after.source[p] by {
            assert((w.target)(p) == (w.target)(p));
            if (after.target)(p) != (w.target)(p) {
                assert(m.payload()[p - m.read_pos()] == w.source[m.read_pos() + (p
                    - m.read_pos())]);
            }
        }
    }
}

/// A checkpoint can be resumed from, however far the run came after it, and even
/// if it ended in the middle of a write: the promises hold at the start of a run
/// with the map and the manifest of an earlier state, on the target as it is now.
pub proof fn law_old_checkpoint_can_be_resumed(
    run: Run,
    prior: Seq<Seq<char>>,
    i: int,
    next: CopyModel,
)
    requires
        run.is_run(),
        kept(run.machine[0], run.world[0], prior),
        0 <= i < run.machine.len(),
        next.wf(),
        next.at == At::Start,
        next.options.domain == run.machine[0].options.domain,
        next.options.domain > 0 ==> next.pos == next.stop == next.region_end == 0,
        next.hasher.run.len() == 0,
        next.map == run.machine[i].map,
        next.hasher.chunks == run.machine[i].hasher.chunks,
        next.hasher.chunk_size == run.machine[0].hasher.chunk_size,
        run.machine[0].options.refresh && !run.machine[0].options.skip_unchanged ==> {
            &&& next.options.refresh
            &&& !next.options.skip_unchanged
            &&& forall|start: u64| #[trigger]
                next.repair.contains(start) ==> run.machine[0].repair.contains(start)
        },
        next.options.skip_zeros ==> run.machine[0].options.skip_zeros,
    ensures
        kept(next, run.world.last(), next.hasher.chunks),
{
    law_run_keeps(run, prior, i);
    law_run_moves_on(run, prior, i, run.machine.len() - 1);
    lemma_fixed(run, i);
    assert(run.machine[i].wf());
    law_resumed_run_starts_sound(
        run.machine[i],
        run.world[i],
        prior,
        next,
        run.world[run.machine.len() - 1],
    );
}

/// A copy (not a refresh) that ends with the whole domain done has copied the
/// whole domain: the target holds every byte of the source.
pub proof fn law_complete_copy_is_a_copy(run: Run, prior: Seq<Seq<char>>, p: int)
    requires
        run.is_run(),
        kept(run.machine[0], run.world[0], prior),
        !run.machine[0].options.refresh,
        (run.machine.last().map)(p) == Some(RegionStatus::Done),
    ensures
        0 <= p < run.world[0].source.len(),
        (run.world.last().target)(p) == run.world[0].source[p],
{
    let last = run.machine.len() - 1;
    law_run_keeps(run, prior, last);
    lemma_fixed(run, last);
    assert(faithful(run.machine[last], run.world[last], prior, p));
}

/// Options, repair list, grid and source do not change in a run.
pub(crate) proof fn lemma_fixed(run: Run, i: int)
    requires
        run.is_run(),
        0 <= i < run.machine.len(),
    ensures
        run.machine[i].options == run.machine[0].options,
        run.machine[i].repair == run.machine[0].repair,
        run.machine[i].hasher.chunk_size == run.machine[0].hasher.chunk_size,
        run.world[i].source == run.world[0].source,
    decreases i,
{
    if i > 0 {
        lemma_fixed(run, i - 1);
        assert(run.step_ok(i - 1, run.replies[i - 1]));
        lemma_next_records(run.machine[i - 1], run.replies[i - 1], run.signals[i - 1]);
    }
}

/// What going on leaves alone.
pub(crate) open spec fn same_records(m: CopyModel, n: CopyModel) -> bool {
    &&& n.options == m.options
    &&& n.repair == m.repair
    &&& n.map == m.map
    &&& n.hasher.chunk_size == m.hasher.chunk_size
    &&& n.short == m.short
    &&& same_counts(m, n)
}

/// The write counters are the same.
pub open spec fn same_counts(m: CopyModel, n: CopyModel) -> bool {
    &&& n.bytes_written == m.bytes_written
    &&& n.bytes_written_this_run == m.bytes_written_this_run
    &&& n.wrote_this_run == m.wrote_this_run
}

/// Going on heeds the signal: it neither stops as interrupted at once nor, once
/// there is a signal, goes on to read.
pub(crate) open spec fn heeds(n: CopyModel, signals: Signals) -> bool {
    &&& n.at != At::Stopped(Outcome::Interrupted)
    &&& signals.interrupted ==> n.at != At::Reading
}

pub(crate) proof fn lemma_resume_records(m: CopyModel, signals: Signals)
    ensures
        same_records(m, m.resume(signals)),
        same_records(m, m.advance(signals)),
        heeds(m.resume(signals), signals),
        heeds(m.advance(signals), signals),
        m.resume(signals).at != At::Writing,
        m.resume(signals).at != At::Comparing,
        m.advance(signals).at != At::Writing,
        m.advance(signals).at != At::Comparing,
        m.pass == Pass::Sequential ==> m.resume(signals).pos == m.pos,
        m.pass == Pass::Sequential ==> m.advance(signals).pos == m.pos,
{
    reveal(CopyModel::open_stride);
    reveal(CopyModel::open_region);
    reveal(CopyModel::end_pass);
    reveal(CopyModel::next_region);
    reveal(CopyModel::end_input);
    reveal(CopyModel::settle);
    reveal(CopyModel::resume);
    reveal(CopyModel::advance);
}

/// Byte `p` of the map is as it was, or done.
pub(crate) open spec fn same_or_done(m: CopyModel, n: CopyModel, p: int) -> bool {
    (n.map)(p) == (m.map)(p) || (n.map)(p) == Some(RegionStatus::Done)
}

/// What marking a block done leaves alone.
pub(crate) proof fn lemma_commit_records(m: CopyModel, signals: Signals)
    ensures
        m.commit(signals).options == m.options,
        m.commit(signals).repair == m.repair,
        m.commit(signals).hasher.chunk_size == m.hasher.chunk_size,
        m.commit(signals).short == m.short,
        same_counts(m, m.commit(signals)),
        heeds(m.commit(signals), signals),
        m.commit(signals).at != At::Writing,
        forall|p: int| #[trigger] same_or_done(m, m.commit(signals), p),
{
    reveal(CopyModel::commit);
    reveal(CopyModel::moved);
    match m.job {
        Some(job) => {
            reveal(CopyModel::commit_chunk_block);
            let n = m.payload().len() as int;
            let next = CopyModel {
                map: region::marked(m.map, job.start + job.offset, n, RegionStatus::Done),
                processed: copier::counted(m.processed, n),
                hasher: HasherModel {
                    chunks: hash::with_digest(m.hasher.chunks, job.index, m.digest),
                    ..m.hasher
                },
                job: None,
                pos: job.start + job.length,
                ..m
            };
            lemma_resume_records(next, signals);
        },
        None => {
            let next = CopyModel {
                hasher: m.hasher.feed(m.pos, m.block),
                map: region::marked(m.map, m.pos, m.block.len() as int, RegionStatus::Done),
                ..m
            };
            lemma_resume_records(next.moved(m.block.len() as int), signals);
        },
    }
}

/// What one step leaves alone: options, repair list and grid in any case; the
/// write counters unless a write was carried out; the map but for bytes that are
/// marked done, and for those of a sector that gave a media error.
pub(crate) proof fn lemma_next_records(m: CopyModel, reply: ReplyModel, signals: Signals)
    ensures
        m.next(reply, signals).options == m.options,
        m.next(reply, signals).repair == m.repair,
        m.next(reply, signals).hasher.chunk_size == m.hasher.chunk_size,
        !(m.at == At::Writing && reply is Done) ==> same_counts(m, m.next(reply, signals)),
        !(m.at == At::Flushing { stop: true } && reply is Done) ==> heeds(
            m.next(reply, signals),
            signals,
        ),
        forall|p: int|
            #![trigger (m.next(reply, signals).map)(p)]
            same_or_done(m, m.next(reply, signals), p) || {
                &&& (m.next(reply, signals).map)(p) == Some(RegionStatus::Bad)
                &&& reply is MediaError
                &&& m.job is None
                &&& m.isolating is Some
                &&& m.pos <= p < m.pos + m.want()
            },
{
    match reply {
        ReplyModel::Source(data) => {
            lemma_source_records(m, data, signals);
            assert forall|p: int| same_or_done(m, #[trigger] m.next(reply, signals), p) by {
                assert(same_or_done(m, m.on_source(data, signals), p));
            }
        },
        ReplyModel::MediaError => {
            reveal(CopyModel::on_media_error);
            reveal(CopyModel::fall_back);
            reveal(CopyModel::moved);
            lemma_resume_records(CopyModel { job: None, ..m }, signals);
            let want = m.want();
            lemma_resume_records(CopyModel { isolating: Some(m.pos + want), ..m }, signals);
            lemma_resume_records(
                CopyModel {
                    hasher: m.hasher.broken(m.pos + want),
                    map: region::marked(m.map, m.pos, want, RegionStatus::Bad),
                    ..m
                }.moved(want),
                signals,
            );
        },
        ReplyModel::Target(data) => {
            reveal(CopyModel::on_target);
            lemma_commit_records(m, signals);
            assert forall|p: int| same_or_done(m, #[trigger] m.next(reply, signals), p) by {
                assert(same_or_done(m, m.commit(signals), p));
            }
        },
        ReplyModel::Failed => {},
        ReplyModel::Done => {
            reveal(CopyModel::on_written);
            let n = m.payload().len() as int;
            let counted = CopyModel {
                bytes_written: copier::counted(m.bytes_written, n),
                bytes_written_this_run: copier::counted(m.bytes_written_this_run, n),
                wrote_this_run: true,
                ..m
            };
            lemma_commit_records(counted, signals);
            lemma_resume_records(m, signals);
            lemma_resume_records(CopyModel { readahead_off: true, ..m }, signals);
            assert forall|p: int| same_or_done(m, #[trigger] m.next(reply, signals), p) by {
                assert(same_or_done(counted, counted.commit(signals), p));
            }
        },
    }
}

proof fn lemma_source_records(m: CopyModel, data: Seq<u8>, signals: Signals)
    ensures
        m.on_source(data, signals).options == m.options,
        m.on_source(data, signals).repair == m.repair,
        m.on_source(data, signals).hasher.chunk_size == m.hasher.chunk_size,
        same_counts(m, m.on_source(data, signals)),
        heeds(m.on_source(data, signals), signals),
        forall|p: int| #[trigger] same_or_done(m, m.on_source(data, signals), p),
{
    reveal(CopyModel::on_source);
    let used = data.take(copier::min(data.len() as int, m.want()));
    if used.len() == 0 {
        reveal(CopyModel::on_end_of_source);
        reveal(CopyModel::fall_back);
        reveal(CopyModel::end_input);
        lemma_resume_records(CopyModel { job: None, ..m }, signals);
        lemma_resume_records(CopyModel { pos: m.stop, short: true, ..m }, signals);
        if let Some(end) = m.isolating {
            lemma_resume_records(
                CopyModel { pos: end, isolating: None, short: true, ..m },
                signals,
            );
        }
    } else {
        match m.job {
            Some(job) => {
                let next = CopyModel {
                    chunk: m.chunk + used,
                    job: Some(JobModel { offset: job.offset + used.len(), ..job }),
                    ..m
                };
                lemma_resume_records(next, signals);
                reveal(CopyModel::chunk_read);
                let full = JobModel { offset: job.length, ..job };
                lemma_resume_records(
                    CopyModel {
                        map: region::marked(next.map, full.start, full.length, RegionStatus::Done),
                        processed: copier::counted(next.processed, full.length),
                        bytes_skipped_by_hash: copier::counted(
                            next.bytes_skipped_by_hash,
                            full.length,
                        ),
                        job: None,
                        pos: full.start + full.length,
                        ..next
                    },
                    signals,
                );
            },
            None => {
                let next = CopyModel { block: used, ..m };
                lemma_commit_records(next, signals);
                assert forall|p: int| #[trigger] same_or_done(m, m.on_source(data, signals), p) by {
                    assert(same_or_done(next, next.commit(signals), p));
                }
            },
        }
    }
}

// ---------------------------------------------------------------------------
// Nothing is left out.

/// No byte of `[from, front)` is untried.
pub open spec fn tried_to(map: Statuses, from: int, front: int) -> bool {
    forall|p: int| from <= p < front ==> #[trigger] map(p) != Some(RegionStatus::Untried)
}

/// How far the copy has swept the domain: up to its position, and over all of it
/// once the first pass is through.
pub open spec fn front(m: CopyModel) -> int {
    if m.pass == Pass::Retry || m.at == At::Stopped(Outcome::Finished) {
        m.options.domain as int
    } else {
        m.pos
    }
}

/// Unless the source ended early, nothing behind the front is untried.
pub open spec fn swept(m: CopyModel) -> bool {
    m.options.domain > 0 && !m.short ==> {
        &&& tried_to(m.map, 0, front(m))
        &&& m.job matches Some(job) ==> job.writing ==> tried_to(
            m.map,
            job.start,
            job.start + job.offset,
        )
    }
}

/// The map covers exactly a known domain.
spec fn covered(m: CopyModel) -> bool {
    m.options.domain > 0 ==> forall|p: int|
        (#[trigger] (m.map)(p) is Some) <==> 0 <= p < m.options.domain
}

proof fn lemma_resume_sweeps(m: CopyModel, signals: Signals)
    requires
        m.nested(),
        covered(m),
        !(m.job matches Some(job) && job.writing),
        m.at != At::Stopped(Outcome::Finished),
        swept(m),
    ensures
        swept(m.resume(signals)),
        swept(m.advance(signals)),
{
    reveal(CopyModel::open_stride);
    reveal(CopyModel::open_region);
    reveal(CopyModel::end_pass);
    reveal(CopyModel::next_region);
    reveal(CopyModel::end_input);
    reveal(CopyModel::settle);
    reveal(CopyModel::resume);
    reveal(CopyModel::advance);
    if m.options.domain > 0 && !m.short {
        region::lemma_is_span(m.map, m.pass_status(), m.stop);
        if m.pass != Pass::Retry && m.pos >= m.stop && region::next_span(
            m.map,
            RegionStatus::Untried,
            m.stop,
        ) is None {
            assert forall|p: int| 0 <= p < m.options.domain implies #[trigger] (m.map)(p) != Some(
                RegionStatus::Untried,
            ) by {
                if p >= m.stop && (m.map)(p) == Some(RegionStatus::Untried) {
                    region::lemma_next_span_exists(
                        m.map,
                        RegionStatus::Untried,
                        m.stop,
                        p,
                        m.options.domain as int,
                    );
                }
            }
        }
    }
}

proof fn lemma_commit_sweeps(m: CopyModel, signals: Signals)
    requires
        m.sound(),
        m.at_block(),
        m.at != At::Stopped(Outcome::Finished),
        swept(m),
    ensures
        swept(m.commit(signals)),
{
    reveal(CopyModel::commit);
    match m.job {
        Some(job) => {
            reveal(CopyModel::commit_chunk_block);
            let n = m.payload().len() as int;
            if job.offset + n >= job.length {
                let next = CopyModel {
                    map: region::marked(m.map, job.start + job.offset, n, RegionStatus::Done),
                    processed: copier::counted(m.processed, n),
                    hasher: HasherModel {
                        chunks: hash::with_digest(m.hasher.chunks, job.index, m.digest),
                        ..m.hasher
                    },
                    job: None,
                    pos: job.start + job.length,
                    ..m
                };
                assert(swept(next)) by {
                    if !m.short {
                        assert forall|p: int| 0 <= p < next.pos implies #[trigger] (next.map)(p)
                            != Some(RegionStatus::Untried) by {
                            assert((m.map)(p) == (m.map)(p));
                        }
                    }
                }
                lemma_resume_sweeps(next, signals);
            } else {
                let next = m.commit_chunk_block(job, signals);
                if !m.short {
                    assert forall|p: int| 0 <= p < front(next) implies #[trigger] (next.map)(p)
                        != Some(RegionStatus::Untried) by {
                        assert((m.map)(p) == (m.map)(p));
                    }
                    assert forall|p: int|
                        job.start <= p < job.start + job.offset + n implies #[trigger] (next.map)(
                        p,
                    ) != Some(RegionStatus::Untried) by {
                        assert((m.map)(p) == (m.map)(p));
                    }
                }
            }
        },
        None => {
            reveal(CopyModel::moved);
            let n = m.block.len() as int;
            let next = CopyModel {
                hasher: m.hasher.feed(m.pos, m.block),
                map: region::marked(m.map, m.pos, n, RegionStatus::Done),
                ..m
            }.moved(n);
            assert(swept(next)) by {
                if m.options.domain > 0 && !m.short {
                    assert forall|p: int| 0 <= p < front(next) implies #[trigger] (next.map)(p)
                        != Some(RegionStatus::Untried) by {
                        assert((m.map)(p) == (m.map)(p));
                    }
                }
            }
            lemma_resume_sweeps(next, signals);
        },
    }
}

proof fn lemma_source_sweeps(m: CopyModel, data: Seq<u8>, signals: Signals)
    requires
        m.wf(),
        m.at == At::Reading,
        swept(m),
    ensures
        swept(m.on_source(data, signals)),
{
    reveal(CopyModel::on_source);
    let used = data.take(copier::min(data.len() as int, m.want()));
    if used.len() == 0 {
        reveal(CopyModel::on_end_of_source);
        reveal(CopyModel::fall_back);
        reveal(CopyModel::end_input);
        if m.job is Some {
            lemma_resume_sweeps(CopyModel { job: None, ..m }, signals);
        } else if m.pass != Pass::Sequential {
            match m.isolating {
                Some(end) => {
                    lemma_resume_sweeps(
                        CopyModel { pos: end, isolating: None, short: true, ..m },
                        signals,
                    );
                },
                None => {
                    lemma_resume_sweeps(CopyModel { pos: m.stop, short: true, ..m }, signals);
                },
            }
        }
    } else {
        match m.job {
            Some(job) => {
                let next = CopyModel {
                    chunk: m.chunk + used,
                    job: Some(JobModel { offset: job.offset + used.len(), ..job }),
                    ..m
                };
                if job.offset + used.len() < job.length {
                    lemma_resume_sweeps(next, signals);
                } else {
                    reveal(CopyModel::chunk_read);
                    let done = CopyModel {
                        map: region::marked(next.map, job.start, job.length, RegionStatus::Done),
                        processed: copier::counted(next.processed, job.length),
                        bytes_skipped_by_hash: copier::counted(
                            next.bytes_skipped_by_hash,
                            job.length,
                        ),
                        job: None,
                        pos: job.start + job.length,
                        ..next
                    };
                    assert(swept(done)) by {
                        if !m.short {
                            assert forall|p: int| 0 <= p < done.pos implies #[trigger] (done.map)(
                                p,
                            ) != Some(RegionStatus::Untried) by {
                                assert((m.map)(p) == (m.map)(p));
                            }
                        }
                    }
                    lemma_resume_sweeps(done, signals);
                }
            },
            None => {
                let next = CopyModel { block: used, ..m };
                if m.options.skip_zeros && copier::all_zero(used) {
                    lemma_commit_sweeps(next, signals);
                }
            },
        }
    }
}

/// One step leaves nothing behind the front untried, unless the source ended
/// early.
pub proof fn law_step_sweeps(m: CopyModel, reply: ReplyModel, signals: Signals)
    requires
        m.wf(),
        m.expects(reply),
        swept(m),
    ensures
        swept(m.next(reply, signals)),
{
    match reply {
        ReplyModel::Source(data) => {
            lemma_source_sweeps(m, data, signals);
        },
        ReplyModel::MediaError => {
            reveal(CopyModel::on_media_error);
            reveal(CopyModel::fall_back);
            reveal(CopyModel::moved);
            let want = m.want();
            if m.job is Some {
                lemma_resume_sweeps(CopyModel { job: None, ..m }, signals);
            } else if m.pass == Pass::Sequential {
            } else if m.isolating is Some {
                let next = CopyModel {
                    hasher: m.hasher.broken(m.pos + want),
                    map: region::marked(m.map, m.pos, want, RegionStatus::Bad),
                    ..m
                }.moved(want);
                assert(swept(next)) by {
                    if !m.short {
                        assert forall|p: int| 0 <= p < front(next) implies #[trigger] (next.map)(p)
                            != Some(RegionStatus::Untried) by {
                            assert((m.map)(p) == (m.map)(p));
                        }
                    }
                }
                lemma_resume_sweeps(next, signals);
            } else {
                lemma_resume_sweeps(CopyModel { isolating: Some(m.pos + want), ..m }, signals);
            }
        },
        ReplyModel::Target(data) => {
            reveal(CopyModel::on_target);
            if data == Some(m.payload()) {
                lemma_commit_sweeps(m, signals);
            }
        },
        ReplyModel::Failed => {},
        ReplyModel::Done => {
            match m.at {
                At::Writing => {
                    reveal(CopyModel::on_written);
                    let n = m.payload().len() as int;
                    let next = CopyModel {
                        bytes_written: copier::counted(m.bytes_written, n),
                        bytes_written_this_run: copier::counted(m.bytes_written_this_run, n),
                        wrote_this_run: true,
                        ..m
                    };
                    lemma_commit_sweeps(next, signals);
                },
                At::Readahead => {
                    lemma_resume_sweeps(CopyModel { readahead_off: true, ..m }, signals);
                },
                At::Flushing { stop: true } => {},
                _ => {
                    lemma_resume_sweeps(m, signals);
                },
            }
        },
    }
}

proof fn lemma_run_sweeps(run: Run, i: int)
    requires
        run.is_run(),
        swept(run.machine[0]),
        0 <= i < run.machine.len(),
    ensures
        swept(run.machine[i]),
    decreases i,
{
    if i > 0 {
        lemma_run_sweeps(run, i - 1);
        assert(run.step_ok(i - 1, run.replies[i - 1]));
        law_step_sweeps(run.machine[i - 1], run.replies[i - 1], run.signals[i - 1]);
    }
}

/// A run over a known domain that finishes has tried every byte of it, unless
/// the source ended early.
pub proof fn law_finished_run_tried_everything(run: Run, p: int)
    requires
        run.is_run(),
        run.machine[0].at == At::Start,
        run.machine[0].pass != Pass::Retry,
        run.machine[0].pos == 0,
        run.machine[0].options.domain > 0,
        run.machine.last().at == At::Stopped(Outcome::Finished),
        !run.machine.last().short,
        0 <= p < run.machine[0].options.domain,
    ensures
        (run.machine.last().map)(p) == Some(RegionStatus::Done) || (run.machine.last().map)(p)
            == Some(RegionStatus::Bad),
{
    let last = run.machine.len() - 1;
    lemma_run_sweeps(run, last);
    lemma_fixed(run, last);
    assert(run.machine[last].wf());
    let map = run.machine[last].map;
    assert(map(p) is Some);
    match map(p)->0 {
        RegionStatus::Untried => {},
        RegionStatus::Done => {},
        RegionStatus::Bad => {},
    }
}

// ---------------------------------------------------------------------------
// What a step touches.

/// Reads and writes stay inside the extents: of the source at most the domain
/// from `skip` on is used, and of the target only the domain from `seek` on is
/// read or written.
pub proof fn law_io_stays_in_bounds(m: CopyModel)
    requires
        m.wf(),
        m.options.domain > 0,
    ensures
        m.action() matches crate::copier::Action::ReadSource { offset, want, request } ==> {
            &&& m.options.skip <= offset
            &&& offset + want <= m.options.skip + m.options.domain
            &&& 0 < want <= request <= m.options.transfer
        },
        m.action() matches crate::copier::Action::Write { offset, length } ==> {
            &&& m.options.seek <= offset
            &&& offset + length <= m.options.seek + m.options.domain
            &&& 0 < length
        },
        m.action() matches crate::copier::Action::ReadTarget { offset, length } ==> {
            &&& m.options.seek <= offset
            &&& offset + length <= m.options.seek + m.options.domain
            &&& 0 < length
        },
{
    if m.at == At::Reading {
        let want = m.want();
        copier::lemma_aligned_up(want, m.options.sector as int, m.options.transfer as int);
    }
}

/// A block the target already holds is not written: given the target's bytes,
/// the machine moves on and the write counters stay as they are.
pub proof fn law_unchanged_block_is_not_written(
    m: CopyModel,
    w: World,
    data: Seq<u8>,
    signals: Signals,
)
    requires
        m.wf(),
        m.at == At::Comparing,
        holds(w.target, m.read_pos(), m.payload()),
        data.len() == m.payload().len(),
        w.honest(m, ReplyModel::Target(Some(data))),
    ensures
        ({
            let next = m.next(ReplyModel::Target(Some(data)), signals);
            &&& next.at != At::Writing
            &&& next.bytes_written == m.bytes_written
            &&& next.bytes_written_this_run == m.bytes_written_this_run
            &&& next.wrote_this_run == m.wrote_this_run
        }),
{
    reveal(CopyModel::on_target);
    assert forall|i: int| 0 <= i < data.len() implies data[i] == m.payload()[i] by {
        assert(data[i] == (w.target)(m.read_pos() + i));
    }
    assert(data =~= m.payload());
    lemma_commit_records(m, signals);
}

// ---------------------------------------------------------------------------
// Sources of unknown size.

/// A source of unknown size is copied without a hole from `frontier` on.
pub open spec fn filled(m: CopyModel, frontier: int) -> bool {
    m.options.domain == 0 ==> {
        &&& frontier <= m.pos
        &&& forall|p: int|
            frontier <= p < m.pos ==> #[trigger] (m.map)(p) == Some(RegionStatus::Done)
    }
}

proof fn lemma_commit_fills(m: CopyModel, frontier: int, signals: Signals)
    requires
        m.sound(),
        m.at_block(),
        filled(m, frontier),
    ensures
        filled(m.commit(signals), frontier),
{
    lemma_commit_records(m, signals);
    if m.options.domain == 0 {
        reveal(CopyModel::commit);
        reveal(CopyModel::moved);
        let n = m.block.len() as int;
        let next = CopyModel {
            hasher: m.hasher.feed(m.pos, m.block),
            map: region::marked(m.map, m.pos, n, RegionStatus::Done),
            ..m
        }.moved(n);
        lemma_resume_records(next, signals);
    }
}

/// One step leaves no hole behind the position of a source of unknown size; and
/// a copy of one ends only at the end of the input, at its length limit, or by a
/// failure or an interruption.
pub proof fn law_step_leaves_no_hole(
    m: CopyModel,
    frontier: int,
    reply: ReplyModel,
    signals: Signals,
)
    requires
        m.wf(),
        m.expects(reply),
        filled(m, frontier),
    ensures
        filled(m.next(reply, signals), frontier),
        m.options.domain == 0 && m.next(reply, signals).at == At::Stopped(Outcome::Finished) ==> (
        reply matches ReplyModel::Source(data) && data.len() == 0) || m.next(reply, signals).pos
            >= m.options.limit(),
{
    if m.options.domain == 0 {
        match reply {
            ReplyModel::Source(data) => {
                reveal(CopyModel::on_source);
                let used = data.take(copier::min(data.len() as int, m.want()));
                if used.len() == 0 {
                    reveal(CopyModel::on_end_of_source);
                    reveal(CopyModel::end_input);
                    assert(m.want() > 0);
                } else {
                    let next = CopyModel { block: used, ..m };
                    lemma_commit_fills(next, frontier, signals);
                    lemma_commit_ends(next, signals);
                }
            },
            ReplyModel::MediaError => {
                reveal(CopyModel::on_media_error);
            },
            ReplyModel::Target(data) => {
                reveal(CopyModel::on_target);
                if data == Some(m.payload()) {
                    lemma_commit_fills(m, frontier, signals);
                    lemma_commit_ends(m, signals);
                }
            },
            ReplyModel::Failed => {},
            ReplyModel::Done => {
                reveal(CopyModel::on_written);
                let n = m.payload().len() as int;
                let next = CopyModel {
                    bytes_written: copier::counted(m.bytes_written, n),
                    bytes_written_this_run: copier::counted(m.bytes_written_this_run, n),
                    wrote_this_run: true,
                    ..m
                };
                if m.at == At::Writing {
                    lemma_commit_fills(next, frontier, signals);
                    lemma_commit_ends(next, signals);
                }
                lemma_resume_records(m, signals);
                lemma_resume_ends(m, signals);
            },
        }
    } else {
        lemma_next_records(m, reply, signals);
    }
}

proof fn lemma_resume_ends(m: CopyModel, signals: Signals)
    requires
        m.pass == Pass::Sequential,
        m.stop == m.options.limit(),
    ensures
        m.resume(signals).at == At::Stopped(Outcome::Finished) ==> m.resume(signals).pos
            >= m.options.limit(),
        m.advance(signals).at == At::Stopped(Outcome::Finished) ==> m.advance(signals).pos
            >= m.options.limit(),
{
    reveal(CopyModel::advance);
    reveal(CopyModel::resume);
    reveal(CopyModel::settle);
    reveal(CopyModel::end_input);
}

proof fn lemma_commit_ends(m: CopyModel, signals: Signals)
    requires
        m.sound(),
        m.options.domain == 0,
    ensures
        m.commit(signals).at == At::Stopped(Outcome::Finished) ==> m.commit(signals).pos
            >= m.options.limit(),
{
    reveal(CopyModel::commit);
    reveal(CopyModel::moved);
    let n = m.block.len() as int;
    let next = CopyModel {
        hasher: m.hasher.feed(m.pos, m.block),
        map: region::marked(m.map, m.pos, n, RegionStatus::Done),
        ..m
    }.moved(n);
    lemma_resume_ends(next, signals);
}

} // verus!
