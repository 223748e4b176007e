//! Whole runs as the driver sees them: in the offsets of the actions.
//!
//! [`crate::world`] speaks of the bytes of the copy domain. Here source and target
//! are the two files (or devices) themselves, and nothing is known of a run but
//! what each action names: where it reads, where it writes, and how much. The laws
//! say, from the command line on, which byte of the source ends up where on the
//! target.

use crate::copier;
use crate::copier::{Action, At, CopyModel, JobModel, Outcome, ReplyModel, Signals};
use crate::gapfill::{GapModel, GapRun};
use crate::readback::{ReadAction, ReadReplyModel};
use crate::region;
use crate::region::RegionStatus;
use crate::verify;
use crate::verify::{VerifyAt, VerifyModel, VerifyRun};
use crate::world;
use crate::world::{Run, World};
use vstd::prelude::*;

verus! {

/// The two files: byte `q` of the source is `source[q]`, byte `q` of the target is
/// `target(q)`.
pub struct Media {
    pub source: Seq<u8>,
    pub target: spec_fn(int) -> u8,
}

/// Which replies answer an action.
pub open spec fn answers(action: Action, reply: ReplyModel) -> bool {
    match action {
        Action::Begin => reply is Done || reply is Failed,
        Action::ReadSource { offset, want, request } => reply is Source || reply is MediaError
            || reply is Failed,
        Action::ReadTarget { offset, length } => reply is Target || reply is Failed,
        Action::Write { offset, length } => reply is Done || reply is Failed,
        Action::DisableReadahead => reply is Done || reply is Failed,
        Action::Flush => reply is Done || reply is Failed,
        Action::Stop(outcome) => false,
    }
}

impl Media {
    /// The reply reports what the files hold where the action reads, and no more
    /// than was asked for. A source gives no bytes at all only at its end.
    pub open spec fn honest(self, action: Action, reply: ReplyModel) -> bool {
        match (action, reply) {
            (Action::ReadSource { offset, want, request }, ReplyModel::Source(data)) => {
                &&& data.len() <= request
                &&& world::agrees(self.source, offset as int, data)
                &&& data.len() == 0 ==> self.source.len() <= offset
            },
            (Action::ReadTarget { offset, length }, ReplyModel::Target(Some(data))) => {
                &&& data.len() <= length
                &&& world::holds(self.target, offset as int, data)
            },
            _ => true,
        }
    }

    /// What carrying out the action does: a write puts `payload` at its offset, and
    /// one that fails may have put any part of it there. Nothing else changes a
    /// file.
    pub open spec fn leads_to(
        self,
        action: Action,
        payload: Seq<u8>,
        reply: ReplyModel,
        after: Media,
    ) -> bool {
        &&& after.source == self.source
        &&& match action {
            Action::Write { offset, length } => forall|q: int| #[trigger]
                (after.target)(q) == (self.target)(q) && !(reply is Done && offset <= q < offset
                    + length) || (offset <= q < offset + length && (after.target)(q) == payload[q
                    - offset]),
            _ => after.target == self.target,
        }
    }

    /// The files seen from the copy domain: from `skip` on in the source, from
    /// `seek` on in the target.
    pub open spec fn from(self, skip: int, seek: int) -> World {
        World {
            source: if skip <= self.source.len() {
                self.source.skip(skip)
            } else {
                Seq::empty()
            },
            target: |p: int| (self.target)(seek + p),
        }
    }
}

/// A run: the states of the machine and of the files from the start on, and the
/// reply and the signals that led from each to the next.
pub struct MediaRun {
    pub machine: Seq<CopyModel>,
    pub media: Seq<Media>,
    pub replies: Seq<ReplyModel>,
    pub signals: Seq<Signals>,
}

impl MediaRun {
    /// Each state follows from the one before by an honest answer to its action.
    /// (That the machine's states are well-formed is what `Copier::step`
    /// guarantees, see `Copier::lemma_wf`.)
    pub open spec fn is_run(self) -> bool {
        &&& self.machine.len() == self.media.len() == self.replies.len() + 1
        &&& self.signals.len() == self.replies.len()
        &&& forall|i: int| 0 <= i < self.machine.len() ==> (#[trigger] self.machine[i]).wf()
        &&& forall|i: int|
            0 <= i < self.replies.len() ==> self.step_ok(i, #[trigger] self.replies[i])
    }

    pub open spec fn step_ok(self, i: int, reply: ReplyModel) -> bool {
        let (m, action) = (self.machine[i], self.machine[i].action());
        &&& answers(action, reply)
        &&& self.media[i].honest(action, reply)
        &&& self.machine[i + 1] == m.next(reply, self.signals[i])
        &&& self.media[i].leads_to(action, m.payload(), reply, self.media[i + 1])
    }

    /// The same run seen from the copy domain.
    pub open spec fn in_domain(self) -> Run {
        let options = self.machine[0].options;
        Run {
            machine: self.machine,
            world: self.media.map_values(
                |media: Media| media.from(options.skip as int, options.seek as int),
            ),
            replies: self.replies,
            signals: self.signals,
        }
    }
}

// ---------------------------------------------------------------------------
// The offsets of the actions.

/// Where an action reads and writes is where the copy domain lies in the files:
/// byte `p` of the domain is byte `skip + p` of the source and byte `seek + p` of
/// the target. A read asks for at least what is used, and a write is of the whole
/// payload.
pub proof fn law_actions_name_the_right_bytes(m: CopyModel)
    requires
        m.wf(),
    ensures
        m.action() matches Action::ReadSource { offset, want, request } ==> {
            &&& offset == m.options.skip + m.read_pos()
            &&& 0 < want == m.want()
            &&& want <= request
        },
        m.action() matches Action::ReadTarget { offset, length } ==> offset == m.options.seek
            + m.read_pos() && 0 < length == m.payload().len(),
        m.action() matches Action::Write { offset, length } ==> offset == m.options.seek
            + m.read_pos() && 0 < length == m.payload().len(),
{
    let want = m.want();
    if m.at == At::Reading {
        assert(want > 0);
        copier::lemma_aligned_up(want, m.options.sector as int, m.options.transfer as int);
        assert(want <= m.room());
    }
}

pub(crate) proof fn lemma_answer_is_expected(m: CopyModel, reply: ReplyModel)
    requires
        answers(m.action(), reply),
    ensures
        m.expects(reply),
{
}

/// A step on the files is a step on the domain.
proof fn lemma_step_in_domain(
    m: CopyModel,
    media: Media,
    reply: ReplyModel,
    after: Media,
    skip: int,
    seek: int,
)
    requires
        m.wf(),
        skip == m.options.skip,
        seek == m.options.seek,
        answers(m.action(), reply),
        media.honest(m.action(), reply),
        media.leads_to(m.action(), m.payload(), reply, after),
    ensures
        m.expects(reply),
        media.from(skip, seek).honest(m, reply),
        media.from(skip, seek).leads_to(m, reply, after.from(skip, seek)),
{
    law_actions_name_the_right_bytes(m);
    lemma_answer_is_expected(m, reply);
    let w = media.from(skip, seek);
    let then = after.from(skip, seek);
    let at = m.read_pos();
    if let ReplyModel::Source(data) = reply {
        assert forall|i: int| 0 <= i < data.len() implies #[trigger] data[i] == w.source[at + i] by {
            assert(data[i] == media.source[skip + at + i]);
        }
    }
    if let ReplyModel::Target(Some(data)) = reply {
        assert forall|i: int| 0 <= i < data.len() implies #[trigger] data[i] == (w.target)(at
            + i) by {
            assert(data[i] == (media.target)(seek + at + i));
        }
    }
    let payload = m.payload();
    if m.at == At::Writing {
        assert forall|p: int| #[trigger]
            (then.target)(p) == (w.target)(p) && !(reply is Done && at <= p < at + payload.len())
                || (at <= p < at + payload.len() && (then.target)(p) == payload[p - at]) by {
            assert((after.target)(seek + p) == (after.target)(seek + p));
        }
        if reply is Done {
            assert(then.target =~= world::written(w.target, at, payload));
        }
    } else {
        assert(then.target =~= w.target);
    }
}

/// A run on the files is a run on the domain.
pub(crate) proof fn lemma_run_in_domain(run: MediaRun)
    requires
        run.is_run(),
    ensures
        run.in_domain().is_run(),
        forall|i: int|
            0 <= i < run.machine.len() ==> #[trigger] run.in_domain().world[i]
                == run.media[i].from(
                run.machine[0].options.skip as int,
                run.machine[0].options.seek as int,
            ),
{
    let options = run.machine[0].options;
    let (skip, seek) = (options.skip as int, options.seek as int);
    let inner = run.in_domain();
    assert forall|i: int| 0 <= i < inner.replies.len() implies inner.step_ok(
        i,
        #[trigger] inner.replies[i],
    ) by {
        lemma_options_stay(run, i);
        assert(run.step_ok(i, run.replies[i]));
        assert(run.machine[i].wf());
        lemma_step_in_domain(
            run.machine[i],
            run.media[i],
            run.replies[i],
            run.media[i + 1],
            skip,
            seek,
        );
    }
}

pub(crate) proof fn lemma_options_stay(run: MediaRun, i: int)
    requires
        run.is_run(),
        0 <= i < run.machine.len(),
    ensures
        run.machine[i].options == run.machine[0].options,
        run.media[i].source == run.media[0].source,
    decreases i,
{
    if i > 0 {
        lemma_options_stay(run, i - 1);
        assert(run.step_ok(i - 1, run.replies[i - 1]));
        world::lemma_next_records(run.machine[i - 1], run.replies[i - 1], run.signals[i - 1]);
    }
}

// ---------------------------------------------------------------------------
// The end of the source.

/// A step takes the source to have ended only if it gave no bytes.
proof fn lemma_step_notices_the_end(m: CopyModel, reply: ReplyModel, signals: Signals)
    requires
        m.wf(),
        m.expects(reply),
        !m.short,
        !(reply matches ReplyModel::Source(data) && data.len() == 0),
    ensures
        !m.next(reply, signals).short,
{
    match reply {
        ReplyModel::Source(data) => {
            reveal(CopyModel::on_source);
            reveal(CopyModel::chunk_read);
            let used = data.take(copier::min(data.len() as int, m.want()));
            assert(used.len() > 0);
            match m.job {
                Some(job) => {
                    let next = CopyModel {
                        chunk: m.chunk + used,
                        job: Some(JobModel { offset: job.offset + used.len(), ..job }),
                        ..m
                    };
                    world::lemma_resume_records(next, signals);
                    world::lemma_resume_records(
                        CopyModel {
                            map: region::marked(
                                next.map,
                                job.start,
                                job.length,
                                RegionStatus::Done,
                            ),
                            processed: copier::counted(next.processed, job.length),
                            bytes_skipped_by_hash: copier::counted(
                                next.bytes_skipped_by_hash,
                                job.length,
                            ),
                            job: None,
                            pos: job.start + job.length,
                            ..next
                        },
                        signals,
                    );
                },
                None => {
                    world::lemma_commit_records(CopyModel { block: used, ..m }, signals);
                },
            }
        },
        ReplyModel::MediaError => {
            reveal(CopyModel::on_media_error);
            reveal(CopyModel::fall_back);
            reveal(CopyModel::moved);
            let want = m.want();
            world::lemma_resume_records(CopyModel { job: None, ..m }, signals);
            world::lemma_resume_records(
                CopyModel { isolating: Some(m.pos + want), ..m },
                signals,
            );
            world::lemma_resume_records(
                CopyModel {
                    hasher: m.hasher.broken(m.pos + want),
                    map: region::marked(m.map, m.pos, want, RegionStatus::Bad),
                    ..m
                }.moved(want),
                signals,
            );
        },
        ReplyModel::Target(data) => {
            reveal(CopyModel::on_target);
            world::lemma_commit_records(m, signals);
        },
        ReplyModel::Failed => {},
        ReplyModel::Done => {
            reveal(CopyModel::on_written);
            let n = m.payload().len() as int;
            world::lemma_commit_records(
                CopyModel {
                    bytes_written: copier::counted(m.bytes_written, n),
                    bytes_written_this_run: copier::counted(m.bytes_written_this_run, n),
                    wrote_this_run: true,
                    ..m
                },
                signals,
            );
            world::lemma_resume_records(m, signals);
            world::lemma_resume_records(CopyModel { readahead_off: true, ..m }, signals);
        },
    }
}

/// A source that holds the whole domain does not end early.
pub(crate) proof fn lemma_source_is_long_enough(run: MediaRun, i: int)
    requires
        run.is_run(),
        run.machine[0].options.domain > 0,
        !run.machine[0].short,
        run.machine[0].options.skip + run.machine[0].options.domain <= run.media[0].source.len(),
        0 <= i < run.machine.len(),
    ensures
        !run.machine[i].short,
    decreases i,
{
    if i > 0 {
        lemma_source_is_long_enough(run, i - 1);
        lemma_options_stay(run, i - 1);
        let m = run.machine[i - 1];
        assert(m.wf());
        assert(run.step_ok(i - 1, run.replies[i - 1]));
        lemma_answer_is_expected(m, run.replies[i - 1]);
        law_actions_name_the_right_bytes(m);
        world::law_io_stays_in_bounds(m);
        lemma_step_notices_the_end(m, run.replies[i - 1], run.signals[i - 1]);
    }
}

// ---------------------------------------------------------------------------
// Nothing outside is touched.

/// A run leaves the target alone outside the extent of the copy: before `seek`, and
/// from `seek` and a known domain on.
pub proof fn law_target_is_left_alone_outside(run: MediaRun, i: int, q: int)
    requires
        run.is_run(),
        0 <= i < run.machine.len(),
        ({
            let o = run.machine[0].options;
            q < o.seek || (o.domain > 0 && q >= o.seek + o.domain)
        }),
    ensures
        (run.media[i].target)(q) == (run.media[0].target)(q),
    decreases i,
{
    if i > 0 {
        law_target_is_left_alone_outside(run, i - 1, q);
        lemma_options_stay(run, i - 1);
        let m = run.machine[i - 1];
        assert(m.wf());
        assert(run.step_ok(i - 1, run.replies[i - 1]));
        law_actions_name_the_right_bytes(m);
        if m.options.domain > 0 {
            world::law_io_stays_in_bounds(m);
        }
        assert((run.media[i].target)(q) == (run.media[i].target)(q));
    }
}

// ---------------------------------------------------------------------------
// Reading the target back.

/// Which replies answer an action of a pass that reads the target back.
pub open spec fn answers_read(action: ReadAction, reply: ReadReplyModel) -> bool {
    match action {
        ReadAction::Begin => reply is Done || reply is Failed,
        ReadAction::ReadTarget { offset, length } => reply is Data || reply is Failed,
        ReadAction::Save => reply is Done || reply is Failed,
        ReadAction::Stop(outcome) => false,
    }
}

/// The reply reports what the file `image` holds where the action reads, and no more
/// than was asked for. No bytes at all come only at its end.
pub open spec fn reads_honestly(image: Seq<u8>, action: ReadAction, reply: ReadReplyModel) -> bool {
    match (action, reply) {
        (ReadAction::ReadTarget { offset, length }, ReadReplyModel::Data(data)) => {
            &&& data.len() <= length
            &&& world::agrees(image, offset as int, data)
            &&& data.len() == 0 ==> image.len() <= offset
        },
        _ => true,
    }
}

/// What `image` holds from `seek` on.
pub open spec fn image_from(image: Seq<u8>, seek: int) -> Seq<u8> {
    if seek <= image.len() {
        image.skip(seek)
    } else {
        Seq::empty()
    }
}

/// A verify pass, in the offsets of its actions.
pub struct VerifyMediaRun {
    pub machine: Seq<VerifyModel>,
    pub replies: Seq<ReadReplyModel>,
    pub signals: Seq<Signals>,
}

impl VerifyMediaRun {
    /// Each state follows from the one before by an honest answer to its action.
    pub open spec fn is_run(self, image: Seq<u8>) -> bool {
        &&& self.machine.len() == self.replies.len() + 1
        &&& self.signals.len() == self.replies.len()
        &&& forall|i: int| 0 <= i < self.machine.len() ==> (#[trigger] self.machine[i]).wf()
        &&& forall|i: int|
            0 <= i < self.replies.len() ==> self.step_ok(image, i, #[trigger] self.replies[i])
    }

    pub open spec fn step_ok(self, image: Seq<u8>, i: int, reply: ReadReplyModel) -> bool {
        let (m, action) = (self.machine[i], self.machine[i].action());
        &&& answers_read(action, reply)
        &&& reads_honestly(image, action, reply)
        &&& self.machine[i + 1] == m.next(reply, self.signals[i])
    }

    /// The same pass seen from the copy domain.
    pub open spec fn in_domain(self) -> VerifyRun {
        VerifyRun { machine: self.machine, replies: self.replies, signals: self.signals }
    }
}

/// A verify pass reads a chunk where it lies: its reads follow each other from the
/// chunk's start, `seek` bytes into the target, and stay inside the chunk.
pub proof fn law_verify_reads_the_right_bytes(m: VerifyModel)
    requires
        m.wf(),
    ensures
        m.action() matches ReadAction::ReadTarget { offset, length } ==> {
            let (start, size) = (m.index * m.hasher.chunk_size, m.hasher.chunk_size);
            &&& m.range matches Some(range) && offset == m.seek + start + range.bytes.len()
            &&& 0 < length <= m.transfer
            &&& m.seek + start <= offset
            &&& offset + length <= m.seek + start + size
            &&& m.domain > 0 ==> offset + length <= m.seek + m.domain
        },
{
    if m.at == VerifyAt::Reading {
        crate::verify::lemma_chunk_fits(m.seek, m.domain, m.hasher, m.index);
    }
}

/// A verify pass on the file is one on the domain.
pub(crate) proof fn lemma_verify_in_domain(run: VerifyMediaRun, image: Seq<u8>)
    requires
        run.is_run(image),
    ensures
        run.in_domain().is_run(image_from(image, run.machine[0].seek)),
{
    let inner = run.in_domain();
    let seek = run.machine[0].seek;
    let target = image_from(image, seek);
    assert forall|i: int| 0 <= i < inner.replies.len() implies inner.step_ok(
        target,
        i,
        #[trigger] inner.replies[i],
    ) by {
        lemma_seek_stays(run, image, i);
        let m = run.machine[i];
        assert(m.wf());
        assert(run.step_ok(image, i, run.replies[i]));
        law_verify_reads_the_right_bytes(m);
        if let ReadReplyModel::Data(data) = run.replies[i] {
            let at = m.range->0.start + m.range->0.bytes.len();
            assert forall|k: int| 0 <= k < data.len() implies #[trigger] data[k] == target[at
                + k] by {
                assert(data[k] == image[seek + at + k]);
            }
        }
    }
}

proof fn lemma_seek_stays(run: VerifyMediaRun, image: Seq<u8>, i: int)
    requires
        run.is_run(image),
        0 <= i < run.machine.len(),
    ensures
        run.machine[i].seek == run.machine[0].seek,
    decreases i,
{
    if i > 0 {
        lemma_seek_stays(run, image, i - 1);
        assert(run.step_ok(image, i - 1, run.replies[i - 1]));
    }
}

/// A gap-filling pass, in the offsets of its actions.
pub struct GapMediaRun {
    pub machine: Seq<GapModel>,
    pub replies: Seq<ReadReplyModel>,
    pub signals: Seq<bool>,
}

impl GapMediaRun {
    /// Each state follows from the one before by an honest answer to its action.
    pub open spec fn is_run(self, image: Seq<u8>) -> bool {
        &&& self.machine.len() == self.replies.len() + 1
        &&& self.signals.len() == self.replies.len()
        &&& forall|i: int| 0 <= i < self.machine.len() ==> (#[trigger] self.machine[i]).wf()
        &&& forall|i: int|
            0 <= i < self.replies.len() ==> self.step_ok(image, i, #[trigger] self.replies[i])
    }

    pub open spec fn step_ok(self, image: Seq<u8>, i: int, reply: ReadReplyModel) -> bool {
        let (m, action) = (self.machine[i], self.machine[i].action());
        &&& answers_read(action, reply)
        &&& reads_honestly(image, action, reply)
        &&& self.machine[i + 1] == m.next(reply, self.signals[i])
    }

    /// The same pass seen from the copy domain.
    pub open spec fn in_domain(self) -> GapRun {
        GapRun { machine: self.machine, replies: self.replies, signals: self.signals }
    }
}

/// A gap-filling pass reads a chunk where it lies.
pub proof fn law_gap_filling_reads_the_right_bytes(m: GapModel)
    requires
        m.wf(),
    ensures
        m.action() matches ReadAction::ReadTarget { offset, length } ==> {
            let (start, size) = (m.index * m.hasher.chunk_size, m.hasher.chunk_size);
            &&& m.range matches Some(range) && offset == m.seek + start + range.bytes.len()
            &&& 0 < length <= m.transfer
            &&& m.seek + start <= offset
            &&& offset + length <= m.seek + start + size
            &&& offset + length <= m.seek + m.domain
        },
{
    assert((m.index + 1) * m.hasher.chunk_size == m.index * m.hasher.chunk_size
        + m.hasher.chunk_size) by (nonlinear_arith);
}

/// A gap-filling pass on the file is one on the domain.
pub(crate) proof fn lemma_gap_filling_in_domain(run: GapMediaRun, image: Seq<u8>)
    requires
        run.is_run(image),
    ensures
        run.in_domain().is_run(|p: int| image[run.machine[0].seek + p]),
{
    let inner = run.in_domain();
    let seek = run.machine[0].seek;
    let target = |p: int| image[seek + p];
    assert forall|i: int| 0 <= i < inner.replies.len() implies inner.step_ok(
        target,
        i,
        #[trigger] inner.replies[i],
    ) by {
        lemma_gap_seek_stays(run, image, i);
        let m = run.machine[i];
        assert(m.wf());
        assert(run.step_ok(image, i, run.replies[i]));
        law_gap_filling_reads_the_right_bytes(m);
        if let ReadReplyModel::Data(data) = run.replies[i] {
            let at = m.range->0.start + m.range->0.bytes.len();
            assert forall|k: int| 0 <= k < data.len() implies #[trigger] data[k] == target(at
                + k) by {
                assert(data[k] == image[seek + at + k]);
            }
        }
    }
}

proof fn lemma_gap_seek_stays(run: GapMediaRun, image: Seq<u8>, i: int)
    requires
        run.is_run(image),
        0 <= i < run.machine.len(),
    ensures
        run.machine[i].seek == run.machine[0].seek,
    decreases i,
{
    if i > 0 {
        lemma_gap_seek_stays(run, image, i - 1);
        assert(run.step_ok(image, i - 1, run.replies[i - 1]));
    }
}

/// The target is read back in whole transfers, but for the end of a chunk.
pub proof fn law_target_is_read_back_in_whole_transfers(v: VerifyModel, g: GapModel)
    ensures
        v.wf() ==> (v.action() matches ReadAction::ReadTarget { offset, length } ==> {
            &&& 0 < length <= v.transfer
            &&& length == v.transfer || offset + length == v.seek + v.index * v.hasher.chunk_size
                + v.chunk_length(v.index)
        }),
        g.wf() ==> (g.action() matches ReadAction::ReadTarget { offset, length } ==> {
            &&& 0 < length <= g.transfer
            &&& length == g.transfer || offset + length == g.seek + g.chunk_end(g.index)
        }),
{
    if v.wf() && v.range is Some {
        verify::lemma_chunk_fits(v.seek, v.domain, v.hasher, v.index);
    }
}

} // verus!
