//! The verify pass: read the target back and check it against the manifest,
//! resumable, with the result recorded in the state file.
//!
//! Verify walks the chunk grid strictly in ascending order, so a **cursor**
//! (the next chunk index) is the entire resume state. It is checkpointed to
//! the state file's `[verify]` section on the same cadence as the copy loop's
//! map, together with the mismatches found so far; a completed pass drops the
//! cursor and records `finished` + `ok`. The section describes a snapshot of
//! the target, so any later write to the target invalidates it.

use crate::copier;
use crate::copier::{Outcome, Signals};
use crate::hash;
use crate::hash::{ChunkHasher, HasherModel};
use crate::readback;
use crate::readback::{Range, RangeModel, ReadAction, ReadReply, ReadReplyModel};
use crate::state;
use crate::state::{VerifyState, VerifyView};
use crate::time::Timestamp;
use crate::world;
use vstd::prelude::*;

verus! {

/// Outcome of a verify pass: the target read back against the manifest. The
/// counts describe *this run*; `mismatches` describes the whole pass
/// (accumulated across resumes), which is what the exit code keys on.
#[derive(Debug, Clone)]
pub struct VerifyOutcome {
    /// Chunks checked against a recorded digest by this run.
    pub chunks_checked: u64,
    /// Bytes read back and verified by this run.
    pub bytes_verified: u64,
    /// Chunks in the grid without a digest (bad regions, incomplete manifest).
    pub chunks_unhashed: u64,
    /// Domain offsets of mismatching chunks, over the whole pass.
    pub mismatches: Vec<u64>,
    /// The pass was interrupted; the cursor is saved for a resume.
    pub interrupted: bool,
}

impl VerifyOutcome {
    /// Whether everything checked matched (an interrupted pass is not ok).
    pub fn ok(&self) -> (r: bool)
        ensures
            r == (self.mismatches@.len() == 0 && !self.interrupted),
    {
        self.mismatches.len() == 0 && !self.interrupted
    }
}

/// The number of chunks a pass goes through: those of the domain, or those the
/// manifest has where the domain is unknown.
pub open spec fn grid_of(domain: int, hasher: HasherModel) -> int {
    if domain > 0 {
        hash::ceil_div(domain, hasher.chunk_size)
    } else {
        hasher.chunks.len() as int
    }
}

/// The expected length of chunk `index`: the chunk size, clipped by the domain
/// tail (an unknown domain expects full chunks; its tail sorts itself out where
/// the target ends, see [`VerifyModel::is_tail`]).
pub open spec fn length_of(index: int, chunk_size: int, domain: int) -> int {
    if domain > 0 {
        copier::min(chunk_size, domain - index * chunk_size)
    } else {
        chunk_size
    }
}

pub fn chunk_len(index: u64, chunk_size: u64, domain: u64) -> (r: u64)
    requires
        domain > 0 ==> index * chunk_size <= domain,
    ensures
        r == length_of(index as int, chunk_size as int, domain as int),
{
    if domain > 0 {
        let start = index * chunk_size;
        let rest = domain - start;
        if chunk_size < rest {
            chunk_size
        } else {
            rest
        }
    } else {
        chunk_size
    }
}

/// Whether the manifest has a digest for chunk `index`.
pub open spec fn hashed(chunks: Seq<Seq<char>>, index: int) -> bool {
    hash::digest_at(chunks, index).len() > 0
}

/// The first chunk at or after `from` with a digest; `grid` if there is none.
pub open spec fn next_hashed(chunks: Seq<Seq<char>>, grid: int, from: int) -> int
    decreases grid - from,
{
    if from >= grid || hashed(chunks, from) {
        from
    } else {
        next_hashed(chunks, grid, from + 1)
    }
}

/// What the pass waits for.
#[derive(Debug, Clone, Copy, PartialEq, Eq, Structural)]
pub enum VerifyAt {
    /// Not started.
    Start,
    /// Bytes of the chunk being checked.
    Reading,
    /// A checkpoint to be saved, after which the pass goes on.
    Checkpoint,
    /// The cursor of an interrupted pass to be saved.
    Pausing,
    /// The result of a finished pass to be saved.
    Finishing,
    /// Nothing more.
    Stopped(Outcome),
}

/// The state of a verify pass.
#[verifier::ext_equal]
pub struct VerifyModel {
    pub seek: int,
    pub domain: int,
    pub transfer: int,
    pub hasher: HasherModel,
    /// The chunk being checked, or the next to look at.
    pub index: int,
    pub mismatches: Seq<u64>,
    pub chunks_checked: int,
    pub bytes_verified: int,
    pub chunks_unhashed: int,
    /// Bytes the progress display has counted in this run.
    pub processed: int,
    pub range: Option<RangeModel>,
    pub at: VerifyAt,
    pub started: Timestamp,
    pub finished: Option<Timestamp>,
    pub ok: Option<bool>,
}

impl VerifyModel {
    pub open spec fn grid(self) -> int {
        grid_of(self.domain, self.hasher)
    }

    pub open spec fn chunk_start(self, index: int) -> int {
        index * self.hasher.chunk_size
    }

    pub open spec fn chunk_length(self, index: int) -> int {
        length_of(index, self.hasher.chunk_size, self.domain)
    }

    /// A pass that has not started: it goes on at the cursor of an unfinished
    /// one (within the grid, which may have shrunk since), or starts afresh.
    pub open spec fn start(
        seek: int,
        domain: int,
        transfer: int,
        hasher: HasherModel,
        prior: Option<VerifyView>,
        now: Timestamp,
    ) -> VerifyModel {
        let fresh = VerifyModel {
            seek,
            domain,
            transfer,
            hasher,
            index: 0,
            mismatches: Seq::empty(),
            chunks_checked: 0,
            bytes_verified: 0,
            chunks_unhashed: 0,
            processed: 0,
            range: None,
            at: VerifyAt::Start,
            started: now,
            finished: None,
            ok: None,
        };
        match prior {
            Some(v) => match v.cursor {
                Some(cursor) => VerifyModel {
                    index: copier::min(cursor as int, grid_of(domain, hasher)),
                    mismatches: v.mismatches,
                    started: v.started,
                    finished: v.finished,
                    ok: v.ok,
                    ..fresh
                },
                None => fresh,
            },
            None => fresh,
        }
    }

    /// Go on to the next chunk with a digest, unless the run was interrupted:
    /// then save the cursor and stop.
    pub open spec fn resume(self, signals: Signals) -> VerifyModel {
        if self.index < self.grid() && signals.interrupted {
            VerifyModel { range: None, at: VerifyAt::Pausing, ..self }
        } else {
            let index = next_hashed(self.hasher.chunks, self.grid(), self.index);
            let next = VerifyModel {
                index,
                chunks_unhashed: copier::counted(self.chunks_unhashed, index - self.index),
                ..self
            };
            if index < self.grid() {
                VerifyModel {
                    range: Some(
                        RangeModel::open(self.chunk_start(index), self.chunk_length(index)),
                    ),
                    at: VerifyAt::Reading,
                    ..next
                }
            } else {
                VerifyModel { range: None, at: VerifyAt::Finishing, ..next }
            }
        }
    }

    /// The target ended inside the current chunk, and that is where the copy of
    /// a source of unknown size ended too: in the last chunk of the manifest,
    /// after at least one byte.
    pub open spec fn is_tail(self, range: RangeModel) -> bool {
        self.domain == 0 && self.index + 1 == self.grid() && range.bytes.len() > 0
    }

    /// A chunk is checked, `length` bytes of it: count it, checkpoint if it is
    /// time, then go on.
    pub open spec fn checked(self, matches: bool, length: int, signals: Signals) -> VerifyModel {
        let next = VerifyModel {
            mismatches: if matches {
                self.mismatches
            } else {
                self.mismatches.push(self.chunk_start(self.index) as u64)
            },
            chunks_checked: copier::counted(self.chunks_checked, 1),
            bytes_verified: copier::counted(self.bytes_verified, length),
            index: self.index + 1,
            ..self
        };
        if signals.flush_due {
            VerifyModel { range: None, at: VerifyAt::Checkpoint, ..next }
        } else {
            next.resume(signals)
        }
    }

    /// The target gave `data`. A chunk read to its end matches if its digest is
    /// the recorded one, and so does the tail of a copy of unknown size; any
    /// other chunk the target is too short for does not.
    pub open spec fn on_data(self, range: RangeModel, data: Seq<u8>, signals: Signals) -> VerifyModel {
        let used = range.used(self.transfer, data);
        let read = range.with(used);
        let next = VerifyModel {
            processed: copier::counted(self.processed, used.len() as int),
            range: None,
            ..self
        };
        let matches = hash::blake3_hex(read.bytes) == hash::digest_at(
            self.hasher.chunks,
            self.index,
        );
        if used.len() == 0 && self.is_tail(range) {
            next.checked(matches, range.bytes.len() as int, signals)
        } else if used.len() == 0 {
            next.checked(false, range.length, signals)
        } else if read.is_through() {
            next.checked(matches, range.length, signals)
        } else {
            VerifyModel { range: Some(read), ..next }
        }
    }

    pub open spec fn expects(self, reply: ReadReplyModel) -> bool {
        match reply {
            ReadReplyModel::Done => self.at == VerifyAt::Start || self.at == VerifyAt::Checkpoint
                || self.at == VerifyAt::Pausing || self.at == VerifyAt::Finishing,
            ReadReplyModel::Data(data) => self.at == VerifyAt::Reading,
            ReadReplyModel::Failed => !(self.at matches VerifyAt::Stopped(outcome)),
        }
    }

    /// The transition function.
    pub open spec fn next(self, reply: ReadReplyModel, signals: Signals) -> VerifyModel {
        match (reply, self.range, self.at) {
            (ReadReplyModel::Failed, _, _) => VerifyModel {
                range: None,
                at: VerifyAt::Stopped(Outcome::Failed),
                ..self
            },
            (ReadReplyModel::Data(data), Some(range), _) => self.on_data(range, data, signals),
            (_, _, VerifyAt::Pausing) => VerifyModel {
                at: VerifyAt::Stopped(Outcome::Interrupted),
                ..self
            },
            (_, _, VerifyAt::Finishing) => VerifyModel {
                at: VerifyAt::Stopped(Outcome::Finished),
                ..self
            },
            _ => self.resume(signals),
        }
    }

    pub open spec fn action(self) -> ReadAction {
        match (self.at, self.range) {
            (VerifyAt::Start, _) => ReadAction::Begin,
            (VerifyAt::Reading, Some(range)) => ReadAction::ReadTarget {
                offset: (self.seek + range.start + range.bytes.len()) as u64,
                length: range.want(self.transfer) as u64,
            },
            (VerifyAt::Stopped(outcome), _) => ReadAction::Stop(outcome),
            _ => ReadAction::Save,
        }
    }

    /// The `[verify]` section to be saved: a cursor as long as the pass is not
    /// through, its result once it is.
    pub open spec fn section(self, now: Timestamp) -> VerifyView {
        if self.at == VerifyAt::Finishing {
            VerifyView {
                cursor: None,
                mismatches: self.mismatches,
                started: self.started,
                finished: Some(now),
                ok: Some(self.mismatches.len() == 0),
            }
        } else {
            VerifyView {
                cursor: Some(self.index as u64),
                mismatches: self.mismatches,
                started: self.started,
                finished: self.finished,
                ok: self.ok,
            }
        }
    }

    pub open spec fn wf(self) -> bool {
        &&& 0 < self.transfer
        &&& 0 <= self.seek
        &&& 0 <= self.domain
        &&& self.hasher.chunk_size > 0
        &&& fits(self.seek, self.domain, self.hasher)
        &&& 0 <= self.index <= self.grid()
        &&& 0 <= self.chunks_checked <= u64::MAX
        &&& 0 <= self.bytes_verified <= u64::MAX
        &&& 0 <= self.chunks_unhashed <= u64::MAX
        &&& 0 <= self.processed <= u64::MAX
        &&& self.at == VerifyAt::Reading <==> self.range is Some
        &&& self.range matches Some(range) ==> {
            &&& self.index < self.grid()
            &&& hashed(self.hasher.chunks, self.index)
            &&& range.wf()
            &&& range.start == self.chunk_start(self.index)
            &&& range.length == self.chunk_length(self.index)
        }
        &&& self.at == VerifyAt::Finishing ==> self.index == self.grid()
    }
}

/// The whole grid lies within `u64`, on the target too.
pub open spec fn fits(seek: int, domain: int, hasher: HasherModel) -> bool {
    if domain > 0 {
        seek + domain <= u64::MAX
    } else {
        seek + grid_of(domain, hasher) * hasher.chunk_size <= u64::MAX
    }
}

/// Every chunk of the grid lies within it.
pub(crate) proof fn lemma_chunk_fits(seek: int, domain: int, hasher: HasherModel, index: int)
    requires
        0 <= seek,
        0 <= domain,
        hasher.chunk_size > 0,
        fits(seek, domain, hasher),
        0 <= index < grid_of(domain, hasher),
    ensures
        0 <= index * hasher.chunk_size,
        0 < length_of(index, hasher.chunk_size, domain) <= hasher.chunk_size,
        domain > 0 ==> index * hasher.chunk_size < domain,
        domain > 0 ==> index * hasher.chunk_size + length_of(index, hasher.chunk_size, domain)
            <= domain,
        seek + index * hasher.chunk_size + length_of(index, hasher.chunk_size, domain) <= u64::MAX,
{
    let size = hasher.chunk_size;
    let grid = grid_of(domain, hasher);
    hash::lemma_ceil_div(domain, size, index);
    assert(index * size + size <= grid * size && 0 <= index * size) by (nonlinear_arith)
        requires
            0 <= index,
            index + 1 <= grid,
            size > 0,
    ;
}

/// A verify pass in flight.
pub struct Verifier {
    seek: u64,
    domain: u64,
    transfer: u64,
    hasher: ChunkHasher,
    grid: u64,
    index: u64,
    mismatches: Vec<u64>,
    chunks_checked: u64,
    bytes_verified: u64,
    chunks_unhashed: u64,
    processed: u64,
    range: Option<Range>,
    at: VerifyAt,
    started: Timestamp,
    finished: Option<Timestamp>,
    ok: Option<bool>,
}

impl View for Verifier {
    type V = VerifyModel;

    closed spec fn view(&self) -> VerifyModel {
        VerifyModel {
            seek: self.seek as int,
            domain: self.domain as int,
            transfer: self.transfer as int,
            hasher: self.hasher@,
            index: self.index as int,
            mismatches: self.mismatches@,
            chunks_checked: self.chunks_checked as int,
            bytes_verified: self.bytes_verified as int,
            chunks_unhashed: self.chunks_unhashed as int,
            processed: self.processed as int,
            range: match self.range {
                Some(range) => Some(range@),
                None => None,
            },
            at: self.at,
            started: self.started,
            finished: self.finished,
            ok: self.ok,
        }
    }
}

impl Verifier {
    pub closed spec fn wf(&self) -> bool {
        &&& self.hasher.wf()
        &&& self.range matches Some(range) ==> range.wf()
        &&& self.grid == self@.grid()
        &&& self@.wf()
    }

    /// A consistent pass has a consistent model, which the laws ask for.
    pub proof fn lemma_wf(&self)
        requires
            self.wf(),
        ensures
            self@.wf(),
    {
    }

    /// A pass that has not started. `prior` is the `[verify]` section carried
    /// over from the loaded state: a cursor there continues the pass; anything
    /// else starts a fresh one.
    pub fn new(
        seek: u64,
        domain: u64,
        transfer: u64,
        hasher: ChunkHasher,
        prior: Option<VerifyState>,
        now: Timestamp,
    ) -> (r: Self)
        requires
            0 < transfer,
            hasher.wf(),
            fits(seek as int, domain as int, hasher@),
        ensures
            r.wf(),
            r@ == VerifyModel::start(
                seek as int,
                domain as int,
                transfer as int,
                hasher@,
                state::verify_view(prior),
                now,
            ),
    {
        proof {
            hasher.lemma_wf();
            hash::lemma_chunks_ended_grow(hasher@.chunk_size, 0, 0, domain as int);
            hash::lemma_ceil_div(domain as int, hasher@.chunk_size, -1);
            assert((-1) * hasher@.chunk_size < 0) by (nonlinear_arith)
                requires
                    hasher@.chunk_size > 0,
            ;
        }
        let grid = if domain > 0 {
            hash::chunk_count(domain, hasher.chunk_size())
        } else {
            hasher.chunks().len() as u64
        };
        let mut r = Verifier {
            seek,
            domain,
            transfer,
            hasher,
            grid,
            index: 0,
            mismatches: Vec::new(),
            chunks_checked: 0,
            bytes_verified: 0,
            chunks_unhashed: 0,
            processed: 0,
            range: None,
            at: VerifyAt::Start,
            started: now,
            finished: None,
            ok: None,
        };
        if let Some(v) = prior {
            if let Some(cursor) = v.cursor {
                r.index = if cursor < grid { cursor } else { grid };
                r.mismatches = v.mismatches;
                r.started = v.started;
                r.finished = v.finished;
                r.ok = v.ok;
            }
        }
        proof {
            assert(r@ =~= VerifyModel::start(
                seek as int,
                domain as int,
                transfer as int,
                hasher@,
                state::verify_view(prior),
                now,
            ));
        }
        r
    }

    fn resume(&mut self, signals: Signals)
        requires
            old(self).hasher.wf(),
            old(self).grid == old(self)@.grid(),
            (VerifyModel { range: None, at: VerifyAt::Start, ..old(self)@ }).wf(),
        ensures
            final(self)@ == old(self)@.resume(signals),
            final(self).wf(),
    {
        let ghost before = self@;
        if self.index < self.grid && signals.interrupted {
            self.range = None;
            self.at = VerifyAt::Pausing;
            proof {
                assert(self@ =~= before.resume(signals));
            }
            return ;
        }
        let mut index = self.index;
        while index < self.grid && self.hasher.get(index).is_none()
            invariant
                self@ == before,
                before.index <= index <= self.grid,
                self.grid == before.grid(),
                next_hashed(before.hasher.chunks, before.grid(), before.index) == next_hashed(
                    before.hasher.chunks,
                    before.grid(),
                    index as int,
                ),
            decreases self.grid - index,
        {
            index = index + 1;
        }
        self.chunks_unhashed = self.chunks_unhashed.saturating_add(index - self.index);
        self.index = index;
        if index < self.grid {
            proof {
                lemma_chunk_fits(before.seek, before.domain, before.hasher, index as int);
            }
            let size = self.hasher.chunk_size();
            let start = index * size;
            self.range = Some(Range::open(start, chunk_len(index, size, self.domain)));
            self.at = VerifyAt::Reading;
        } else {
            self.range = None;
            self.at = VerifyAt::Finishing;
        }
        proof {
            assert(self@ =~= before.resume(signals));
        }
    }

    fn checked(&mut self, matches: bool, length: u64, signals: Signals)
        requires
            old(self).hasher.wf(),
            old(self).grid == old(self)@.grid(),
            (VerifyModel { range: None, at: VerifyAt::Start, ..old(self)@ }).wf(),
            old(self)@.index < old(self)@.grid(),
        ensures
            final(self)@ == old(self)@.checked(matches, length as int, signals),
            final(self).wf(),
    {
        let ghost before = self@;
        proof {
            lemma_chunk_fits(before.seek, before.domain, before.hasher, before.index);
        }
        let size = self.hasher.chunk_size();
        let start = self.index * size;
        if !matches {
            self.mismatches.push(start);
        }
        self.chunks_checked = self.chunks_checked.saturating_add(1);
        self.bytes_verified = self.bytes_verified.saturating_add(length);
        self.index = self.index + 1;
        let ghost next = VerifyModel {
            mismatches: if matches {
                before.mismatches
            } else {
                before.mismatches.push(before.chunk_start(before.index) as u64)
            },
            chunks_checked: copier::counted(before.chunks_checked, 1),
            bytes_verified: copier::counted(before.bytes_verified, length as int),
            index: before.index + 1,
            ..before
        };
        proof {
            assert(self@ =~= next);
        }
        if signals.flush_due {
            self.range = None;
            self.at = VerifyAt::Checkpoint;
            proof {
                assert(self@ =~= before.checked(matches, length as int, signals));
            }
        } else {
            self.resume(signals);
        }
    }

    /// Whether the manifest holds `text` for the chunk being checked.
    fn matches_manifest(&self, text: &String) -> (r: bool)
        requires
            text@.len() > 0,
        ensures
            r == (text@ == hash::digest_at(self@.hasher.chunks, self@.index)),
    {
        let chunks = self.hasher.chunks();
        if self.index < chunks.len() as u64 {
            proof {
                assert(hash::texts(chunks@)[self.index as int] == chunks@[self.index as int]@);
            }
            chunks[self.index as usize] == *text
        } else {
            false
        }
    }

    /// Take in what came of the pending action and decide on the next.
    pub fn step(&mut self, reply: ReadReply, signals: Signals)
        requires
            old(self).wf(),
            old(self)@.expects(reply@),
        ensures
            final(self).wf(),
            final(self)@ == old(self)@.next(reply@, signals),
    {
        let ghost before = self@;
        match reply {
            ReadReply::Failed => {
                self.range = None;
                self.at = VerifyAt::Stopped(Outcome::Failed);
                proof {
                    assert(self@ =~= before.next(ReadReplyModel::Failed, signals));
                }
            },
            ReadReply::Done => {
                match self.at {
                    VerifyAt::Pausing => {
                        self.at = VerifyAt::Stopped(Outcome::Interrupted);
                        proof {
                            assert(self@ =~= before.next(ReadReplyModel::Done, signals));
                        }
                    },
                    VerifyAt::Finishing => {
                        self.at = VerifyAt::Stopped(Outcome::Finished);
                        proof {
                            assert(self@ =~= before.next(ReadReplyModel::Done, signals));
                        }
                    },
                    _ => {
                        self.resume(signals);
                    },
                }
            },
            ReadReply::Data(data) => {
                if let Some(mut range) = self.range.take() {
                    let n = range.take(self.transfer, data.as_slice());
                    self.processed = self.processed.saturating_add(n);
                    proof {
                        range.lemma_wf();
                        assert(self@ =~= VerifyModel {
                            processed: copier::counted(before.processed, n as int),
                            range: None,
                            ..before
                        });
                    }
                    let size = self.hasher.chunk_size();
                    let start = self.index * size;
                    let length = chunk_len(self.index, size, self.domain);
                    let read = range.next_pos() - start;
                    if n == 0 && self.domain == 0 && self.index + 1 == self.grid && read > 0 {
                        let text = range.finish();
                        let same = self.matches_manifest(&text);
                        self.checked(same, read, signals);
                    } else if n == 0 {
                        self.checked(false, length, signals);
                    } else if range.is_through() {
                        let text = range.finish();
                        let same = self.matches_manifest(&text);
                        self.checked(same, length, signals);
                    } else {
                        self.range = Some(range);
                        proof {
                            assert(self@ =~= before.next(ReadReplyModel::Data(data@), signals));
                        }
                    }
                }
            },
        }
    }

    /// What the driver is to do next.
    pub fn action(&self) -> (r: ReadAction)
        requires
            self.wf(),
        ensures
            r == self@.action(),
    {
        match self.at {
            VerifyAt::Start => ReadAction::Begin,
            VerifyAt::Stopped(outcome) => ReadAction::Stop(outcome),
            _ => match &self.range {
                Some(range) => {
                    proof {
                        range.lemma_wf();
                        lemma_chunk_fits(self@.seek, self@.domain, self@.hasher, self@.index);
                    }
                    ReadAction::ReadTarget {
                        offset: self.seek + range.next_pos(),
                        length: range.want(self.transfer),
                    }
                },
                None => ReadAction::Save,
            },
        }
    }

    /// The `[verify]` section to be saved, as of `now`.
    pub fn section(&self, now: Timestamp) -> (r: VerifyState)
        requires
            self.wf(),
        ensures
            r@ == self@.section(now),
    {
        if self.at == VerifyAt::Finishing {
            VerifyState {
                cursor: None,
                mismatches: state::copy_numbers(&self.mismatches),
                started: self.started,
                finished: Some(now),
                ok: Some(self.mismatches.len() == 0),
            }
        } else {
            VerifyState {
                cursor: Some(self.index),
                mismatches: state::copy_numbers(&self.mismatches),
                started: self.started,
                finished: self.finished,
                ok: self.ok,
            }
        }
    }

    /// The manifest the target is checked against.
    pub fn hasher(&self) -> (r: &ChunkHasher)
        requires
            self.wf(),
        ensures
            r.wf(),
            r@ == self@.hasher,
    {
        &self.hasher
    }

    /// Bytes the progress display has counted in this run.
    pub fn processed(&self) -> (r: u64)
        ensures
            r == self@.processed,
    {
        self.processed
    }

    /// The bytes this run has to read back: the lengths of the chunks with a
    /// digest from the cursor on, held at `u64::MAX`.
    pub fn bytes_ahead(&self) -> (r: u64)
        requires
            self.wf(),
        ensures
            r == self@.ahead(self@.index),
    {
        let mut total: u64 = 0;
        let mut index = self.grid;
        let size = self.hasher.chunk_size();
        while index > self.index
            invariant
                self.wf(),
                size == self@.hasher.chunk_size,
                self.index <= index <= self.grid,
                total == self@.ahead(index as int),
            decreases index,
        {
            index = index - 1;
            if self.hasher.get(index).is_some() {
                proof {
                    lemma_chunk_fits(self@.seek, self@.domain, self@.hasher, index as int);
                }
                total = total.saturating_add(chunk_len(index, size, self.domain));
            }
        }
        total
    }

    /// What the pass has found.
    pub fn outcome(&self) -> (r: VerifyOutcome)
        ensures
            r.chunks_checked == self@.chunks_checked,
            r.bytes_verified == self@.bytes_verified,
            r.chunks_unhashed == self@.chunks_unhashed,
            r.mismatches@ == self@.mismatches,
            r.interrupted == (self@.at == VerifyAt::Pausing || self@.at == VerifyAt::Stopped(
                Outcome::Interrupted,
            )),
    {
        VerifyOutcome {
            chunks_checked: self.chunks_checked,
            bytes_verified: self.bytes_verified,
            chunks_unhashed: self.chunks_unhashed,
            mismatches: state::copy_numbers(&self.mismatches),
            interrupted: self.at == VerifyAt::Pausing || self.at == VerifyAt::Stopped(
                Outcome::Interrupted,
            ),
        }
    }
}

impl VerifyModel {
    /// The lengths of the chunks with a digest from chunk `from` on, held at
    /// `u64::MAX`.
    pub open spec fn ahead(self, from: int) -> int
        decreases self.grid() - from,
    {
        if from >= self.grid() {
            0
        } else {
            let rest = self.ahead(from + 1);
            if hashed(self.hasher.chunks, from) {
                copier::counted(rest, self.chunk_length(from))
            } else {
                rest
            }
        }
    }
}

// ---------------------------------------------------------------------------
// Laws of the pass.

/// Where chunk `index` ends on the target: where the grid or the domain says; for
/// a source of unknown size, the last chunk ends where the target does, if it
/// has begun by then.
pub open spec fn end_on(hasher: HasherModel, domain: int, target: Seq<u8>, index: int) -> int {
    let start = index * hasher.chunk_size;
    let end = start + length_of(index, hasher.chunk_size, domain);
    if domain == 0 && index + 1 == grid_of(domain, hasher) && start < target.len() < end {
        target.len() as int
    } else {
        end
    }
}

/// The target holds all of chunk `index`, with the digest the manifest records.
pub open spec fn intact(hasher: HasherModel, domain: int, target: Seq<u8>, index: int) -> bool {
    let start = index * hasher.chunk_size;
    let end = end_on(hasher, domain, target, index);
    &&& end <= target.len()
    &&& hash::blake3_hex(target.subrange(start, end)) == hash::digest_at(hasher.chunks, index)
}

/// The starts of the damaged chunks among `[from, to)`: of those with a digest
/// that are not intact.
pub open spec fn damaged(
    hasher: HasherModel,
    domain: int,
    target: Seq<u8>,
    from: int,
    to: int,
) -> Seq<u64>
    decreases to - from,
{
    if to <= from {
        Seq::empty()
    } else {
        let before = damaged(hasher, domain, target, from, to - 1);
        if hashed(hasher.chunks, to - 1) && !intact(hasher, domain, target, to - 1) {
            before.push(((to - 1) * hasher.chunk_size) as u64)
        } else {
            before
        }
    }
}

/// A reply reports what the target holds; no bytes at all come only at its end.
pub open spec fn honest(m: VerifyModel, target: Seq<u8>, reply: ReadReplyModel) -> bool {
    reply matches ReadReplyModel::Data(data) ==> {
        let at = m.range->0.start + m.range->0.bytes.len();
        &&& world::agrees(target, at, data)
        &&& data.len() == 0 ==> target.len() <= at
    }
}

/// What a pass that started at chunk `first` with the list `before` has found so
/// far: its list is `before` and the damaged chunks among those it has passed;
/// and the bytes read of the current chunk are the target's.
pub open spec fn found(m: VerifyModel, target: Seq<u8>, first: int, before: Seq<u64>) -> bool {
    &&& first <= m.index
    &&& m.mismatches == before + damaged(m.hasher, m.domain, target, first, m.index)
    &&& m.range matches Some(range) ==> world::agrees(target, range.start, range.bytes)
}

/// Chunks without a digest are not damaged.
proof fn lemma_unhashed_is_not_damaged(
    hasher: HasherModel,
    domain: int,
    target: Seq<u8>,
    from: int,
    at: int,
)
    requires
        from <= at,
    ensures
        damaged(
            hasher,
            domain,
            target,
            from,
            next_hashed(hasher.chunks, grid_of(domain, hasher), at),
        ) == damaged(hasher, domain, target, from, at),
        at <= next_hashed(hasher.chunks, grid_of(domain, hasher), at),
    decreases grid_of(domain, hasher) - at,
{
    if at < grid_of(domain, hasher) && !hashed(hasher.chunks, at) {
        lemma_unhashed_is_not_damaged(hasher, domain, target, from, at + 1);
    }
}

/// Going on to the next chunk with a digest.
proof fn lemma_resume_finds(
    m: VerifyModel,
    target: Seq<u8>,
    first: int,
    before: Seq<u64>,
    signals: Signals,
)
    requires
        first <= m.index,
        m.mismatches == before + damaged(m.hasher, m.domain, target, first, m.index),
    ensures
        found(m.resume(signals), target, first, before),
{
    lemma_unhashed_is_not_damaged(m.hasher, m.domain, target, first, m.index);
}

/// A chunk is checked.
proof fn lemma_checked_finds(
    m: VerifyModel,
    target: Seq<u8>,
    first: int,
    before: Seq<u64>,
    matches: bool,
    length: int,
    signals: Signals,
)
    requires
        first <= m.index,
        m.mismatches == before + damaged(m.hasher, m.domain, target, first, m.index),
        hashed(m.hasher.chunks, m.index),
        matches == intact(m.hasher, m.domain, target, m.index),
    ensures
        found(m.checked(matches, length, signals), target, first, before),
{
    let next = VerifyModel {
        mismatches: if matches {
            m.mismatches
        } else {
            m.mismatches.push(m.chunk_start(m.index) as u64)
        },
        chunks_checked: copier::counted(m.chunks_checked, 1),
        bytes_verified: copier::counted(m.bytes_verified, length),
        index: m.index + 1,
        ..m
    };
    assert(next.mismatches =~= before + damaged(
        m.hasher,
        m.domain,
        target,
        first,
        m.index + 1,
    ));
    lemma_resume_finds(next, target, first, before, signals);
}

/// One step of an honest pass over an unchanging target keeps the list exact.
pub proof fn law_step_keeps_the_list_exact(
    m: VerifyModel,
    target: Seq<u8>,
    first: int,
    before: Seq<u64>,
    reply: ReadReplyModel,
    signals: Signals,
)
    requires
        m.wf(),
        m.expects(reply),
        found(m, target, first, before),
        honest(m, target, reply),
    ensures
        found(m.next(reply, signals), target, first, before),
{
    match reply {
        ReadReplyModel::Data(data) => {
            let range = m.range->0;
            let used = range.used(m.transfer, data);
            let read = range.with(used);
            let next = VerifyModel {
                processed: copier::counted(m.processed, used.len() as int),
                range: None,
                ..m
            };
            lemma_chunk_fits(m.seek, m.domain, m.hasher, m.index);
            let matches = hash::blake3_hex(read.bytes) == hash::digest_at(
                m.hasher.chunks,
                m.index,
            );
            assert forall|k: int| 0 <= k < read.bytes.len() implies #[trigger] read.bytes[k]
                == target[range.start + k] by {
                if k >= range.bytes.len() {
                    assert(data[k - range.bytes.len()] == target[range.start + range.bytes.len()
                        + (k - range.bytes.len())]);
                } else {
                    assert(range.bytes[k] == target[range.start + k]);
                }
            }
            if used.len() == 0 {
                assert(data.len() == 0);
                assert(read.bytes =~= range.bytes);
                if m.is_tail(range) {
                    assert(read.bytes =~= target.subrange(range.start, target.len() as int));
                    lemma_checked_finds(
                        next,
                        target,
                        first,
                        before,
                        matches,
                        range.bytes.len() as int,
                        signals,
                    );
                } else {
                    lemma_checked_finds(next, target, first, before, false, range.length, signals);
                }
            } else if read.is_through() {
                assert(read.bytes =~= target.subrange(range.start, range.start + range.length));
                lemma_checked_finds(next, target, first, before, matches, range.length, signals);
            }
        },
        _ => {
            lemma_resume_finds(m, target, first, before, signals);
        },
    }
}

/// A pass: its states from the start on, and the reply and the signals that led
/// from each to the next.
pub struct VerifyRun {
    pub machine: Seq<VerifyModel>,
    pub replies: Seq<ReadReplyModel>,
    pub signals: Seq<Signals>,
}

impl VerifyRun {
    /// Each state follows from the one before by an honest reply about `target`.
    /// (That the states are well-formed is what `Verifier::step` guarantees.)
    pub open spec fn is_run(self, target: Seq<u8>) -> bool {
        &&& self.machine.len() == self.replies.len() + 1
        &&& self.signals.len() == self.replies.len()
        &&& forall|i: int| 0 <= i < self.machine.len() ==> (#[trigger] self.machine[i]).wf()
        &&& forall|i: int|
            0 <= i < self.replies.len() ==> self.step_ok(target, i, #[trigger] self.replies[i])
    }

    pub open spec fn step_ok(self, target: Seq<u8>, i: int, reply: ReadReplyModel) -> bool {
        &&& self.machine[i].expects(reply)
        &&& honest(self.machine[i], target, reply)
        &&& self.machine[i + 1] == self.machine[i].next(reply, self.signals[i])
    }
}

pub(crate) proof fn lemma_run_finds(run: VerifyRun, target: Seq<u8>, i: int)
    requires
        run.is_run(target),
        run.machine[0].at == VerifyAt::Start,
        0 <= i < run.machine.len(),
    ensures
        found(run.machine[i], target, run.machine[0].index, run.machine[0].mismatches),
        run.machine[i].hasher == run.machine[0].hasher,
        run.machine[i].domain == run.machine[0].domain,
    decreases i,
{
    let m = run.machine[0];
    if i == 0 {
        assert(m.wf());
        assert(m.mismatches =~= m.mismatches + damaged(
            m.hasher,
            m.domain,
            target,
            m.index,
            m.index,
        ));
    } else {
        lemma_run_finds(run, target, i - 1);
        assert(run.step_ok(target, i - 1, run.replies[i - 1]));
        assert(run.machine[i - 1].wf());
        law_step_keeps_the_list_exact(
            run.machine[i - 1],
            target,
            m.index,
            m.mismatches,
            run.replies[i - 1],
            run.signals[i - 1],
        );
    }
}

/// A pass lists exactly the damaged chunks: when it is through, it has added to
/// the list it started with the offsets of those chunks from its cursor on that
/// have a digest and are not on the target with it, and no others.
pub proof fn law_pass_lists_exactly_the_damaged_chunks(run: VerifyRun, target: Seq<u8>)
    requires
        run.is_run(target),
        run.machine[0].at == VerifyAt::Start,
        run.machine.last().at == VerifyAt::Finishing,
    ensures
        ({
            let m = run.machine[0];
            run.machine.last().mismatches == m.mismatches + damaged(
                m.hasher,
                m.domain,
                target,
                m.index,
                m.grid(),
            )
        }),
{
    lemma_run_finds(run, target, run.machine.len() - 1);
    assert(run.machine[run.machine.len() - 1].wf());
}

/// What is damaged is listed, and what is listed is damaged.
pub proof fn law_damaged_chunks_are_listed(
    hasher: HasherModel,
    domain: int,
    target: Seq<u8>,
    from: int,
    to: int,
    index: int,
)
    requires
        hasher.chunk_size > 0,
        0 <= from <= index < to,
        (to - 1) * hasher.chunk_size <= u64::MAX,
    ensures
        damaged(hasher, domain, target, from, to).contains((index * hasher.chunk_size) as u64)
            <==> hashed(hasher.chunks, index) && !intact(hasher, domain, target, index),
    decreases to - from,
{
    let size = hasher.chunk_size;
    let all = damaged(hasher, domain, target, from, to);
    let rest = damaged(hasher, domain, target, from, to - 1);
    let start = (index * size) as u64;
    let last = ((to - 1) * size) as u64;
    assert(0 <= index * size <= (to - 1) * size) by (nonlinear_arith)
        requires
            0 <= index <= to - 1,
            size > 0,
    ;
    assert((to - 2) * size <= (to - 1) * size) by (nonlinear_arith)
        requires
            size > 0,
    ;
    assert(forall|k: int| 0 <= k < rest.len() ==> all[k] == rest[k]);
    if index == to - 1 {
        lemma_listed_chunks_lie_in_the_range(hasher, domain, target, from, to - 1, index);
        if all.len() > rest.len() {
            assert(all[rest.len() as int] == start);
        }
    } else {
        law_damaged_chunks_are_listed(hasher, domain, target, from, to - 1, index);
        assert(index * size < (to - 1) * size) by (nonlinear_arith)
            requires
                index < to - 1,
                size > 0,
        ;
        if rest.contains(start) {
            let k = choose|k: int| 0 <= k < rest.len() && rest[k] == start;
            assert(all[k] == start);
        }
        if all.contains(start) {
            let k = choose|k: int| 0 <= k < all.len() && all[k] == start;
            if k < rest.len() {
                assert(rest[k] == start);
            }
        }
    }
}

/// A chunk outside the range is not listed.
proof fn lemma_listed_chunks_lie_in_the_range(
    hasher: HasherModel,
    domain: int,
    target: Seq<u8>,
    from: int,
    to: int,
    index: int,
)
    requires
        hasher.chunk_size > 0,
        0 <= from,
        0 <= to <= index,
        index * hasher.chunk_size <= u64::MAX,
    ensures
        !damaged(hasher, domain, target, from, to).contains((index * hasher.chunk_size) as u64),
    decreases to - from,
{
    if from < to {
        let size = hasher.chunk_size;
        lemma_listed_chunks_lie_in_the_range(hasher, domain, target, from, to - 1, index);
        let all = damaged(hasher, domain, target, from, to);
        let rest = damaged(hasher, domain, target, from, to - 1);
        assert(0 <= (to - 1) * size < index * size) by (nonlinear_arith)
            requires
                0 <= to - 1 < index,
                size > 0,
        ;
        if all.contains((index * size) as u64) {
            let k = choose|k: int| 0 <= k < all.len() && all[k] == (index * size) as u64;
            if k < rest.len() {
                assert(rest[k] == all[k]);
            }
        }
    }
}

/// A fresh pass that finished with an empty list found the target intact: every
/// chunk with a digest is there with it, and the recorded result is a success.
pub proof fn law_clean_pass_means_intact(run: VerifyRun, target: Seq<u8>, index: int)
    requires
        run.is_run(target),
        run.machine[0].at == VerifyAt::Start,
        run.machine[0].index == 0,
        run.machine.last().at == VerifyAt::Finishing,
        run.machine.last().mismatches.len() == 0,
        0 <= index < run.machine[0].grid(),
        hashed(run.machine[0].hasher.chunks, index),
    ensures
        intact(run.machine[0].hasher, run.machine[0].domain, target, index),
        forall|now: Timestamp| (#[trigger] run.machine.last().section(now)).ok == Some(true),
{
    let m = run.machine[0];
    law_pass_lists_exactly_the_damaged_chunks(run, target);
    lemma_chunk_fits(m.seek, m.domain, m.hasher, m.grid() - 1);
    law_damaged_chunks_are_listed(m.hasher, m.domain, target, 0, m.grid(), index);
    let list = damaged(m.hasher, m.domain, target, 0, m.grid());
    assert(list.len() == 0);
}

/// An interrupted pass is resumed where it stopped, with what it had found: the
/// saved section starts a pass at the same chunk with the same list.
pub proof fn law_saved_pass_resumes(m: VerifyModel, now: Timestamp, later: Timestamp)
    requires
        m.wf(),
        m.at == VerifyAt::Pausing || m.at == VerifyAt::Checkpoint,
        m.grid() <= u64::MAX,
    ensures
        ({
            let next = VerifyModel::start(
                m.seek,
                m.domain,
                m.transfer,
                m.hasher,
                Some(m.section(now)),
                later,
            );
            &&& next.index == m.index
            &&& next.mismatches == m.mismatches
            &&& next.started == m.started
            &&& next.finished == m.finished
            &&& next.ok == m.ok
        }),
{
}

/// A pass that is interrupted and resumed lists what one pass would have listed:
/// the damaged chunks up to the cursor and from it on are all of them.
pub proof fn law_resumed_pass_lists_the_same(
    hasher: HasherModel,
    domain: int,
    target: Seq<u8>,
    from: int,
    cursor: int,
    to: int,
)
    requires
        from <= cursor <= to,
    ensures
        damaged(hasher, domain, target, from, cursor) + damaged(
            hasher,
            domain,
            target,
            cursor,
            to,
        ) == damaged(hasher, domain, target, from, to),
    decreases to - cursor,
{
    if cursor < to {
        law_resumed_pass_lists_the_same(hasher, domain, target, from, cursor, to - 1);
        assert(damaged(hasher, domain, target, from, cursor) + damaged(
            hasher,
            domain,
            target,
            cursor,
            to,
        ) =~= damaged(hasher, domain, target, from, to));
    } else {
        assert(damaged(hasher, domain, target, from, cursor) + damaged(
            hasher,
            domain,
            target,
            cursor,
            to,
        ) =~= damaged(hasher, domain, target, from, to));
    }
}

// ---------------------------------------------------------------------------
// The counters.

/// How many of the chunks `[from, to)` have a digest.
pub open spec fn hashed_among(chunks: Seq<Seq<char>>, from: int, to: int) -> int
    decreases to - from,
{
    if to <= from {
        0
    } else {
        hashed_among(chunks, from, to - 1) + if hash::digest_at(chunks, to - 1).len() > 0 {
            1int
        } else {
            0
        }
    }
}

/// How many bytes of a known domain lie in those of the chunks `[from, to)` that have a
/// digest.
pub open spec fn hashed_bytes(
    chunks: Seq<Seq<char>>,
    size: int,
    domain: int,
    from: int,
    to: int,
) -> int
    decreases to - from,
{
    if to <= from {
        0
    } else {
        hashed_bytes(chunks, size, domain, from, to - 1) + if hash::digest_at(chunks, to - 1).len()
            > 0 {
            (if to * size < domain {
                to * size
            } else {
                domain
            }) - (to - 1) * size
        } else {
            0
        }
    }
}

/// The counters of a pass that started at chunk `first` say what it has gone through.
spec fn counts(m: VerifyModel, first: int) -> bool {
    &&& first <= m.index
    &&& m.chunks_checked == hashed_among(m.hasher.chunks, first, m.index)
    &&& m.chunks_unhashed == m.index - first - m.chunks_checked
    &&& m.bytes_verified == hashed_bytes(
        m.hasher.chunks,
        m.hasher.chunk_size,
        m.domain,
        first,
        m.index,
    )
}

proof fn lemma_hashed_among(chunks: Seq<Seq<char>>, size: int, domain: int, from: int, to: int)
    requires
        0 <= from <= to,
        0 < size,
        to > from ==> (to - 1) * size < domain,
    ensures
        0 <= hashed_among(chunks, from, to) <= to - from,
        0 <= hashed_bytes(chunks, size, domain, from, to),
        hashed_bytes(chunks, size, domain, from, to) <= domain || to == from,
        hashed_bytes(chunks, size, domain, from, to) <= to * size,
        (forall|i: int| from <= i < to ==> (#[trigger] hash::digest_at(chunks, i)).len() > 0)
            ==> hashed_among(chunks, from, to) == to - from && hashed_bytes(
            chunks,
            size,
            domain,
            from,
            to,
        ) == if to * size < domain || to == from {
            to * size - from * size
        } else {
            domain - from * size
        },
    decreases to - from,
{
    assert(0 <= from * size <= to * size) by (nonlinear_arith)
        requires
            0 <= from <= to,
            0 < size,
    ;
    if from < to {
        assert((to - 1) * size == to * size - size && (to - 2) * size <= (to - 1) * size)
            by (nonlinear_arith)
            requires
                0 < size,
        ;
        assert(0 <= (to - 1) * size) by (nonlinear_arith)
            requires
                0 < to,
                0 < size,
        ;
        lemma_hashed_among(chunks, size, domain, from, to - 1);
        assert(hash::digest_at(chunks, to - 1) == hash::digest_at(chunks, to - 1));
    }
}

proof fn lemma_skipped_chunks_do_not_count(m: VerifyModel, first: int, at: int)
    requires
        first <= at,
    ensures
        ({
            let (chunks, size) = (m.hasher.chunks, m.hasher.chunk_size);
            let to = next_hashed(chunks, m.grid(), at);
            &&& at <= to
            &&& at <= m.grid() ==> to <= m.grid()
            &&& hashed_among(chunks, first, to) == hashed_among(chunks, first, at)
            &&& hashed_bytes(chunks, size, m.domain, first, to) == hashed_bytes(
                chunks,
                size,
                m.domain,
                first,
                at,
            )
        }),
    decreases m.grid() - at,
{
    if at < m.grid() && !hashed(m.hasher.chunks, at) {
        lemma_skipped_chunks_do_not_count(m, first, at + 1);
    }
}

proof fn lemma_resume_counts(m: VerifyModel, first: int, signals: Signals)
    requires
        0 <= first,
        m.domain > 0,
        m.domain <= u64::MAX,
        m.hasher.chunk_size > 0,
        m.index <= m.grid(),
        counts(m, first),
    ensures
        counts(m.resume(signals), first),
{
    let to = next_hashed(m.hasher.chunks, m.grid(), m.index);
    lemma_skipped_chunks_do_not_count(m, first, m.index);
    hash::lemma_chunks_ended_grow(m.hasher.chunk_size, m.domain, m.domain, m.domain);
    if m.index > first {
        hash::lemma_ceil_div(m.domain, m.hasher.chunk_size, m.index - 1);
    }
    lemma_hashed_among(m.hasher.chunks, m.hasher.chunk_size, m.domain, first, m.index);
}

proof fn lemma_checked_counts(
    m: VerifyModel,
    first: int,
    matches: bool,
    length: int,
    signals: Signals,
)
    requires
        0 <= first,
        m.domain > 0,
        m.domain <= u64::MAX,
        m.hasher.chunk_size > 0,
        m.index < m.grid(),
        hashed(m.hasher.chunks, m.index),
        length == m.chunk_length(m.index),
        counts(m, first),
    ensures
        counts(m.checked(matches, length, signals), first),
{
    let size = m.hasher.chunk_size;
    let next = VerifyModel {
        mismatches: if matches {
            m.mismatches
        } else {
            m.mismatches.push(m.chunk_start(m.index) as u64)
        },
        chunks_checked: copier::counted(m.chunks_checked, 1),
        bytes_verified: copier::counted(m.bytes_verified, length),
        index: m.index + 1,
        ..m
    };
    assert((m.index + 1) * size == m.index * size + size) by (nonlinear_arith);
    hash::lemma_ceil_div(m.domain, size, m.index);
    hash::lemma_chunks_ended_grow(size, m.domain, m.domain, m.domain);
    lemma_hashed_among(m.hasher.chunks, size, m.domain, first, m.index + 1);
    assert(counts(next, first));
    lemma_resume_counts(next, first, signals);
}

proof fn lemma_step_counts(m: VerifyModel, first: int, reply: ReadReplyModel, signals: Signals)
    requires
        m.wf(),
        m.expects(reply),
        0 <= first,
        m.domain > 0,
        counts(m, first),
    ensures
        counts(m.next(reply, signals), first),
{
    match reply {
        ReadReplyModel::Data(data) => {
            let range = m.range->0;
            let used = range.used(m.transfer, data);
            let read = range.with(used);
            let next = VerifyModel {
                processed: copier::counted(m.processed, used.len() as int),
                range: None,
                ..m
            };
            let matches = hash::blake3_hex(read.bytes) == hash::digest_at(
                m.hasher.chunks,
                m.index,
            );
            lemma_checked_counts(next, first, matches, range.length, signals);
            lemma_checked_counts(next, first, false, range.length, signals);
        },
        _ => {
            lemma_resume_counts(m, first, signals);
        },
    }
}

proof fn lemma_run_counts(run: VerifyRun, target: Seq<u8>, i: int)
    requires
        run.is_run(target),
        run.machine[0].domain > 0,
        run.machine[0].chunks_checked == 0,
        run.machine[0].chunks_unhashed == 0,
        run.machine[0].bytes_verified == 0,
        0 <= i < run.machine.len(),
    ensures
        counts(run.machine[i], run.machine[0].index),
        run.machine[i].domain == run.machine[0].domain,
        run.machine[i].hasher == run.machine[0].hasher,
    decreases i,
{
    assert(run.machine[0].wf());
    if i > 0 {
        lemma_run_counts(run, target, i - 1);
        assert(run.machine[i - 1].wf());
        assert(run.step_ok(target, i - 1, run.replies[i - 1]));
        lemma_step_counts(
            run.machine[i - 1],
            run.machine[0].index,
            run.replies[i - 1],
            run.signals[i - 1],
        );
    }
}

/// What a pass over a known domain reports to have checked is what it has gone through, in
/// any of its states: of the chunks from its first one up to the one it is at, those
/// with a digest are checked, with all their bytes, and the others are not.
pub proof fn law_pass_counts_what_it_checked(run: VerifyRun, target: Seq<u8>, i: int)
    requires
        run.is_run(target),
        run.machine[0].domain > 0,
        run.machine[0].chunks_checked == 0,
        run.machine[0].chunks_unhashed == 0,
        run.machine[0].bytes_verified == 0,
        0 <= i < run.machine.len(),
    ensures
        ({
            let (m, chunks) = (run.machine[i], run.machine[0].hasher.chunks);
            let first = run.machine[0].index;
            &&& m.chunks_checked == hashed_among(chunks, first, m.index)
            &&& m.chunks_checked + m.chunks_unhashed == m.index - first
            &&& m.bytes_verified == hashed_bytes(
                chunks,
                m.hasher.chunk_size,
                m.domain,
                first,
                m.index,
            )
        }),
{
    lemma_run_counts(run, target, i);
}

/// A fresh pass over a domain with a whole manifest checks all of it: every chunk, every
/// byte.
pub proof fn law_whole_manifest_is_checked_whole(run: VerifyRun, target: Seq<u8>)
    requires
        run.is_run(target),
        run.machine[0].domain > 0,
        run.machine[0].index == 0,
        run.machine[0].chunks_checked == 0,
        run.machine[0].chunks_unhashed == 0,
        run.machine[0].bytes_verified == 0,
        forall|i: int|
            0 <= i && i * run.machine[0].hasher.chunk_size < run.machine[0].domain ==> (
            #[trigger] hash::digest_at(run.machine[0].hasher.chunks, i)).len() > 0,
        run.machine.last().at == VerifyAt::Finishing,
    ensures
        ({
            let (m, size) = (run.machine.last(), run.machine[0].hasher.chunk_size);
            let domain = run.machine[0].domain;
            &&& m.bytes_verified == domain
            &&& m.chunks_unhashed == 0
            &&& (m.chunks_checked - 1) * size < domain <= m.chunks_checked * size
        }),
{
    let last = run.machine.len() - 1;
    lemma_run_counts(run, target, last);
    let m = run.machine[last];
    assert(m.wf());
    let (size, domain, grid) = (m.hasher.chunk_size, m.domain, m.grid());
    hash::lemma_ceil_div(domain, size, grid - 1);
    hash::lemma_ceil_div(domain, size, grid);
    assert forall|i: int| 0 <= i < grid implies (#[trigger] hash::digest_at(
        m.hasher.chunks,
        i,
    )).len() > 0 by {
        hash::lemma_ceil_div(domain, size, i);
    }
    lemma_hashed_among(m.hasher.chunks, size, domain, 0, grid);
}

// ---------------------------------------------------------------------------
// How a pass ends.

/// Only a signal interrupts a pass, and only between chunks: a chunk that has been begun is
/// checked, and no other is begun. An interrupted pass has chunks left; one that has none
/// is finished.
#[verifier::rlimit(40)]
pub proof fn law_signals_stop_a_pass(m: VerifyModel, reply: ReadReplyModel, signals: Signals)
    requires
        m.wf(),
        m.expects(reply),
    ensures
        ({
            let next = m.next(reply, signals);
            &&& signals.interrupted && next.at == VerifyAt::Reading ==> m.at == VerifyAt::Reading
                && next.index == m.index
            &&& !signals.interrupted && m.at != VerifyAt::Pausing ==> next.at != VerifyAt::Pausing
                && next.at != VerifyAt::Stopped(Outcome::Interrupted)
            &&& m.at == VerifyAt::Pausing && reply is Done ==> next.at == VerifyAt::Stopped(
                Outcome::Interrupted,
            )
            &&& next.at == VerifyAt::Stopped(Outcome::Interrupted) ==> m.at == VerifyAt::Pausing
            &&& next.at == VerifyAt::Pausing ==> next.index < next.grid()
            &&& next.at == VerifyAt::Finishing ==> next.index == next.grid()
            &&& next.at == VerifyAt::Stopped(Outcome::Finished) <==> m.at == VerifyAt::Finishing
                && reply is Done
            &&& next.at == VerifyAt::Stopped(Outcome::Failed) <==> reply is Failed
        }),
{
    lemma_next_hashed_is_ahead(m.hasher.chunks, m.grid(), m.index);
    lemma_next_hashed_is_ahead(m.hasher.chunks, m.grid(), m.index + 1);
}

proof fn lemma_next_hashed_is_ahead(chunks: Seq<Seq<char>>, grid: int, from: int)
    ensures
        next_hashed(chunks, grid, from) >= from,
        from <= grid ==> next_hashed(chunks, grid, from) <= grid,
    decreases grid - from,
{
    if from < grid && !hashed(chunks, from) {
        lemma_next_hashed_is_ahead(chunks, grid, from + 1);
    }
}

/// A checkpoint is saved when it is due: between chunks, with the chunks checked so far.
pub proof fn law_pass_checkpoint_is_saved_when_due(
    m: VerifyModel,
    reply: ReadReplyModel,
    signals: Signals,
)
    requires
        m.wf(),
        m.expects(reply),
        signals.flush_due,
    ensures
        ({
            let next = m.next(reply, signals);
            next.index != m.index && m.at == VerifyAt::Reading ==> next.action()
                == ReadAction::Save && next.section(m.started).cursor == Some((m.index + 1) as u64)
        }),
{
}

/// What a pass leaves in the state file: a finished one its time, its list, and whether that
/// is empty; its list is what a refresh repairs. One that is not finished leaves the chunk
/// to go on with, and nothing to repair yet. Neither forgets when it began.
pub proof fn law_what_a_pass_leaves(m: VerifyModel, now: Timestamp)
    requires
        m.wf(),
        m.grid() <= u64::MAX,
    ensures
        ({
            let left = m.section(now);
            &&& left.mismatches == m.mismatches
            &&& left.started == m.started
            &&& m.at == VerifyAt::Finishing ==> {
                &&& left.cursor is None
                &&& left.finished == Some(now)
                &&& left.ok == Some(true) <==> m.mismatches.len() == 0
                &&& left.ok is Some
                &&& state::repairs(Some(left)) == m.mismatches
            }
            &&& m.at != VerifyAt::Finishing ==> {
                &&& left.cursor matches Some(cursor) && cursor == m.index
                &&& left.finished == m.finished
                &&& left.ok == m.ok
                &&& state::repairs(Some(left)).len() == 0
            }
        }),
{
}

/// A pass after a finished one starts afresh: at the first chunk, with nothing listed, as of
/// its own time.
pub proof fn law_finished_pass_is_not_resumed(
    m: VerifyModel,
    prior: VerifyView,
    later: Timestamp,
)
    requires
        prior.cursor is None,
    ensures
        ({
            let next = VerifyModel::start(m.seek, m.domain, m.transfer, m.hasher, Some(prior), later);
            let fresh = VerifyModel::start(m.seek, m.domain, m.transfer, m.hasher, None, later);
            &&& next == fresh
            &&& next.index == 0
            &&& next.mismatches.len() == 0
            &&& next.started == later
            &&& next.finished is None
            &&& next.ok is None
            &&& next.action() == ReadAction::Begin
        }),
{
}

/// Counts what is left of a pass: whether it is to be stopped, the chunks ahead, whether a
/// chunk is to be begun, and the bytes of it.
pub open spec fn rest_of(m: VerifyModel) -> (int, int, int, int) {
    (
        match m.at {
            VerifyAt::Stopped(outcome) => 0,
            VerifyAt::Pausing => 1,
            VerifyAt::Finishing => 1,
            _ => 2,
        },
        if m.index < m.grid() {
            m.grid() - m.index
        } else {
            0
        },
        if m.at == VerifyAt::Reading {
            0
        } else {
            1
        },
        match m.range {
            Some(range) => if range.bytes.len() < range.length {
                range.length - range.bytes.len()
            } else {
                0
            },
            None => 0,
        },
    )
}

/// Every pass ends: each answer leaves less of it.
#[verifier::rlimit(40)]
pub proof fn law_every_pass_ends(m: VerifyModel, reply: ReadReplyModel, signals: Signals)
    requires
        m.wf(),
        m.expects(reply),
    ensures
        decreases_to!(rest_of(m).0, rest_of(m).1, rest_of(m).2, rest_of(m).3 =>
            rest_of(m.next(reply, signals)).0, rest_of(m.next(reply, signals)).1,
            rest_of(m.next(reply, signals)).2, rest_of(m.next(reply, signals)).3),
{
    lemma_next_hashed_is_ahead(m.hasher.chunks, m.grid(), m.index);
    lemma_next_hashed_is_ahead(m.hasher.chunks, m.grid(), m.index + 1);
}

/// What a pass says it will read is what it has checked at its end: over a known domain, the
/// bytes ahead of a chunk are those of the chunks with a digest from there on.
pub proof fn law_bytes_ahead(m: VerifyModel, from: int)
    requires
        m.wf(),
        m.domain > 0,
        0 <= from <= m.grid(),
    ensures
        m.ahead(from) == hashed_bytes(
            m.hasher.chunks,
            m.hasher.chunk_size,
            m.domain,
            from,
            m.grid(),
        ),
{
    lemma_ahead(m, from);
    lemma_hashed_bytes_bounded(m, from);
}

proof fn lemma_hashed_bytes_from(m: VerifyModel, from: int, to: int)
    requires
        from < to,
    ensures
        hashed_bytes(m.hasher.chunks, m.hasher.chunk_size, m.domain, from, to) == hashed_bytes(
            m.hasher.chunks,
            m.hasher.chunk_size,
            m.domain,
            from + 1,
            to,
        ) + hashed_bytes(m.hasher.chunks, m.hasher.chunk_size, m.domain, from, from + 1),
    decreases to - from,
{
    if from + 1 < to {
        lemma_hashed_bytes_from(m, from, to - 1);
    }
}

/// The chunks from `from` on have no more bytes than the domain has there.
proof fn lemma_hashed_bytes_bounded(m: VerifyModel, from: int)
    requires
        m.wf(),
        m.domain > 0,
        0 <= from <= m.grid(),
    ensures
        0 <= hashed_bytes(m.hasher.chunks, m.hasher.chunk_size, m.domain, from, m.grid())
            <= u64::MAX,
        from < m.grid() ==> hashed_bytes(
            m.hasher.chunks,
            m.hasher.chunk_size,
            m.domain,
            from,
            m.grid(),
        ) <= m.domain - from * m.hasher.chunk_size,
    decreases m.grid() - from,
{
    let size = m.hasher.chunk_size;
    if from < m.grid() {
        lemma_hashed_bytes_bounded(m, from + 1);
        lemma_hashed_bytes_from(m, from, m.grid());
        lemma_chunk_fits(m.seek, m.domain, m.hasher, from);
        reveal_with_fuel(hashed_bytes, 2);
        assert((from + 1) * size == from * size + size) by (nonlinear_arith);
        assert(from * size >= 0) by (nonlinear_arith)
            requires
                from >= 0,
                size > 0,
        ;
    }
}

proof fn lemma_ahead(m: VerifyModel, from: int)
    requires
        m.wf(),
        m.domain > 0,
        0 <= from <= m.grid(),
    ensures
        m.ahead(from) == hashed_bytes(
            m.hasher.chunks,
            m.hasher.chunk_size,
            m.domain,
            from,
            m.grid(),
        ),
    decreases m.grid() - from,
{
    let size = m.hasher.chunk_size;
    if from < m.grid() {
        lemma_ahead(m, from + 1);
        lemma_hashed_bytes_from(m, from, m.grid());
        lemma_hashed_bytes_bounded(m, from);
        lemma_hashed_bytes_bounded(m, from + 1);
        lemma_chunk_fits(m.seek, m.domain, m.hasher, from);
        reveal_with_fuel(hashed_bytes, 2);
        assert((from + 1) * size == from * size + size) by (nonlinear_arith);
    }
}

/// The bytes read of the chunk being checked.
pub open spec fn part_read(m: VerifyModel) -> int {
    match m.range {
        Some(range) => range.bytes.len() as int,
        None => 0,
    }
}

/// A pass that finds nothing wrong has verified exactly the bytes it has read, of a source
/// of unknown size too, whose last chunk may be shorter than the others.
#[verifier::rlimit(40)]
pub proof fn law_clean_pass_verifies_what_it_reads(
    m: VerifyModel,
    reply: ReadReplyModel,
    signals: Signals,
)
    requires
        m.wf(),
        m.expects(reply),
        !(reply is Failed),
        m.processed + m.transfer <= u64::MAX,
        m.bytes_verified + part_read(m) == m.processed,
        m.next(reply, signals).mismatches == m.mismatches,
    ensures
        ({
            let next = m.next(reply, signals);
            next.bytes_verified + part_read(next) == next.processed
        }),
{
    if let (ReadReplyModel::Data(data), Some(range)) = (reply, m.range) {
        let used = range.used(m.transfer, data);
        let read = range.with(used);
        assert(read.bytes.len() == range.bytes.len() + used.len());
        assert(m.mismatches.push(m.chunk_start(m.index) as u64).len() != m.mismatches.len());
    }
}

} // verus!
