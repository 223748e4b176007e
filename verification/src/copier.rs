//! The block-wise copy as a state machine.
//!
//! A [`Copier`] decides; its driver performs. Whatever has to touch a device or
//! a file is an [`Action`]: the driver carries it out and hands back what
//! happened as a [`Reply`], and [`Copier::step`] moves on. Everything the copy
//! decides is in the machine: which bytes to read next and how many, when a
//! block needs writing, how a read error is narrowed down to sectors, which
//! chunks a refresh may skip, what the map and the manifest record, when to
//! checkpoint and when to stop.
//!
//! The machine is specified as a transition function on [`CopyModel`]; what a
//! whole run guarantees of the target is in [`crate::world`].

use crate::hash;
use crate::hash::{ChunkHasher, HasherModel};
use crate::region;
use crate::region::{RegionMap, RegionStatus, Statuses};
use vstd::prelude::*;

verus! {

/// What a copy is told to do: the extents, the grid, and the modes.
#[derive(Debug, Clone, Copy, PartialEq, Eq, Structural)]
pub struct CopyOptions {
    /// Bytes skipped at the start of the source.
    pub skip: u64,
    /// Bytes skipped at the start of the target.
    pub seek: u64,
    /// Length of the copy domain, `0` when the source has no known size.
    pub domain: u64,
    /// Upper bound on the bytes of a source of unknown size, `0` = none.
    pub length: u64,
    /// The sector size: the granularity of error isolation.
    pub sector: u64,
    /// Effective transfer size (sector-aligned).
    pub transfer: u64,
    /// Source reads bypass the page cache and must span whole sectors.
    pub direct: bool,
    /// Re-scan the domain against the manifest.
    pub refresh: bool,
    /// Don't write blocks the target already holds. In a refresh: compare with
    /// the target in place of the manifest.
    pub skip_unchanged: bool,
    /// Don't write all-zero blocks (first imaging onto a fresh target).
    pub skip_zeros: bool,
    /// After the first pass, re-read the bad regions.
    pub retry: bool,
}

impl CopyOptions {
    /// One past the last position a source of unknown size is read to.
    pub open spec fn limit(self) -> int {
        let most = u64::MAX - 1 - if self.skip < self.seek {
            self.seek
        } else {
            self.skip
        };
        if 0 < self.length && self.length < most {
            self.length as int
        } else if most < 0 {
            0
        } else {
            most
        }
    }

    /// Whether blocks are compared with the target before they are written.
    pub open spec fn compares(self) -> bool {
        self.refresh || self.skip_unchanged
    }

    /// The options describe a copy this machine can run: a sector grid, a
    /// transfer of whole sectors, and extents within `u64`. A refresh must
    /// overwrite stale data with zeros, so it cannot also leave zeros out.
    pub open spec fn valid(self) -> bool {
        &&& !(self.refresh && self.skip_zeros)
        &&& 0 < self.sector <= self.transfer
        &&& self.transfer % self.sector == 0
        &&& self.skip + self.domain <= u64::MAX
        &&& self.seek + self.domain <= u64::MAX
        &&& self.skip < u64::MAX
        &&& self.seek < u64::MAX
    }
}

/// The passes of a copy.
#[derive(Debug, Clone, Copy, PartialEq, Eq, Structural)]
pub enum Pass {
    /// Copy the untried regions.
    Copy,
    /// Re-scan the untried regions in manifest-chunk strides.
    Refresh,
    /// Re-read the bad regions.
    Retry,
    /// Copy a source of unknown size from the current frontier to end-of-input.
    Sequential,
}

/// How a copy ended.
#[derive(Debug, Clone, Copy, PartialEq, Eq, Structural)]
pub enum Outcome {
    /// All passes are through.
    Finished,
    /// Stopped by a signal, with the state flushed.
    Interrupted,
    /// An action failed for good.
    Failed,
}

/// What the machine waits for.
#[derive(Debug, Clone, Copy, PartialEq, Eq, Structural)]
pub enum At {
    /// Not started.
    Start,
    /// Source bytes at the current position.
    Reading,
    /// The target's bytes where the current block goes.
    Comparing,
    /// The current block to be written.
    Writing,
    /// Read-ahead on the source to be switched off.
    Readahead,
    /// The state to be flushed, after which the copy goes on or stops.
    Flushing { stop: bool },
    /// Nothing more.
    Stopped(Outcome),
}

/// What the driver is to do next.
#[derive(Debug, Clone, Copy, PartialEq, Eq, Structural)]
pub enum Action {
    /// Nothing but to start the machine.
    Begin,
    /// Read `request` bytes of the source at `offset`; `want` of them are used.
    ReadSource { offset: u64, want: u64, request: u64 },
    /// Read `length` bytes of the target at `offset`.
    ReadTarget { offset: u64, length: u64 },
    /// Write [`Copier::payload`], `length` bytes, to the target at `offset`.
    Write { offset: u64, length: u64 },
    /// Switch off read-ahead on the source.
    DisableReadahead,
    /// Save the state file.
    Flush,
    /// The copy is over.
    Stop(Outcome),
}

/// What came of an action.
pub enum Reply {
    /// The action was carried out.
    Done,
    /// The source gave these bytes; none at all is end-of-input.
    Source(Vec<u8>),
    /// The source could not be read there: a media error.
    MediaError,
    /// The target gave these bytes; `None` where it could not be read.
    Target(Option<Vec<u8>>),
    /// The action failed and the copy cannot go on.
    Failed,
}

/// A [`Reply`] as a value of the model.
pub enum ReplyModel {
    Done,
    Source(Seq<u8>),
    MediaError,
    Target(Option<Seq<u8>>),
    Failed,
}

impl View for Reply {
    type V = ReplyModel;

    open spec fn view(&self) -> ReplyModel {
        match self {
            Reply::Done => ReplyModel::Done,
            Reply::Source(data) => ReplyModel::Source(data@),
            Reply::MediaError => ReplyModel::MediaError,
            Reply::Target(Some(data)) => ReplyModel::Target(Some(data@)),
            Reply::Target(None) => ReplyModel::Target(None),
            Reply::Failed => ReplyModel::Failed,
        }
    }
}

/// What the driver noticed since the last step.
#[derive(Debug, Clone, Copy, PartialEq, Eq, Structural)]
pub struct Signals {
    /// The run was asked to stop.
    pub interrupted: bool,
    /// The flush interval has passed.
    pub flush_due: bool,
}

/// A manifest chunk being refreshed.
#[derive(Debug, Clone, Copy, PartialEq, Eq, Structural)]
pub struct Job {
    pub index: u64,
    pub start: u64,
    pub length: u64,
    /// Bytes read so far, then bytes compared and written so far.
    pub offset: u64,
    pub writing: bool,
}

/// A [`Job`] as a value of the model.
pub struct JobModel {
    pub index: int,
    pub start: int,
    pub length: int,
    pub offset: int,
    pub writing: bool,
}

impl Job {
    pub open spec fn model(self) -> JobModel {
        JobModel {
            index: self.index as int,
            start: self.start as int,
            length: self.length as int,
            offset: self.offset as int,
            writing: self.writing,
        }
    }
}

pub open spec fn min(a: int, b: int) -> int {
    if a < b {
        a
    } else {
        b
    }
}

/// The sum of two counters, held at `u64::MAX`.
pub open spec fn counted(a: int, b: int) -> int {
    min(a + b, u64::MAX as int)
}

/// The least multiple of `align` that is not below `value`; `value` itself for
/// `align == 0`.
pub open spec fn aligned_up(value: int, align: int) -> int {
    if align == 0 {
        value
    } else {
        hash::ceil_div(value, align) * align
    }
}

pub open spec fn all_zero(data: Seq<u8>) -> bool {
    forall|i: int| 0 <= i < data.len() ==> data[i] == 0
}

/// The state of a copy.
#[verifier::ext_equal]
pub struct CopyModel {
    pub options: CopyOptions,
    pub map: Statuses,
    pub hasher: HasherModel,
    /// Starts of the chunks a refresh rewrites whatever the manifest says.
    pub repair: Seq<u64>,
    pub bytes_written: int,
    pub bytes_written_this_run: int,
    pub bytes_skipped_by_hash: int,
    /// Bytes the progress display has counted in this run.
    pub processed: int,
    pub wrote_this_run: bool,
    pub readahead_off: bool,
    /// The source ended before the domain did.
    pub short: bool,
    pub pass: Pass,
    /// The position the copy has reached.
    pub pos: int,
    /// The end of the range being copied.
    pub stop: int,
    /// The end of the region a refresh is walking.
    pub region_end: int,
    /// The end of the block being isolated sector by sector.
    pub isolating: Option<int>,
    pub job: Option<JobModel>,
    pub at: At,
    /// The source bytes at the current position.
    pub block: Seq<u8>,
    /// The source bytes of the chunk being refreshed.
    pub chunk: Seq<u8>,
    /// The digest of `chunk`.
    pub digest: Seq<char>,
}

impl CopyModel {
    /// The status of the regions the pass goes through.
    pub open spec fn pass_status(self) -> RegionStatus {
        if self.pass == Pass::Retry {
            RegionStatus::Bad
        } else {
            RegionStatus::Untried
        }
    }

    /// Where the next source bytes are read, in domain coordinates.
    pub open spec fn read_pos(self) -> int {
        match self.job {
            Some(job) => job.start + job.offset,
            None => self.pos,
        }
    }

    /// How many source bytes are wanted there.
    pub open spec fn want(self) -> int {
        match (self.job, self.isolating) {
            (Some(job), _) => min(self.options.transfer as int, job.length - job.offset),
            (None, Some(end)) => min(self.options.sector as int, end - self.pos),
            (None, None) => min(self.options.transfer as int, self.stop - self.pos),
        }
    }

    /// How many bytes of room the read has.
    pub open spec fn room(self) -> int {
        match self.job {
            Some(job) => self.hasher.chunk_size - job.offset,
            None => self.options.transfer as int,
        }
    }

    /// How many bytes are asked for: direct reads span whole sectors.
    pub open spec fn request(self) -> int {
        if self.options.direct {
            min(aligned_up(self.want(), self.options.sector as int), self.room())
        } else {
            self.want()
        }
    }

    /// The block to be compared and written, and where it belongs.
    pub open spec fn payload(self) -> Seq<u8> {
        match self.job {
            Some(job) => self.chunk.subrange(
                job.offset,
                job.offset + min(self.options.transfer as int, job.length - job.offset),
            ),
            None => self.block,
        }
    }

    pub open spec fn action(self) -> Action {
        match self.at {
            At::Start => Action::Begin,
            At::Reading => Action::ReadSource {
                offset: (self.options.skip + self.read_pos()) as u64,
                want: self.want() as u64,
                request: self.request() as u64,
            },
            At::Comparing => Action::ReadTarget {
                offset: (self.options.seek + self.read_pos()) as u64,
                length: self.payload().len() as u64,
            },
            At::Writing => Action::Write {
                offset: (self.options.seek + self.read_pos()) as u64,
                length: self.payload().len() as u64,
            },
            At::Readahead => Action::DisableReadahead,
            At::Flushing { stop } => Action::Flush,
            At::Stopped(outcome) => Action::Stop(outcome),
        }
    }

    /// Which replies answer the pending action.
    pub open spec fn expects(self, reply: ReplyModel) -> bool {
        match reply {
            ReplyModel::Done => self.at matches At::Start || self.at matches At::Writing
                || self.at matches At::Readahead || self.at matches At::Flushing { stop },
            ReplyModel::Source(data) => self.at matches At::Reading,
            ReplyModel::MediaError => self.at matches At::Reading,
            ReplyModel::Target(data) => self.at matches At::Comparing,
            ReplyModel::Failed => !(self.at matches At::Stopped(outcome)),
        }
    }

    /// A copy that has not started.
    pub open spec fn start(
        options: CopyOptions,
        map: Statuses,
        frontier: int,
        hasher: HasherModel,
        repair: Seq<u64>,
        bytes_written: int,
    ) -> CopyModel {
        CopyModel {
            options,
            map,
            hasher,
            repair,
            bytes_written,
            bytes_written_this_run: 0,
            bytes_skipped_by_hash: 0,
            processed: 0,
            wrote_this_run: false,
            readahead_off: false,
            short: false,
            pass: if options.domain == 0 {
                Pass::Sequential
            } else if options.refresh {
                Pass::Refresh
            } else {
                Pass::Copy
            },
            pos: if options.domain == 0 {
                frontier
            } else {
                0
            },
            stop: if options.domain == 0 {
                options.limit()
            } else {
                0
            },
            region_end: 0,
            isolating: None,
            job: None,
            at: At::Start,
            block: Seq::empty(),
            chunk: Seq::empty(),
            digest: Seq::empty(),
        }
    }

    // -----------------------------------------------------------------------
    // Where to go next.

    /// Start on the span at `p` of the region being refreshed: a whole chunk
    /// with a digest goes by the manifest, anything else is copied.
    #[verifier::opaque]
    pub open spec fn open_stride(self, p: int) -> CopyModel {
        let size = self.hasher.chunk_size;
        let index = p / size;
        let end = hash::chunk_end(size, self.options.domain as int, index);
        let stop = min(end, self.region_end);
        CopyModel {
            pos: p,
            stop,
            job: if p == index * size && stop == end && hash::digest_at(self.hasher.chunks, index).len()
                > 0 {
                Some(
                    JobModel { index, start: p, length: stop - p, offset: 0, writing: false },
                )
            } else {
                None
            },
            chunk: Seq::empty(),
            at: At::Reading,
            ..self
        }
    }

    /// Start on the region `[start, end)` of the pass.
    #[verifier::opaque]
    pub open spec fn open_region(self, start: int, end: int) -> CopyModel {
        if self.pass == Pass::Refresh {
            CopyModel { region_end: end, ..self }.open_stride(start)
        } else {
            CopyModel { pos: start, stop: end, at: At::Reading, ..self }
        }
    }

    /// The pass has no more regions: retry the bad ones if asked to, once.
    #[verifier::opaque]
    pub open spec fn end_pass(self) -> CopyModel {
        if self.pass != Pass::Retry && self.options.retry {
            let next = CopyModel { pass: Pass::Retry, ..self };
            match region::next_span(self.map, RegionStatus::Bad, 0) {
                Some((start, end)) => next.open_region(start, end),
                None => CopyModel { at: At::Stopped(Outcome::Finished), ..next },
            }
        } else {
            CopyModel { at: At::Stopped(Outcome::Finished), ..self }
        }
    }

    /// Go on to the next region of the pass at or after `from`.
    #[verifier::opaque]
    pub open spec fn next_region(self, from: int) -> CopyModel {
        match region::next_span(self.map, self.pass_status(), from) {
            Some((start, end)) => self.open_region(start, end),
            None => self.end_pass(),
        }
    }

    /// End of input of a source of unknown size: the trailing partial chunk is
    /// complete now.
    #[verifier::opaque]
    pub open spec fn end_input(self) -> CopyModel {
        CopyModel {
            hasher: self.hasher.finish(),
            at: At::Stopped(Outcome::Finished),
            ..self
        }
    }

    /// Find the next bytes to read, or the end.
    #[verifier::opaque]
    pub open spec fn settle(self) -> CopyModel {
        if self.pos < self.stop {
            CopyModel { at: At::Reading, ..self }
        } else {
            match self.pass {
                Pass::Sequential => self.end_input(),
                Pass::Refresh => if self.stop < self.region_end {
                    self.open_stride(self.stop)
                } else {
                    self.next_region(self.stop)
                },
                _ => self.next_region(self.stop),
            }
        }
    }

    /// Go on, unless the run was interrupted: then flush and stop.
    #[verifier::opaque]
    pub open spec fn resume(self, signals: Signals) -> CopyModel {
        if self.pass == Pass::Sequential && signals.interrupted {
            CopyModel { at: At::Flushing { stop: true }, ..self }
        } else {
            let next = self.settle();
            if next.at == At::Reading && signals.interrupted {
                CopyModel { at: At::Flushing { stop: true }, ..next }
            } else {
                next
            }
        }
    }

    /// A block is through: checkpoint if it is time, then go on.
    #[verifier::opaque]
    pub open spec fn advance(self, signals: Signals) -> CopyModel {
        if signals.flush_due {
            CopyModel { at: At::Flushing { stop: false }, ..self }
        } else {
            self.resume(signals)
        }
    }

    /// Move `n` bytes on; a block that has been isolated to its end is through.
    #[verifier::opaque]
    pub open spec fn moved(self, n: int) -> CopyModel {
        CopyModel {
            pos: self.pos + n,
            processed: if self.pass == Pass::Retry {
                self.processed
            } else {
                counted(self.processed, n)
            },
            isolating: if self.isolating matches Some(end) && self.pos + n < end {
                self.isolating
            } else {
                None
            },
            ..self
        }
    }

    /// The block is where it belongs: hash it, mark it done, move on.
    #[verifier::opaque]
    pub open spec fn commit(self, signals: Signals) -> CopyModel {
        match self.job {
            Some(job) => self.commit_chunk_block(job, signals),
            None => CopyModel {
                hasher: self.hasher.feed(self.pos, self.block),
                map: region::marked(self.map, self.pos, self.block.len() as int, RegionStatus::Done),
                ..self
            }.moved(self.block.len() as int).advance(signals),
        }
    }

    /// A block of the chunk being refreshed is where it belongs. After the last
    /// one the new digest is recorded.
    #[verifier::opaque]
    pub open spec fn commit_chunk_block(self, job: JobModel, signals: Signals) -> CopyModel {
        let n = self.payload().len() as int;
        let next = CopyModel {
            map: region::marked(self.map, job.start + job.offset, n, RegionStatus::Done),
            processed: counted(self.processed, n),
            ..self
        };
        if job.offset + n < job.length {
            CopyModel {
                job: Some(JobModel { offset: job.offset + n, ..job }),
                at: At::Comparing,
                ..next
            }
        } else {
            CopyModel {
                hasher: HasherModel {
                    chunks: hash::with_digest(self.hasher.chunks, job.index, self.digest),
                    ..self.hasher
                },
                job: None,
                pos: job.start + job.length,
                ..next
            }.advance(signals)
        }
    }

    /// The whole chunk has been read: if its digest is the one in the manifest
    /// and it needs no repair, it is done without touching the target. Where the
    /// target itself is to be compared, the manifest does not speak for it.
    #[verifier::opaque]
    pub open spec fn chunk_read(self, job: JobModel, signals: Signals) -> CopyModel {
        let digest = hash::blake3_hex(self.chunk);
        if digest == hash::digest_at(self.hasher.chunks, job.index) && !self.repair.contains(
            job.start as u64,
        ) && !self.options.skip_unchanged {
            CopyModel {
                map: region::marked(self.map, job.start, job.length, RegionStatus::Done),
                processed: counted(self.processed, job.length),
                bytes_skipped_by_hash: counted(self.bytes_skipped_by_hash, job.length),
                job: None,
                pos: job.start + job.length,
                ..self
            }.advance(signals)
        } else {
            CopyModel {
                job: Some(JobModel { offset: 0, writing: true, ..job }),
                digest,
                at: At::Comparing,
                ..self
            }
        }
    }

    /// A chunk that cannot be read in one go is copied like any other range.
    #[verifier::opaque]
    pub open spec fn fall_back(self, signals: Signals) -> CopyModel {
        CopyModel { job: None, ..self }.resume(signals)
    }

    // -----------------------------------------------------------------------
    // What each reply does.

    /// The source gave `data`, of which at most [`Self::want`] bytes count.
    #[verifier::opaque]
    pub open spec fn on_source(self, data: Seq<u8>, signals: Signals) -> CopyModel {
        let used = data.take(min(data.len() as int, self.want()));
        if used.len() == 0 {
            self.on_end_of_source(signals)
        } else {
            match self.job {
                Some(job) => {
                    let next = CopyModel {
                        chunk: self.chunk + used,
                        job: Some(JobModel { offset: job.offset + used.len(), ..job }),
                        ..self
                    };
                    if job.offset + used.len() < job.length {
                        next.resume(signals)
                    } else {
                        next.chunk_read(JobModel { offset: job.length, ..job }, signals)
                    }
                },
                None => {
                    let next = CopyModel { block: used, ..self };
                    if self.options.skip_zeros && all_zero(used) {
                        next.commit(signals)
                    } else if self.options.compares() {
                        CopyModel { at: At::Comparing, ..next }
                    } else {
                        CopyModel { at: At::Writing, ..next }
                    }
                },
            }
        }
    }

    /// The source ended early. The rest of the range (or of the block being
    /// isolated) keeps its status, so the run reports as incomplete.
    #[verifier::opaque]
    pub open spec fn on_end_of_source(self, signals: Signals) -> CopyModel {
        if self.job is Some {
            self.fall_back(signals)
        } else if self.pass == Pass::Sequential {
            self.end_input()
        } else {
            match self.isolating {
                Some(end) => CopyModel { pos: end, isolating: None, short: true, ..self }.advance(
                    signals,
                ),
                None => CopyModel { pos: self.stop, short: true, ..self }.resume(signals),
            }
        }
    }

    /// The source could not be read: isolate the block sector by sector, and
    /// mark what cannot be read on its own as bad.
    #[verifier::opaque]
    pub open spec fn on_media_error(self, signals: Signals) -> CopyModel {
        if self.job is Some {
            self.fall_back(signals)
        } else if self.pass == Pass::Sequential {
            CopyModel { at: At::Stopped(Outcome::Failed), ..self }
        } else if self.isolating is Some {
            let want = self.want();
            CopyModel {
                hasher: self.hasher.broken(self.pos + want),
                map: region::marked(self.map, self.pos, want, RegionStatus::Bad),
                ..self
            }.moved(want).advance(signals)
        } else {
            let next = CopyModel { isolating: Some(self.pos + self.want()), ..self };
            if !self.options.direct && !self.readahead_off {
                CopyModel { at: At::Readahead, ..next }
            } else {
                next.resume(signals)
            }
        }
    }

    /// The target holds `data`: a block that is already there need not be
    /// written. A mismatch, a short read and a failed read all mean it must.
    #[verifier::opaque]
    pub open spec fn on_target(self, data: Option<Seq<u8>>, signals: Signals) -> CopyModel {
        if data == Some(self.payload()) {
            self.commit(signals)
        } else {
            CopyModel { at: At::Writing, ..self }
        }
    }

    #[verifier::opaque]
    pub open spec fn on_written(self, signals: Signals) -> CopyModel {
        let n = self.payload().len() as int;
        CopyModel {
            bytes_written: counted(self.bytes_written, n),
            bytes_written_this_run: counted(self.bytes_written_this_run, n),
            wrote_this_run: true,
            ..self
        }.commit(signals)
    }

    /// The transition function.
    pub open spec fn next(self, reply: ReplyModel, signals: Signals) -> CopyModel {
        match reply {
            ReplyModel::Source(data) => self.on_source(data, signals),
            ReplyModel::MediaError => self.on_media_error(signals),
            ReplyModel::Target(data) => self.on_target(data, signals),
            ReplyModel::Failed => CopyModel { at: At::Stopped(Outcome::Failed), ..self },
            ReplyModel::Done => match self.at {
                At::Writing => self.on_written(signals),
                At::Readahead => CopyModel { readahead_off: true, ..self }.resume(signals),
                At::Flushing { stop: true } => CopyModel {
                    at: At::Stopped(Outcome::Interrupted),
                    ..self
                },
                _ => self.resume(signals),
            },
        }
    }

    // -----------------------------------------------------------------------
    // The invariant.

    /// The chunk numbers of the run are indices.
    pub open spec fn indexable(self) -> bool {
        if self.options.domain > 0 {
            hash::ceil_div(self.options.domain as int, self.hasher.chunk_size) <= usize::MAX
        } else {
            (u64::MAX - 1) / self.hasher.chunk_size < usize::MAX
        }
    }

    /// Position, range, region and domain are nested in this order.
    pub open spec fn nested(self) -> bool {
        let domain = self.options.domain;
        &&& 0 <= self.pos <= u64::MAX
        &&& 0 <= self.stop
        &&& (self.pass == Pass::Sequential) == (domain == 0)
        &&& if domain == 0 {
            self.stop == self.options.limit()
        } else {
            self.pos <= self.stop <= domain
        }
        &&& self.pass == Pass::Refresh ==> self.options.refresh && self.stop <= self.region_end
            <= domain
        &&& self.isolating matches Some(end) ==> domain > 0 && self.pos < end <= self.stop
    }

    /// The chunk being refreshed is a whole chunk of the grid, and its buffer
    /// holds what has been read of it.
    pub open spec fn job_ok(self) -> bool {
        self.job matches Some(job) ==> {
            &&& self.pass == Pass::Refresh
            &&& self.isolating is None
            &&& self.pos == job.start
            &&& self.stop == job.start + job.length
            &&& 0 <= job.index
            &&& job.start == job.index * self.hasher.chunk_size
            &&& hash::digest_at(self.hasher.chunks, job.index).len() > 0
            &&& self.stop == hash::chunk_end(
                self.hasher.chunk_size,
                self.options.domain as int,
                job.index,
            )
            &&& 0 <= job.offset < job.length <= self.hasher.chunk_size
            &&& self.chunk.len() == if job.writing {
                job.length
            } else {
                job.offset
            }
            &&& job.writing ==> self.digest == hash::blake3_hex(self.chunk)
        }
    }

    /// What holds at each waiting point.
    pub open spec fn at_ok(self) -> bool {
        match self.at {
            At::Start => self.job is None && self.isolating is None,
            At::Reading => self.pos < self.stop && !(self.job matches Some(job) && job.writing),
            At::Comparing => self.options.compares() && self.at_block(),
            At::Writing => self.at_block(),
            At::Readahead => self.pos < self.stop && self.job is None && self.isolating is Some,
            At::Flushing { stop } => !(self.job matches Some(job) && job.writing) && (self.job
                is Some ==> stop),
            At::Stopped(outcome) => true,
        }
    }

    /// A block is at hand: of the chunk being refreshed, or of the range.
    pub open spec fn at_block(self) -> bool {
        match self.job {
            Some(job) => job.writing,
            None => {
                &&& 0 < self.block.len()
                &&& self.pos + self.block.len() <= self.stop
                &&& self.isolating matches Some(end) ==> self.pos + self.block.len() <= end
            },
        }
    }

    /// The state in which the last piece of a chunk has just been read.
    pub open spec fn reading_is_through(self, job: JobModel) -> bool {
        let before = JobModel { offset: 0, ..job };
        &&& job.offset == job.length == self.chunk.len()
        &&& !job.writing
        &&& CopyModel { job: Some(before), chunk: Seq::empty(), ..self }.sound()
        &&& self.options.refresh
    }

    /// The hasher's run lies in the domain, as far as the copy has got.
    pub open spec fn hasher_ok(self) -> bool {
        &&& self.hasher.wf()
        &&& self.hasher.domain == self.options.domain
        &&& self.hasher.domain == 0 && self.hasher.run.len() > 0 ==> self.hasher.expected <= u64::MAX
            - 1
    }

    /// What holds of the state whatever it waits for.
    pub open spec fn sound(self) -> bool {
        &&& self.options.valid()
        &&& self.hasher_ok()
        &&& self.indexable()
        &&& self.options.domain > 0 ==> forall|p: int|
            (#[trigger] (self.map)(p) is Some) <==> 0 <= p < self.options.domain
        &&& 0 <= self.bytes_written <= u64::MAX
        &&& 0 <= self.bytes_written_this_run <= u64::MAX
        &&& 0 <= self.bytes_skipped_by_hash <= u64::MAX
        &&& 0 <= self.processed <= u64::MAX
        &&& self.nested()
        &&& self.job_ok()
    }

    pub open spec fn wf(self) -> bool {
        &&& self.sound()
        &&& self.at_ok()
    }
}

/// The live state of an in-flight copy.
pub struct Copier {
    options: CopyOptions,
    map: RegionMap,
    hasher: ChunkHasher,
    repair: Vec<u64>,
    bytes_written: u64,
    bytes_written_this_run: u64,
    bytes_skipped_by_hash: u64,
    processed: u64,
    wrote_this_run: bool,
    readahead_off: bool,
    short: bool,
    pass: Pass,
    pos: u64,
    stop: u64,
    region_end: u64,
    isolating: Option<u64>,
    job: Option<Job>,
    at: At,
    block: Vec<u8>,
    chunk: Vec<u8>,
    digest: String,
}

impl View for Copier {
    type V = CopyModel;

    closed spec fn view(&self) -> CopyModel {
        CopyModel {
            options: self.options,
            map: self.map.statuses(),
            hasher: self.hasher@,
            repair: self.repair@,
            bytes_written: self.bytes_written as int,
            bytes_written_this_run: self.bytes_written_this_run as int,
            bytes_skipped_by_hash: self.bytes_skipped_by_hash as int,
            processed: self.processed as int,
            wrote_this_run: self.wrote_this_run,
            readahead_off: self.readahead_off,
            short: self.short,
            pass: self.pass,
            pos: self.pos as int,
            stop: self.stop as int,
            region_end: self.region_end as int,
            isolating: match self.isolating {
                Some(end) => Some(end as int),
                None => None,
            },
            job: match self.job {
                Some(job) => Some(job.model()),
                None => None,
            },
            at: self.at,
            block: self.block@,
            chunk: self.chunk@,
            digest: self.digest@,
        }
    }
}

/// The copier's final state.
pub struct CopyParts {
    pub map: RegionMap,
    pub hasher: ChunkHasher,
    pub bytes_written: u64,
    pub bytes_written_this_run: u64,
    pub bytes_skipped_by_hash: u64,
    pub wrote_this_run: bool,
}

/// Round `value` down to a multiple of `align`. `align == 0` leaves it unchanged.
pub fn align_down(value: u64, align: u64) -> (r: u64)
    ensures
        r == (if align == 0 {
            value as int
        } else {
            value as int / align as int * align as int
        }),
{
    if align == 0 {
        value
    } else {
        proof {
            hash::lemma_within_chunk(align as int, value as int, 0);
        }
        value - value % align
    }
}

/// Round `value` up to a multiple of `align`. `align == 0` leaves it unchanged.
pub fn align_up(value: u64, align: u64) -> (r: u64)
    requires
        aligned_up(value as int, align as int) <= u64::MAX,
    ensures
        r == aligned_up(value as int, align as int),
{
    if align == 0 {
        value
    } else {
        hash::chunk_count(value, align) * align
    }
}

/// Rounding up stays within a bound that is itself a multiple.
pub proof fn lemma_aligned_up(value: int, align: int, bound: int)
    requires
        0 < align,
        0 <= value <= bound,
        bound % align == 0,
    ensures
        value <= aligned_up(value, align) <= bound,
        aligned_up(value, align) % align == 0,
{
    let q = bound / align;
    vstd::arithmetic::div_mod::lemma_fundamental_div_mod(bound, align);
    assert(align * q == q * align) by (nonlinear_arith);
    hash::lemma_ceil_div(value, align, q);
    let c = hash::ceil_div(value, align);
    hash::lemma_ceil_div(value, align, c);
    assert(c * align <= q * align) by (nonlinear_arith)
        requires
            c <= q,
            0 < align,
    ;
    vstd::arithmetic::div_mod::lemma_mod_multiples_basic(c, align);
}

/// The lesser of two numbers.
fn least(a: u64, b: u64) -> (r: u64)
    ensures
        r == min(a as int, b as int),
{
    if a < b {
        a
    } else {
        b
    }
}

/// Whether every byte in `buf` is zero.
pub fn is_all_zero(buf: &[u8]) -> (r: bool)
    ensures
        r == all_zero(buf@),
{
    for i in 0..buf.len()
        invariant
            forall|k: int| 0 <= k < i ==> buf@[k] == 0,
    {
        if buf[i] != 0 {
            return false;
        }
    }
    true
}

/// Whether two byte strings are equal.
fn same_bytes(a: &[u8], b: &[u8]) -> (r: bool)
    ensures
        r == (a@ == b@),
{
    if a.len() != b.len() {
        return false;
    }
    for i in 0..a.len()
        invariant
            a@.len() == b@.len(),
            forall|k: int| 0 <= k < i ==> a@[k] == b@[k],
    {
        if a[i] != b[i] {
            return false;
        }
    }
    assert(a@ =~= b@);
    true
}

fn contains(list: &Vec<u64>, value: u64) -> (r: bool)
    ensures
        r == list@.contains(value),
{
    for i in 0..list.len()
        invariant
            forall|k: int| 0 <= k < i ==> list@[k] != value,
    {
        if list[i] == value {
            return true;
        }
    }
    false
}

impl Copier {
    /// The machine's state is consistent.
    pub closed spec fn wf(&self) -> bool {
        &&& self.map.wf()
        &&& self.hasher.wf()
        &&& self@.wf()
    }

    /// A consistent machine has a consistent model, which the laws ask for.
    pub proof fn lemma_wf(&self)
        requires
            self.wf(),
        ensures
            self@.wf(),
    {
    }

    /// The parts are consistent, whatever the machine waits for.
    closed spec fn sound(&self) -> bool {
        &&& self.map.wf()
        &&& self.hasher.wf()
        &&& self@.sound()
    }

    // -----------------------------------------------------------------------
    // Where to go next.

    fn open_stride(&mut self, p: u64)
        requires
            old(self).sound(),
            old(self)@.pass == Pass::Refresh,
            old(self)@.isolating is None,
            p < old(self)@.region_end,
        ensures
            final(self)@ == old(self)@.open_stride(p as int),
            final(self).wf(),
    {
        proof {
            reveal(CopyModel::open_stride);
        }
        let size = self.hasher.chunk_size();
        let index = p / size;
        proof {
            hash::lemma_within_chunk(size as int, p as int, 0);
        }
        let begin = index * size;
        let end = if self.options.domain - begin <= size {
            self.options.domain
        } else {
            begin + size
        };
        let stop = least(end, self.region_end);
        let whole = p == begin && stop == end && self.hasher.get(index).is_some();
        self.pos = p;
        self.stop = stop;
        self.chunk = Vec::new();
        self.job = if whole {
            Some(Job { index, start: p, length: stop - p, offset: 0, writing: false })
        } else {
            None
        };
        self.at = At::Reading;
        proof {
            assert(self@ =~= old(self)@.open_stride(p as int));
        }
    }

    fn open_region(&mut self, start: u64, end: u64)
        requires
            old(self).sound(),
            old(self)@.options.domain > 0,
            old(self)@.isolating is None,
            old(self)@.job is None,
            start < end <= old(self)@.options.domain,
            old(self)@.pass == Pass::Refresh ==> old(self)@.stop <= start,
        ensures
            final(self)@ == old(self)@.open_region(start as int, end as int),
            final(self).wf(),
    {
        proof {
            reveal(CopyModel::open_region);
        }
        match self.pass {
            Pass::Refresh => {
                self.region_end = end;
                self.open_stride(start);
                proof {
                    assert(self@ =~= old(self)@.open_region(start as int, end as int));
                }
            },
            _ => {
                self.pos = start;
                self.stop = end;
                self.at = At::Reading;
                proof {
                    assert(self@ =~= old(self)@.open_region(start as int, end as int));
                }
            },
        }
    }

    /// The bounds of a span of a covered map.
    proof fn lemma_span_bounds(&self, status: RegionStatus, from: int)
        requires
            self.sound(),
            self@.options.domain > 0,
            0 <= from,
        ensures
            region::next_span(self@.map, status, from) matches Some((start, end)) ==> from <= start
                < end <= self@.options.domain,
    {
        if region::next_span(self@.map, status, from) is Some {
            let (start, end) = region::next_span(self@.map, status, from)->0;
            let f = self@.map;
            let (s, e) = choose|s: int, e: int| region::is_next_span(f, status, from, s, e);
            assert(f(e - 1) == Some(status));
        }
    }

    fn end_pass(&mut self)
        requires
            old(self).sound(),
            old(self)@.options.domain > 0,
            old(self)@.isolating is None,
            old(self)@.job is None,
        ensures
            final(self)@ == old(self)@.end_pass(),
            final(self).wf(),
    {
        proof {
            reveal(CopyModel::end_pass);
        }
        if self.pass != Pass::Retry && self.options.retry {
            self.pass = Pass::Retry;
            proof {
                self.lemma_span_bounds(RegionStatus::Bad, 0);
            }
            match self.map.next_with(RegionStatus::Bad, 0) {
                Some((start, end)) => {
                    self.open_region(start, end);
                },
                None => {
                    self.at = At::Stopped(Outcome::Finished);
                },
            }
        } else {
            self.at = At::Stopped(Outcome::Finished);
        }
        proof {
            assert(self@ =~= old(self)@.end_pass());
        }
    }

    fn next_region(&mut self)
        requires
            old(self).sound(),
            old(self)@.options.domain > 0,
            old(self)@.isolating is None,
            old(self)@.job is None,
        ensures
            final(self)@ == old(self)@.next_region(old(self)@.stop),
            final(self).wf(),
    {
        proof {
            reveal(CopyModel::next_region);
        }
        let status = match self.pass {
            Pass::Retry => RegionStatus::Bad,
            _ => RegionStatus::Untried,
        };
        proof {
            self.lemma_span_bounds(status, self@.stop);
        }
        match self.map.next_with(status, self.stop) {
            Some((start, end)) => {
                self.open_region(start, end);
            },
            None => {
                self.end_pass();
            },
        }
    }

    fn end_input(&mut self)
        requires
            old(self).sound(),
            old(self)@.options.domain == 0,
        ensures
            final(self)@ == old(self)@.end_input(),
            final(self).wf(),
    {
        proof {
            reveal(CopyModel::end_input);
        }
        proof {
            self.lemma_tail_index();
        }
        self.hasher.finish();
        self.at = At::Stopped(Outcome::Finished);
        proof {
            self.hasher.lemma_wf();
            assert(self@ =~= old(self)@.end_input());
        }
    }

    /// The number of the trailing chunk of a source of unknown size is an index.
    proof fn lemma_tail_index(&self)
        requires
            self.sound(),
            self@.options.domain == 0,
        ensures
            self@.hasher.building() ==> self@.hasher.expected / self@.hasher.chunk_size
                < usize::MAX,
    {
        let h = self@.hasher;
        if h.building() {
            h.lemma_building_has_run();
            hash::lemma_quotients_grow(h.chunk_size, h.expected, u64::MAX - 1);
        }
    }

    fn settle(&mut self)
        requires
            old(self).sound(),
            !(old(self)@.job matches Some(job) && job.writing),
        ensures
            final(self)@ == old(self)@.settle(),
            final(self).wf(),
    {
        proof {
            reveal(CopyModel::settle);
        }
        if self.pos < self.stop {
            self.at = At::Reading;
            proof {
                assert(self@ =~= old(self)@.settle());
            }
        } else {
            match self.pass {
                Pass::Sequential => {
                    self.end_input();
                },
                Pass::Refresh => {
                    if self.stop < self.region_end {
                        self.open_stride(self.stop);
                    } else {
                        self.next_region();
                    }
                },
                _ => {
                    self.next_region();
                },
            }
        }
    }

    fn resume(&mut self, signals: Signals)
        requires
            old(self).sound(),
            !(old(self)@.job matches Some(job) && job.writing),
        ensures
            final(self)@ == old(self)@.resume(signals),
            final(self).wf(),
    {
        proof {
            reveal(CopyModel::resume);
        }
        if self.pass == Pass::Sequential && signals.interrupted {
            self.at = At::Flushing { stop: true };
        } else {
            self.settle();
            if self.at == At::Reading && signals.interrupted {
                self.at = At::Flushing { stop: true };
            }
        }
        proof {
            assert(self@ =~= old(self)@.resume(signals));
        }
    }

    fn advance(&mut self, signals: Signals)
        requires
            old(self).sound(),
            old(self)@.job is None,
        ensures
            final(self)@ == old(self)@.advance(signals),
            final(self).wf(),
    {
        proof {
            reveal(CopyModel::advance);
        }
        if signals.flush_due {
            self.at = At::Flushing { stop: false };
            proof {
                assert(self@ =~= old(self)@.advance(signals));
            }
        } else {
            self.resume(signals);
        }
    }

    fn move_on(&mut self, n: u64)
        requires
            old(self).map.wf(),
            old(self).hasher.wf(),
            old(self)@.pos + n <= u64::MAX,
        ensures
            final(self).map == old(self).map,
            final(self).hasher == old(self).hasher,
            final(self)@ == old(self)@.moved(n as int),
    {
        proof {
            reveal(CopyModel::moved);
        }
        self.pos = self.pos + n;
        if self.pass != Pass::Retry {
            self.processed = self.processed.saturating_add(n);
        }
        match self.isolating {
            Some(end) => {
                if self.pos >= end {
                    self.isolating = None;
                }
            },
            None => {},
        }
        proof {
            assert(self@ =~= old(self)@.moved(n as int));
        }
    }

    /// Bytes within the range of the copy can be fed to the hasher.
    proof fn lemma_can_feed(&self, n: int)
        requires
            self.sound(),
            0 <= n,
            self@.pos + n <= self@.stop,
        ensures
            self@.hasher.can_feed(self@.pos, n),
            self@.pos + n <= u64::MAX,
    {
        let m = self@;
        let c = m.hasher.chunk_size;
        if m.options.domain > 0 {
            hash::lemma_chunks_ended_grow(
                c,
                m.options.domain as int,
                m.pos + n,
                m.options.domain as int,
            );
        } else {
            hash::lemma_quotients_grow(c, m.pos + n, u64::MAX - 1);
        }
    }

    fn commit(&mut self, signals: Signals)
        requires
            old(self).sound(),
            old(self)@.at_block(),
            old(self)@.job is Some ==> old(self)@.options.compares(),
        ensures
            final(self)@ == old(self)@.commit(signals),
            final(self).wf(),
    {
        proof {
            reveal(CopyModel::commit);
            reveal(CopyModel::moved);
        }
        match self.job {
            Some(job) => {
                self.commit_chunk_block(job, signals);
            },
            None => {
                let n = self.block.len() as u64;
                proof {
                    self.lemma_can_feed(n as int);
                    self.hasher.lemma_wf();
                }
                self.hasher.feed(self.pos, self.block.as_slice());
                self.map.mark(self.pos, n, RegionStatus::Done);
                let ghost fed = self@;
                self.move_on(n);
                proof {
                    self.hasher.lemma_wf();
                    assert(fed =~= CopyModel {
                        hasher: old(self)@.hasher.feed(old(self)@.pos, old(self)@.block),
                        map: region::marked(
                            old(self)@.map,
                            old(self)@.pos,
                            old(self)@.block.len() as int,
                            RegionStatus::Done,
                        ),
                        ..old(self)@
                    });
                }
                self.advance(signals);
            },
        }
    }

    fn commit_chunk_block(&mut self, job: Job, signals: Signals)
        requires
            old(self).sound(),
            old(self)@.at_block(),
            old(self)@.job == Some(job.model()),
            old(self)@.options.compares(),
        ensures
            final(self)@ == old(self)@.commit_chunk_block(job.model(), signals),
            final(self).wf(),
    {
        proof {
            reveal(CopyModel::commit_chunk_block);
        }
        let n = least(self.options.transfer, job.length - job.offset);
        let ghost before = self@;
        self.map.mark(job.start + job.offset, n, RegionStatus::Done);
        self.processed = self.processed.saturating_add(n);
        if job.offset + n < job.length {
            self.job = Some(Job { offset: job.offset + n, ..job });
            self.at = At::Comparing;
            proof {
                assert(self@ =~= before.commit_chunk_block(job.model(), signals));
            }
        } else {
            proof {
                let size = before.hasher.chunk_size;
                hash::lemma_ceil_div(before.options.domain as int, size, job.index as int);
            }
            self.hasher.set(job.index, self.digest.clone());
            self.job = None;
            self.pos = job.start + job.length;
            proof {
                self.hasher.lemma_wf();
            }
            let ghost mid = self@;
            self.advance(signals);
            proof {
                assert(mid =~= CopyModel {
                    map: region::marked(
                        before.map,
                        job.start + job.offset,
                        n as int,
                        RegionStatus::Done,
                    ),
                    processed: counted(before.processed, n as int),
                    hasher: HasherModel {
                        chunks: hash::with_digest(
                            before.hasher.chunks,
                            job.index as int,
                            before.digest,
                        ),
                        ..before.hasher
                    },
                    job: None,
                    pos: job.start + job.length,
                    ..before
                });
            }
        }
    }

    /// Whether the manifest holds `text` for chunk `index`.
    fn recorded(&self, index: u64, text: &String) -> (r: bool)
        requires
            text@.len() > 0,
        ensures
            r == (text@ == hash::digest_at(self@.hasher.chunks, index as int)),
    {
        let chunks = self.hasher.chunks();
        if index < chunks.len() as u64 {
            proof {
                assert(hash::texts(chunks@)[index as int] == chunks@[index as int]@);
            }
            chunks[index as usize] == *text
        } else {
            false
        }
    }

    fn chunk_read(&mut self, job: Job, signals: Signals)
        requires
            old(self).map.wf(),
            old(self).hasher.wf(),
            old(self)@.reading_is_through(job.model()),
        ensures
            final(self)@ == old(self)@.chunk_read(job.model(), signals),
            final(self).wf(),
    {
        proof {
            reveal(CopyModel::chunk_read);
        }
        let ghost before = self@;
        let text = hash::digest(self.chunk.as_slice());
        if self.recorded(job.index, &text) && !contains(&self.repair, job.start)
            && !self.options.skip_unchanged {
            self.map.mark(job.start, job.length, RegionStatus::Done);
            self.processed = self.processed.saturating_add(job.length);
            self.bytes_skipped_by_hash = self.bytes_skipped_by_hash.saturating_add(job.length);
            self.job = None;
            self.pos = job.start + job.length;
            let ghost mid = self@;
            self.advance(signals);
            proof {
                assert(mid =~= CopyModel {
                    map: region::marked(
                        before.map,
                        job.start as int,
                        job.length as int,
                        RegionStatus::Done,
                    ),
                    processed: counted(before.processed, job.length as int),
                    bytes_skipped_by_hash: counted(
                        before.bytes_skipped_by_hash,
                        job.length as int,
                    ),
                    job: None,
                    pos: job.start + job.length,
                    ..before
                });
            }
        } else {
            self.job = Some(Job { offset: 0, writing: true, ..job });
            self.digest = text;
            self.at = At::Comparing;
            proof {
                assert(self@ =~= before.chunk_read(job.model(), signals));
            }
        }
    }

    fn fall_back(&mut self, signals: Signals)
        requires
            old(self).sound(),
        ensures
            final(self)@ == old(self)@.fall_back(signals),
            final(self).wf(),
    {
        proof {
            reveal(CopyModel::fall_back);
        }
        self.job = None;
        let ghost mid = self@;
        self.resume(signals);
        proof {
            assert(mid =~= CopyModel { job: None, ..old(self)@ });
        }
    }

    /// How many source bytes are wanted.
    fn want(&self) -> (r: u64)
        requires
            self.sound(),
            self@.pos < self@.stop,
        ensures
            r == self@.want(),
            0 < r <= self@.options.transfer,
            self@.read_pos() + r <= self@.stop,
    {
        match (self.job, self.isolating) {
            (Some(job), _) => least(self.options.transfer, job.length - job.offset),
            (None, Some(end)) => least(self.options.sector, end - self.pos),
            (None, None) => least(self.options.transfer, self.stop - self.pos),
        }
    }

    // -----------------------------------------------------------------------
    // What each reply does.

    fn on_source(&mut self, data: Vec<u8>, signals: Signals)
        requires
            old(self).wf(),
            old(self)@.at == At::Reading,
        ensures
            final(self)@ == old(self)@.on_source(data@, signals),
            final(self).wf(),
    {
        proof {
            reveal(CopyModel::on_source);
        }
        let ghost before = self@;
        let want = self.want();
        let mut data = data;
        let ghost given = data@;
        if want < data.len() as u64 {
            data.truncate(want as usize);
        }
        let ghost used = given.take(min(given.len() as int, before.want()));
        proof {
            assert(data@ =~= used);
        }
        if data.len() == 0 {
            self.on_end_of_source(signals);
            return ;
        }
        let n = data.len() as u64;
        match self.job {
            Some(job) => {
                self.chunk.extend_from_slice(data.as_slice());
                proof {
                    assert(self.chunk@ =~= before.chunk + used);
                }
                if job.offset + n < job.length {
                    self.job = Some(Job { offset: job.offset + n, ..job });
                    let ghost mid = self@;
                    proof {
                        assert(mid =~= CopyModel {
                            chunk: before.chunk + used,
                            job: Some(JobModel { offset: job.offset + n, ..job.model() }),
                            ..before
                        });
                    }
                    self.resume(signals);
                } else {
                    let full = Job { offset: job.length, ..job };
                    self.job = Some(full);
                    let ghost mid = self@;
                    proof {
                        assert(mid =~= CopyModel {
                            chunk: before.chunk + used,
                            job: Some(JobModel { offset: job.offset + n, ..job.model() }),
                            ..before
                        });
                    }
                    self.chunk_read(full, signals);
                }
            },
            None => {
                self.block = data;
                let ghost mid = self@;
                proof {
                    assert(mid =~= CopyModel { block: used, ..before });
                }
                if self.options.skip_zeros && is_all_zero(self.block.as_slice()) {
                    self.commit(signals);
                } else if self.options.refresh || self.options.skip_unchanged {
                    self.at = At::Comparing;
                    proof {
                        assert(self@ =~= before.on_source(given, signals));
                    }
                } else {
                    self.at = At::Writing;
                    proof {
                        assert(self@ =~= before.on_source(given, signals));
                    }
                }
            },
        }
    }

    fn on_end_of_source(&mut self, signals: Signals)
        requires
            old(self).wf(),
            old(self)@.at == At::Reading,
        ensures
            final(self)@ == old(self)@.on_end_of_source(signals),
            final(self).wf(),
    {
        proof {
            reveal(CopyModel::on_end_of_source);
        }
        let ghost before = self@;
        if self.job.is_some() {
            self.fall_back(signals);
        } else if self.pass == Pass::Sequential {
            self.end_input();
        } else {
            self.short = true;
            match self.isolating {
                Some(end) => {
                    self.pos = end;
                    self.isolating = None;
                    let ghost mid = self@;
                    proof {
                        assert(mid =~= CopyModel {
                            pos: end as int,
                            isolating: None,
                            short: true,
                            ..before
                        });
                    }
                    self.advance(signals);
                },
                None => {
                    self.pos = self.stop;
                    let ghost mid = self@;
                    proof {
                        assert(mid =~= CopyModel { pos: before.stop, short: true, ..before });
                    }
                    self.resume(signals);
                },
            }
        }
    }

    fn on_media_error(&mut self, signals: Signals)
        requires
            old(self).wf(),
            old(self)@.at == At::Reading,
        ensures
            final(self)@ == old(self)@.on_media_error(signals),
            final(self).wf(),
    {
        proof {
            reveal(CopyModel::on_media_error);
            reveal(CopyModel::moved);
        }
        let ghost before = self@;
        if self.job.is_some() {
            self.fall_back(signals);
        } else if self.pass == Pass::Sequential {
            self.at = At::Stopped(Outcome::Failed);
            proof {
                assert(self@ =~= before.on_media_error(signals));
            }
        } else {
            let want = self.want();
            if self.isolating.is_some() {
                self.hasher.bad(self.pos, want);
                self.map.mark(self.pos, want, RegionStatus::Bad);
                let ghost mid = self@;
                self.move_on(want);
                proof {
                    self.hasher.lemma_wf();
                    assert(mid =~= CopyModel {
                        hasher: before.hasher.broken(before.pos + want),
                        map: region::marked(
                            before.map,
                            before.pos,
                            want as int,
                            RegionStatus::Bad,
                        ),
                        ..before
                    });
                }
                self.advance(signals);
            } else {
                self.isolating = Some(self.pos + want);
                let ghost mid = self@;
                proof {
                    assert(mid =~= CopyModel {
                        isolating: Some(before.pos + want),
                        ..before
                    });
                }
                if !self.options.direct && !self.readahead_off {
                    self.at = At::Readahead;
                    proof {
                        assert(self@ =~= before.on_media_error(signals));
                    }
                } else {
                    self.resume(signals);
                }
            }
        }
    }

    fn on_target(&mut self, data: Option<Vec<u8>>, signals: Signals)
        requires
            old(self).wf(),
            old(self)@.at == At::Comparing,
        ensures
            final(self)@ == old(self)@.next(Reply::Target(data)@, signals),
            final(self).wf(),
    {
        proof {
            reveal(CopyModel::on_target);
        }
        let ghost before = self@;
        let same = match &data {
            Some(bytes) => same_bytes(bytes.as_slice(), self.payload()),
            None => false,
        };
        if same {
            self.commit(signals);
        } else {
            self.at = At::Writing;
            proof {
                assert(self@ =~= CopyModel { at: At::Writing, ..before });
            }
        }
    }

    fn on_written(&mut self, signals: Signals)
        requires
            old(self).wf(),
            old(self)@.at == At::Writing,
        ensures
            final(self)@ == old(self)@.on_written(signals),
            final(self).wf(),
    {
        proof {
            reveal(CopyModel::on_written);
        }
        let ghost before = self@;
        let n = self.payload().len() as u64;
        self.bytes_written = self.bytes_written.saturating_add(n);
        self.bytes_written_this_run = self.bytes_written_this_run.saturating_add(n);
        self.wrote_this_run = true;
        let ghost mid = self@;
        proof {
            assert(mid =~= CopyModel {
                bytes_written: counted(before.bytes_written, n as int),
                bytes_written_this_run: counted(before.bytes_written_this_run, n as int),
                wrote_this_run: true,
                ..before
            });
        }
        self.commit(signals);
    }

    // -----------------------------------------------------------------------
    // The interface.

    /// The block to be compared or written.
    pub fn payload(&self) -> (r: &[u8])
        requires
            self.wf(),
            self@.at == At::Comparing || self@.at == At::Writing,
        ensures
            r@ == self@.payload(),
    {
        match self.job {
            Some(job) => {
                let n = least(self.options.transfer, job.length - job.offset);
                let total: usize = self.chunk.len();
                assert(total == job.length);
                &self.chunk[job.offset as usize..(job.offset + n) as usize]
            },
            None => self.block.as_slice(),
        }
    }

    /// Take in what came of the pending action and decide on the next.
    pub fn step(&mut self, reply: Reply, signals: Signals)
        requires
            old(self).wf(),
            old(self)@.expects(reply@),
        ensures
            final(self).wf(),
            final(self)@ == old(self)@.next(reply@, signals),
    {
        let ghost before = self@;
        match reply {
            Reply::Source(data) => {
                self.on_source(data, signals);
            },
            Reply::MediaError => {
                self.on_media_error(signals);
            },
            Reply::Target(data) => {
                self.on_target(data, signals);
            },
            Reply::Failed => {
                self.at = At::Stopped(Outcome::Failed);
                proof {
                    assert(self@ =~= before.next(ReplyModel::Failed, signals));
                }
            },
            Reply::Done => {
                match self.at {
                    At::Writing => {
                        self.on_written(signals);
                    },
                    At::Readahead => {
                        self.readahead_off = true;
                        let ghost mid = self@;
                        proof {
                            assert(mid =~= CopyModel { readahead_off: true, ..before });
                        }
                        self.resume(signals);
                    },
                    At::Flushing { stop: true } => {
                        self.at = At::Stopped(Outcome::Interrupted);
                        proof {
                            assert(self@ =~= before.next(ReplyModel::Done, signals));
                        }
                    },
                    _ => {
                        self.resume(signals);
                    },
                }
            },
        }
    }

    /// A copy that has not started. A source of unknown size is copied from the
    /// frontier of `map`, which otherwise covers exactly the domain.
    pub fn new(
        options: CopyOptions,
        map: RegionMap,
        hasher: ChunkHasher,
        repair: Vec<u64>,
        bytes_written: u64,
    ) -> (r: Self)
        requires
            options.valid(),
            map.wf(),
            hasher.wf(),
            hasher@.domain == options.domain,
            hasher@.run.len() == 0,
            CopyModel::start(
                options,
                map.statuses(),
                region::end_of(map@),
                hasher@,
                repair@,
                bytes_written as int,
            ).indexable(),
            options.domain > 0 ==> forall|p: int|
                (#[trigger] map.status_at(p) is Some) <==> 0 <= p < options.domain,
        ensures
            r.wf(),
            r@ == CopyModel::start(
                options,
                map.statuses(),
                region::end_of(map@),
                hasher@,
                repair@,
                bytes_written as int,
            ),
    {
        let far = if options.skip < options.seek { options.seek } else { options.skip };
        let most = u64::MAX - 1 - far;
        let limit = if 0 < options.length && options.length < most { options.length } else { most };
        let unknown = options.domain == 0;
        let frontier = map.covered_end();
        let r = Copier {
            options,
            map,
            hasher,
            repair,
            bytes_written,
            bytes_written_this_run: 0,
            bytes_skipped_by_hash: 0,
            processed: 0,
            wrote_this_run: false,
            readahead_off: false,
            short: false,
            pass: if unknown {
                Pass::Sequential
            } else if options.refresh {
                Pass::Refresh
            } else {
                Pass::Copy
            },
            pos: if unknown { frontier } else { 0 },
            stop: if unknown { limit } else { 0 },
            region_end: 0,
            isolating: None,
            job: None,
            at: At::Start,
            block: Vec::new(),
            chunk: Vec::new(),
            digest: String::new(),
        };
        proof {
            r.hasher.lemma_wf();
            assert forall|p: int| options.domain > 0 implies (#[trigger] (r@.map)(p) is Some) == (0
                <= p < options.domain) by {
                assert(map.status_at(p) == (r@.map)(p));
            }
            assert(r.digest@ =~= Seq::<char>::empty());
            assert(r@ =~= CopyModel::start(
                options,
                map.statuses(),
                region::end_of(map@),
                hasher@,
                repair@,
                bytes_written as int,
            ));
        }
        r
    }

    /// What the driver is to do next.
    pub fn action(&self) -> (r: Action)
        requires
            self.wf(),
        ensures
            r == self@.action(),
    {
        match self.at {
            At::Start => Action::Begin,
            At::Reading => {
                let want = self.want();
                let pos = match self.job {
                    Some(job) => job.start + job.offset,
                    None => self.pos,
                };
                let request = if self.options.direct {
                    let room = match self.job {
                        Some(job) => self.hasher.chunk_size() - job.offset,
                        None => self.options.transfer,
                    };
                    proof {
                        lemma_aligned_up(
                            want as int,
                            self.options.sector as int,
                            self.options.transfer as int,
                        );
                    }
                    least(align_up(want, self.options.sector), room)
                } else {
                    want
                };
                Action::ReadSource { offset: self.options.skip + pos, want, request }
            },
            At::Comparing => {
                Action::ReadTarget {
                    offset: self.options.seek + self.block_pos(),
                    length: self.payload().len() as u64,
                }
            },
            At::Writing => {
                Action::Write {
                    offset: self.options.seek + self.block_pos(),
                    length: self.payload().len() as u64,
                }
            },
            At::Readahead => Action::DisableReadahead,
            At::Flushing { stop: _ } => Action::Flush,
            At::Stopped(outcome) => Action::Stop(outcome),
        }
    }

    /// Where the block at hand belongs, in domain coordinates.
    fn block_pos(&self) -> (r: u64)
        requires
            self.sound(),
            self@.at_block(),
        ensures
            r == self@.read_pos(),
            self@.options.seek + r <= u64::MAX,
    {
        match self.job {
            Some(job) => job.start + job.offset,
            None => self.pos,
        }
    }

    /// The options the copy runs with.
    pub fn options(&self) -> (r: CopyOptions)
        ensures
            r == self@.options,
    {
        self.options
    }

    /// The region map as it stands.
    pub fn map(&self) -> (r: &RegionMap)
        requires
            self.wf(),
        ensures
            r.wf(),
            r.statuses() == self@.map,
    {
        &self.map
    }

    /// The manifest as it stands.
    pub fn hasher(&self) -> (r: &ChunkHasher)
        requires
            self.wf(),
        ensures
            r.wf(),
            r@ == self@.hasher,
    {
        &self.hasher
    }

    /// Bytes written to the target, over all runs.
    pub fn bytes_written(&self) -> (r: u64)
        ensures
            r == self@.bytes_written,
    {
        self.bytes_written
    }

    /// Bytes the progress display has counted in this run.
    pub fn processed(&self) -> (r: u64)
        ensures
            r == self@.processed,
    {
        self.processed
    }

    /// Whether the target was written to in this run.
    pub fn wrote_this_run(&self) -> (r: bool)
        ensures
            r == self@.wrote_this_run,
    {
        self.wrote_this_run
    }

    /// Consume the copier, handing its final state back.
    pub fn into_parts(self) -> (r: CopyParts)
        requires
            self.wf(),
        ensures
            r.map.wf(),
            r.map.statuses() == self@.map,
            r.hasher.wf(),
            r.hasher@ == self@.hasher,
            r.bytes_written == self@.bytes_written,
            r.bytes_written_this_run == self@.bytes_written_this_run,
            r.bytes_skipped_by_hash == self@.bytes_skipped_by_hash,
            r.wrote_this_run == self@.wrote_this_run,
    {
        CopyParts {
            map: self.map,
            hasher: self.hasher,
            bytes_written: self.bytes_written,
            bytes_written_this_run: self.bytes_written_this_run,
            bytes_skipped_by_hash: self.bytes_skipped_by_hash,
            wrote_this_run: self.wrote_this_run,
        }
    }
}

} // verus!
