//! Filling the gaps of the manifest.
//!
//! Chunks broken by resume seams or recovered out of order by a retry never
//! streamed past the hasher in one piece, but their bytes are all on the target
//! now: they are hashed back from there. Bounded work, since a fresh clean run
//! has no gaps at all.

use crate::copier;
use crate::copier::Outcome;
use crate::hash;
use crate::hash::{ChunkHasher, HasherModel};
use crate::readback;
use crate::readback::{Range, RangeModel, ReadAction, ReadReply, ReadReplyModel};
use crate::region::{RegionMap, RegionStatus, Statuses};
use crate::world;
use vstd::prelude::*;

verus! {

/// A chunk that is all done but has no digest.
pub open spec fn chunk_is_gap(
    map: Statuses,
    hasher: HasherModel,
    domain: int,
    index: int,
) -> bool {
    &&& hash::digest_at(hasher.chunks, index).len() == 0
    &&& forall|p: int|
        index * hasher.chunk_size <= p < hash::chunk_end(hasher.chunk_size, domain, index)
            ==> #[trigger] map(p) == Some(RegionStatus::Done)
}

/// No chunk below `end` is a gap.
pub open spec fn clean_to(map: Statuses, hasher: HasherModel, domain: int, end: int) -> bool {
    forall|i: int| 0 <= i < end ==> !(#[trigger] chunk_is_gap(map, hasher, domain, i))
}

/// The first gap at or after chunk `from`.
pub open spec fn next_gap(
    map: Statuses,
    hasher: HasherModel,
    domain: int,
    from: int,
) -> Option<int>
    decreases hash::ceil_div(domain, hasher.chunk_size) - from,
{
    if from >= hash::ceil_div(domain, hasher.chunk_size) {
        None
    } else if chunk_is_gap(map, hasher, domain, from) {
        Some(from)
    } else {
        next_gap(map, hasher, domain, from + 1)
    }
}

/// The state of a gap-filling pass.
#[verifier::ext_equal]
pub struct GapModel {
    pub seek: int,
    pub domain: int,
    pub transfer: int,
    pub map: Statuses,
    pub hasher: HasherModel,
    /// The chunk being hashed, or the next to look at.
    pub index: int,
    pub range: Option<RangeModel>,
    pub outcome: Option<Outcome>,
    /// The target was too short for a chunk it should hold.
    pub short: bool,
}

impl GapModel {
    pub open spec fn count(self) -> int {
        hash::ceil_div(self.domain, self.hasher.chunk_size)
    }

    pub open spec fn chunk_start(self, index: int) -> int {
        index * self.hasher.chunk_size
    }

    pub open spec fn chunk_end(self, index: int) -> int {
        hash::chunk_end(self.hasher.chunk_size, self.domain, index)
    }

    /// A chunk that is all done but has no digest.
    pub open spec fn is_gap(self, index: int) -> bool {
        chunk_is_gap(self.map, self.hasher, self.domain, index)
    }

    /// Go on to the next gap at or after chunk `from`.
    pub open spec fn look_from(self, from: int, interrupted: bool) -> GapModel {
        if from < self.count() && interrupted {
            GapModel { index: from, range: None, outcome: Some(Outcome::Interrupted), ..self }
        } else {
            match next_gap(self.map, self.hasher, self.domain, from) {
                Some(index) => GapModel {
                    index,
                    range: Some(
                        RangeModel::open(
                            self.chunk_start(index),
                            self.chunk_end(index) - self.chunk_start(index),
                        ),
                    ),
                    ..self
                },
                None => GapModel {
                    index: self.count(),
                    range: None,
                    outcome: Some(Outcome::Finished),
                    ..self
                },
            }
        }
    }

    /// The target gave `data`. A chunk read to its end gets its digest; one the
    /// target is too short for stays without.
    pub open spec fn on_data(self, range: RangeModel, data: Seq<u8>, interrupted: bool) -> GapModel {
        let used = range.used(self.transfer, data);
        let next = range.with(used);
        if used.len() == 0 {
            GapModel { short: true, ..self }.look_from(self.index + 1, interrupted)
        } else if next.is_through() {
            GapModel {
                hasher: HasherModel {
                    chunks: hash::with_digest(
                        self.hasher.chunks,
                        self.index,
                        hash::blake3_hex(next.bytes),
                    ),
                    ..self.hasher
                },
                ..self
            }.look_from(self.index + 1, interrupted)
        } else {
            GapModel { range: Some(next), ..self }
        }
    }

    pub open spec fn expects(self, reply: ReadReplyModel) -> bool {
        &&& self.outcome is None
        &&& match reply {
            ReadReplyModel::Done => self.range is None,
            ReadReplyModel::Data(data) => self.range is Some,
            ReadReplyModel::Failed => true,
        }
    }

    /// The transition function.
    pub open spec fn next(self, reply: ReadReplyModel, interrupted: bool) -> GapModel {
        match (reply, self.range) {
            (ReadReplyModel::Failed, _) => GapModel { outcome: Some(Outcome::Failed), ..self },
            (ReadReplyModel::Data(data), Some(range)) => self.on_data(range, data, interrupted),
            _ => self.look_from(self.index, interrupted),
        }
    }

    pub open spec fn action(self) -> ReadAction {
        match (self.outcome, self.range) {
            (Some(outcome), _) => ReadAction::Stop(outcome),
            (None, Some(range)) => ReadAction::ReadTarget {
                offset: (self.seek + range.start + range.bytes.len()) as u64,
                length: range.want(self.transfer) as u64,
            },
            (None, None) => ReadAction::Begin,
        }
    }

    pub open spec fn wf(self) -> bool {
        &&& 0 < self.transfer
        &&& 0 <= self.seek
        &&& 0 <= self.domain
        &&& self.seek + self.domain <= u64::MAX
        &&& self.hasher.chunk_size > 0
        &&& self.count() <= usize::MAX
        &&& 0 <= self.index <= self.count()
        &&& self.range matches Some(range) ==> {
            &&& self.index < self.count()
            &&& range.wf()
            &&& range.start == self.chunk_start(self.index)
            &&& range.start + range.length == self.chunk_end(self.index)
            &&& range.start + range.length <= self.domain
        }
        &&& self.outcome == Some(Outcome::Finished) ==> self.index == self.count()
        &&& !self.short ==> clean_to(self.map, self.hasher, self.domain, self.index)
    }
}

/// A gap-filling pass in flight.
pub struct GapFiller {
    seek: u64,
    domain: u64,
    transfer: u64,
    map: RegionMap,
    hasher: ChunkHasher,
    index: u64,
    range: Option<Range>,
    outcome: Option<Outcome>,
    short: bool,
}

impl View for GapFiller {
    type V = GapModel;

    closed spec fn view(&self) -> GapModel {
        GapModel {
            seek: self.seek as int,
            domain: self.domain as int,
            transfer: self.transfer as int,
            map: self.map.statuses(),
            hasher: self.hasher@,
            index: self.index as int,
            range: match self.range {
                Some(range) => Some(range@),
                None => None,
            },
            outcome: self.outcome,
            short: self.short,
        }
    }
}

impl GapFiller {
    pub closed spec fn wf(&self) -> bool {
        &&& self.map.wf()
        &&& self.hasher.wf()
        &&& self.range matches Some(range) ==> range.wf()
        &&& self@.wf()
    }

    /// A consistent pass has a consistent model, which the laws ask for.
    pub proof fn lemma_wf(&self)
        requires
            self.wf(),
        ensures
            self@.wf(),
    {
    }

    /// A pass that has not started.
    pub fn new(
        seek: u64,
        domain: u64,
        transfer: u64,
        map: RegionMap,
        hasher: ChunkHasher,
    ) -> (r: Self)
        requires
            0 < transfer,
            seek + domain <= u64::MAX,
            map.wf(),
            hasher.wf(),
            hash::ceil_div(domain as int, hasher@.chunk_size) <= usize::MAX,
        ensures
            r.wf(),
            r@ == (GapModel {
                seek: seek as int,
                domain: domain as int,
                transfer: transfer as int,
                map: map.statuses(),
                hasher: hasher@,
                index: 0,
                range: None,
                outcome: None,
                short: false,
            }),
    {
        proof {
            hasher.lemma_wf();
            hash::lemma_ceil_div(domain as int, hasher@.chunk_size, -1);
            assert((-1) * hasher@.chunk_size < 0) by (nonlinear_arith)
                requires
                    hasher@.chunk_size > 0,
            ;
        }
        GapFiller {
            seek,
            domain,
            transfer,
            map,
            hasher,
            index: 0,
            range: None,
            outcome: None,
            short: false,
        }
    }

    /// Where chunk `index` begins and ends.
    fn extent(&self, index: u64) -> (r: (u64, u64))
        requires
            self.hasher.wf(),
            index < self@.count(),
            self@.wf(),
        ensures
            r.0 == self@.chunk_start(index as int),
            r.1 == self@.chunk_end(index as int),
            r.0 < r.1 <= self@.domain,
    {
        let size = self.hasher.chunk_size();
        proof {
            hash::lemma_ceil_div(self.domain as int, size as int, index as int);
            assert((index + 1) * size == index * size + size) by (nonlinear_arith);
        }
        let start = index * size;
        let end = if self.domain - start <= size { self.domain } else { start + size };
        (start, end)
    }

    fn look_from(&mut self, from: u64, interrupted: bool)
        requires
            old(self).map.wf(),
            old(self).hasher.wf(),
            old(self).range is None,
            old(self).outcome is None,
            (GapModel { index: from as int, ..old(self)@ }).wf(),
        ensures
            final(self)@ == old(self)@.look_from(from as int, interrupted),
            final(self).wf(),
    {
        let count = hash::chunk_count(self.domain, self.hasher.chunk_size());
        let ghost before = self@;
        if from < count && interrupted {
            self.index = from;
            self.outcome = Some(Outcome::Interrupted);
            proof {
                assert(self@ =~= before.look_from(from as int, interrupted));
            }
            return ;
        }
        self.index = from;
        while self.index < count
            invariant
                self.map.wf(),
                self.hasher.wf(),
                self.range is None,
                self.outcome is None,
                self@.wf(),
                self@ =~= (GapModel { index: self.index as int, ..before }),
                count == self@.count(),
                next_gap(before.map, before.hasher, before.domain, from as int) == next_gap(
                    before.map,
                    before.hasher,
                    before.domain,
                    self.index as int,
                ),
            ensures
                self.map.wf(),
                self.hasher.wf(),
                self.range is None,
                self.outcome is None,
                self@.wf(),
                self@ =~= (GapModel { index: self.index as int, ..before }),
                next_gap(before.map, before.hasher, before.domain, from as int) == (if self.index
                    < count {
                    Some(self.index as int)
                } else {
                    None
                }),
            decreases count - self.index,
        {
            let index = self.index;
            let (start, end) = self.extent(index);
            let hashed = self.hasher.get(index).is_some();
            if !hashed && self.map.covers(start, end, RegionStatus::Done) {
                proof {
                    assert forall|p: int| start <= p < end implies #[trigger] (before.map)(p)
                        == Some(RegionStatus::Done) by {
                        assert(self.map.status_at(p) == Some(RegionStatus::Done));
                    }
                    assert(chunk_is_gap(before.map, before.hasher, before.domain, index as int));
                }
                break;
            }
            proof {
                assert(!chunk_is_gap(before.map, before.hasher, before.domain, index as int)) by {
                    if !hashed {
                        let p = choose|p: int|
                            start <= p < end && #[trigger] self.map.status_at(p) != Some(
                                RegionStatus::Done,
                            );
                        assert((before.map)(p) != Some(RegionStatus::Done));
                    }
                }
            }
            proof {
                assert(self@.short || clean_to(
                    before.map,
                    before.hasher,
                    before.domain,
                    index as int,
                ));
                assert(self@.short || clean_to(
                    before.map,
                    before.hasher,
                    before.domain,
                    index + 1,
                ));
            }
            self.index = index + 1;
        }
        if self.index < count {
            let (start, end) = self.extent(self.index);
            self.range = Some(Range::open(start, end - start));
        } else {
            self.outcome = Some(Outcome::Finished);
        }
        proof {
            assert(self@ =~= before.look_from(from as int, interrupted));
        }
    }

    /// Take in what came of the pending action and decide on the next.
    pub fn step(&mut self, reply: ReadReply, interrupted: bool)
        requires
            old(self).wf(),
            old(self)@.expects(reply@),
        ensures
            final(self).wf(),
            final(self)@ == old(self)@.next(reply@, interrupted),
    {
        let ghost before = self@;
        match reply {
            ReadReply::Failed => {
                self.outcome = Some(Outcome::Failed);
                proof {
                    assert(self@ =~= before.next(ReadReplyModel::Failed, interrupted));
                }
            },
            ReadReply::Done => {
                let from = self.index;
                self.look_from(from, interrupted);
            },
            ReadReply::Data(data) => {
                let index = self.index;
                if let Some(mut range) = self.range.take() {
                    let ghost read = range@;
                    let n = range.take(self.transfer, data.as_slice());
                    proof {
                        range.lemma_wf();
                    }
                    if n == 0 {
                        self.short = true;
                        let ghost mid = self@;
                        self.look_from(index + 1, interrupted);
                        proof {
                            let there = GapModel { short: true, ..before };
                            assert(mid =~= GapModel { range: None, ..there });
                        }
                    } else if range.is_through() {
                        let text = range.finish();
                        let ghost bytes = range@.bytes;
                        self.hasher.set(index, text);
                        let ghost mid = self@;
                        proof {
                            let there = GapModel {
                                hasher: HasherModel {
                                    chunks: hash::with_digest(
                                        before.hasher.chunks,
                                        index as int,
                                        hash::blake3_hex(bytes),
                                    ),
                                    ..before.hasher
                                },
                                ..before
                            };
                            assert(mid =~= GapModel { range: None, ..there });
                            let next = GapModel { index: index + 1, ..mid };
                            assert forall|i: int| 0 <= i < index + 1 && !next.short implies !(
                            #[trigger] chunk_is_gap(next.map, next.hasher, next.domain, i)) by {
                                if i < index {
                                    assert(!chunk_is_gap(
                                        before.map,
                                        before.hasher,
                                        before.domain,
                                        i,
                                    ));
                                    assert(hash::digest_at(next.hasher.chunks, i)
                                        == hash::digest_at(before.hasher.chunks, i));
                                } else {
                                    assert(hash::digest_at(next.hasher.chunks, i) == text@);
                                }
                            }
                        }
                        self.look_from(index + 1, interrupted);
                    } else {
                        self.range = Some(range);
                        proof {
                            assert(self@ =~= before.next(ReadReplyModel::Data(data@), interrupted));
                        }
                    }
                }
            },
        }
    }

    /// What the driver is to do next.
    pub fn action(&self) -> (r: ReadAction)
        requires
            self.wf(),
        ensures
            r == self@.action(),
    {
        match self.outcome {
            Some(outcome) => ReadAction::Stop(outcome),
            None => match &self.range {
                Some(range) => {
                    proof {
                        range.lemma_wf();
                    }
                    ReadAction::ReadTarget {
                        offset: self.seek + range.next_pos(),
                        length: range.want(self.transfer),
                    }
                },
                None => ReadAction::Begin,
            },
        }
    }

    /// The domain position the pending read is at.
    pub fn position(&self) -> (r: u64)
        requires
            self.wf(),
        ensures
            r == (match self@.range {
                Some(range) => range.start + range.bytes.len(),
                None => 0,
            }),
    {
        match &self.range {
            Some(range) => range.next_pos(),
            None => 0,
        }
    }

    /// Hand the map and the manifest back.
    pub fn into_parts(self) -> (r: (RegionMap, ChunkHasher))
        requires
            self.wf(),
        ensures
            r.0.wf(),
            r.0.statuses() == self@.map,
            r.1.wf(),
            r.1@ == self@.hasher,
    {
        (self.map, self.hasher)
    }

    /// A pass that ran to its end leaves no gap: every chunk that is all done has
    /// a digest, unless the target turned out too short for one.
    pub proof fn law_finished_pass_leaves_no_gap(&self, index: int)
        requires
            self.wf(),
            self@.outcome == Some(Outcome::Finished),
            !self@.short,
            0 <= index < self@.count(),
        ensures
            !self@.is_gap(index),
    {
    }

    /// An error-free run leaves a complete manifest: where the whole domain is
    /// done and the target was long enough, a finished pass leaves every chunk
    /// with a digest.
    pub proof fn law_error_free_run_has_a_complete_manifest(&self, index: int)
        requires
            self.wf(),
            self@.outcome == Some(Outcome::Finished),
            !self@.short,
            forall|p: int|
                0 <= p < self@.domain ==> #[trigger] (self@.map)(p) == Some(RegionStatus::Done),
            0 <= index < self@.count(),
        ensures
            hash::digest_at(self@.hasher.chunks, index).len() > 0,
    {
        self.law_finished_pass_leaves_no_gap(index);
        let size = self@.hasher.chunk_size;
        assert(0 <= index * size) by (nonlinear_arith)
            requires
                0 <= index,
                0 <= size,
        ;
        hash::lemma_ceil_div(self@.domain, size, index);
        assert(self@.chunk_end(index) <= self@.domain);
    }
}

/// The digests a pass adds are those of what the target holds: if the bytes read
/// so far are the target's and the reply reports the target's bytes, this stays
/// so, and a digest that changes becomes the digest of the target's chunk.
pub proof fn law_gap_digests_are_of_the_target(
    m: GapModel,
    target: spec_fn(int) -> u8,
    data: Seq<u8>,
    interrupted: bool,
    i: int,
)
    requires
        m.wf(),
        m.range is Some,
        world::holds(target, m.range->0.start, m.range->0.bytes),
        world::holds(target, m.range->0.start + m.range->0.bytes.len(), data),
        0 <= i,
    ensures
        ({
            let next = m.next(ReadReplyModel::Data(data), interrupted);
            &&& next.range matches Some(range) ==> world::holds(target, range.start, range.bytes)
            &&& hash::digest_at(next.hasher.chunks, i) == hash::digest_at(m.hasher.chunks, i) || (i
                == m.index && hash::digest_at(next.hasher.chunks, i) == hash::blake3_hex(
                readback::target_bytes(
                    target,
                    m.chunk_start(i),
                    m.chunk_end(i) - m.chunk_start(i),
                ),
            ))
        }),
{
    let range = m.range->0;
    let used = range.used(m.transfer, data);
    let next = range.with(used);
    assert forall|k: int| 0 <= k < next.bytes.len() implies #[trigger] next.bytes[k] == target(
        range.start + k,
    ) by {
        if k >= range.bytes.len() {
            assert(data[k - range.bytes.len()] == target(
                range.start + range.bytes.len() + (k - range.bytes.len()),
            ));
        } else {
            assert(range.bytes[k] == target(range.start + k));
        }
    }
    if next.is_through() {
        assert(next.bytes =~= readback::target_bytes(target, range.start, range.length));
    }
}

// ---------------------------------------------------------------------------
// Whole passes.

/// A pass: its states from the start on, and the reply and the signal that led from
/// each to the next.
pub struct GapRun {
    pub machine: Seq<GapModel>,
    pub replies: Seq<ReadReplyModel>,
    pub signals: Seq<bool>,
}

impl GapRun {
    /// Each state follows from the one before by a reply that reports what `target`
    /// holds. (That the states are well-formed is what `GapFiller::step` guarantees.)
    pub open spec fn is_run(self, target: spec_fn(int) -> u8) -> bool {
        &&& self.machine.len() == self.replies.len() + 1
        &&& self.signals.len() == self.replies.len()
        &&& forall|i: int| 0 <= i < self.machine.len() ==> (#[trigger] self.machine[i]).wf()
        &&& forall|i: int|
            0 <= i < self.replies.len() ==> self.step_ok(target, i, #[trigger] self.replies[i])
    }

    pub open spec fn step_ok(
        self,
        target: spec_fn(int) -> u8,
        i: int,
        reply: ReadReplyModel,
    ) -> bool {
        &&& self.machine[i].expects(reply)
        &&& honest(self.machine[i], target, reply)
        &&& self.machine[i + 1] == self.machine[i].next(reply, self.signals[i])
    }
}

/// The reply reports what the target holds where the pass reads.
pub open spec fn honest(m: GapModel, target: spec_fn(int) -> u8, reply: ReadReplyModel) -> bool {
    reply matches ReadReplyModel::Data(data) ==> (m.range matches Some(range) ==> world::holds(
        target,
        range.start + range.bytes.len(),
        data,
    ))
}

/// What a pass has done to the digest of chunk `i` since `first`: nothing, or the
/// chunk was a gap and has the digest of what the target holds.
pub open spec fn filled_only(
    first: GapModel,
    m: GapModel,
    target: spec_fn(int) -> u8,
    i: int,
) -> bool {
    hash::digest_at(m.hasher.chunks, i) == hash::digest_at(first.hasher.chunks, i) || {
        &&& first.is_gap(i)
        &&& hash::digest_at(m.hasher.chunks, i) == hash::blake3_hex(
            readback::target_bytes(
                target,
                first.chunk_start(i),
                first.chunk_end(i) - first.chunk_start(i),
            ),
        )
    }
}

/// What every state of a pass keeps.
spec fn on_track(first: GapModel, m: GapModel, target: spec_fn(int) -> u8) -> bool {
    &&& m.map == first.map
    &&& m.domain == first.domain
    &&& m.hasher.chunk_size == first.hasher.chunk_size
    &&& m.range matches Some(range) ==> m.is_gap(m.index) && world::holds(
        target,
        range.start,
        range.bytes,
    )
    &&& forall|i: int| 0 <= i ==> #[trigger] filled_only(first, m, target, i)
}

proof fn lemma_next_gap(map: Statuses, hasher: HasherModel, domain: int, from: int)
    ensures
        next_gap(map, hasher, domain, from) matches Some(index) ==> chunk_is_gap(
            map,
            hasher,
            domain,
            index,
        ),
    decreases hash::ceil_div(domain, hasher.chunk_size) - from,
{
    if from < hash::ceil_div(domain, hasher.chunk_size) && !chunk_is_gap(
        map,
        hasher,
        domain,
        from,
    ) {
        lemma_next_gap(map, hasher, domain, from + 1);
    }
}

proof fn lemma_step_on_track(
    first: GapModel,
    m: GapModel,
    target: spec_fn(int) -> u8,
    reply: ReadReplyModel,
    interrupted: bool,
)
    requires
        m.wf(),
        m.expects(reply),
        honest(m, target, reply),
        on_track(first, m, target),
    ensures
        on_track(first, m.next(reply, interrupted), target),
{
    let next = m.next(reply, interrupted);
    assert forall|i: int| 0 <= i implies #[trigger] filled_only(first, next, target, i) by {
        assert(filled_only(first, m, target, i));
        if let ReadReplyModel::Data(data) = reply {
            law_gap_digests_are_of_the_target(m, target, data, interrupted, i);
        }
    }
    match reply {
        ReadReplyModel::Data(data) => {
            law_gap_digests_are_of_the_target(m, target, data, interrupted, 0);
            lemma_next_gap(next.map, next.hasher, next.domain, m.index + 1);
        },
        ReadReplyModel::Failed => {},
        ReadReplyModel::Done => {
            lemma_next_gap(m.map, m.hasher, m.domain, m.index);
        },
    }
}

proof fn lemma_run_on_track(run: GapRun, target: spec_fn(int) -> u8, i: int)
    requires
        run.is_run(target),
        run.machine[0].range is None,
        0 <= i < run.machine.len(),
    ensures
        on_track(run.machine[0], run.machine[i], target),
    decreases i,
{
    if i > 0 {
        lemma_run_on_track(run, target, i - 1);
        assert(run.machine[i - 1].wf());
        assert(run.step_ok(target, i - 1, run.replies[i - 1]));
        lemma_step_on_track(
            run.machine[0],
            run.machine[i - 1],
            target,
            run.replies[i - 1],
            run.signals[i - 1],
        );
    }
}

/// A pass fills gaps and does nothing else. However it ends, a chunk has a new digest
/// only if it is all done and had none; the new one is that of what the target holds
/// there; every other digest, and the map, are as they were.
pub proof fn law_pass_fills_only_gaps(run: GapRun, target: spec_fn(int) -> u8, i: int)
    requires
        run.is_run(target),
        run.machine[0].range is None,
        0 <= i,
    ensures
        ({
            let (first, last) = (run.machine[0], run.machine.last());
            let (before, after) = (
                hash::digest_at(first.hasher.chunks, i),
                hash::digest_at(last.hasher.chunks, i),
            );
            let (start, end) = (first.chunk_start(i), first.chunk_end(i));
            &&& last.map == first.map
            &&& before.len() > 0 ==> after == before
            &&& after != before ==> {
                &&& forall|p: int|
                    start <= p < end ==> #[trigger] (first.map)(p) == Some(RegionStatus::Done)
                &&& after == hash::blake3_hex(readback::target_bytes(target, start, end - start))
            }
        }),
{
    let last = run.machine.len() - 1;
    lemma_run_on_track(run, target, last);
    assert(filled_only(run.machine[0], run.machine[last], target, i));
}

/// And it fills them all: when a pass from the first chunk on ends, with the target
/// long enough, every gap has the digest of what the target holds there.
pub proof fn law_finished_pass_fills_every_gap(run: GapRun, target: spec_fn(int) -> u8, i: int)
    requires
        run.is_run(target),
        run.machine[0].range is None,
        run.machine.last().outcome == Some(Outcome::Finished),
        !run.machine.last().short,
        0 <= i < run.machine[0].count(),
        run.machine[0].is_gap(i),
    ensures
        ({
            let (first, last) = (run.machine[0], run.machine.last());
            let (start, end) = (first.chunk_start(i), first.chunk_end(i));
            hash::digest_at(last.hasher.chunks, i) == hash::blake3_hex(
                readback::target_bytes(target, start, end - start),
            )
        }),
{
    let last = run.machine.len() - 1;
    lemma_run_on_track(run, target, last);
    assert(filled_only(run.machine[0], run.machine[last], target, i));
    assert(run.machine[last].wf());
    assert(!chunk_is_gap(
        run.machine[last].map,
        run.machine[last].hasher,
        run.machine[last].domain,
        i,
    ));
}

// ---------------------------------------------------------------------------
// How a pass ends.

proof fn lemma_next_gap_is_ahead(map: Statuses, hasher: HasherModel, domain: int, from: int)
    ensures
        next_gap(map, hasher, domain, from) matches Some(index) ==> from <= index
            < hash::ceil_div(domain, hasher.chunk_size),
    decreases hash::ceil_div(domain, hasher.chunk_size) - from,
{
    if from < hash::ceil_div(domain, hasher.chunk_size) && !chunk_is_gap(
        map,
        hasher,
        domain,
        from,
    ) {
        lemma_next_gap_is_ahead(map, hasher, domain, from + 1);
    }
}

/// Only a signal interrupts a pass, and only between chunks: a chunk that has been begun is
/// read, and no other is begun. An interrupted pass has chunks left, and only a failure
/// fails it.
pub proof fn law_signals_stop_gap_filling(m: GapModel, reply: ReadReplyModel, interrupted: bool)
    requires
        m.wf(),
        m.expects(reply),
    ensures
        ({
            let next = m.next(reply, interrupted);
            &&& interrupted && next.outcome is None ==> m.range is Some && next.index == m.index
            &&& next.outcome == Some(Outcome::Interrupted) ==> interrupted && next.index
                < next.count()
            &&& next.outcome == Some(Outcome::Failed) <==> reply is Failed
            &&& next.outcome == Some(Outcome::Finished) ==> next.index == next.count()
        }),
{
    lemma_next_gap_is_ahead(m.map, m.hasher, m.domain, m.index);
}

/// Counts what is left of a pass: whether it is to go on, the chunks ahead, whether a chunk
/// is to be begun, and the bytes of it.
pub open spec fn rest_of(m: GapModel) -> (int, int, int, int) {
    (
        if m.outcome is None {
            1
        } else {
            0
        },
        if m.index < m.count() {
            m.count() - m.index
        } else {
            0
        },
        if m.range is Some {
            0
        } else {
            1
        },
        match m.range {
            Some(range) => if range.bytes.len() < range.length {
                range.length - range.bytes.len()
            } else {
                0
            },
            None => 0,
        },
    )
}

/// Every pass ends: each answer leaves less of it.
#[verifier::rlimit(40)]
pub proof fn law_every_gap_pass_ends(m: GapModel, reply: ReadReplyModel, interrupted: bool)
    requires
        m.wf(),
        m.expects(reply),
    ensures
        decreases_to!(rest_of(m).0, rest_of(m).1, rest_of(m).2, rest_of(m).3 =>
            rest_of(m.next(reply, interrupted)).0, rest_of(m.next(reply, interrupted)).1,
            rest_of(m.next(reply, interrupted)).2, rest_of(m.next(reply, interrupted)).3),
{
    lemma_next_gap_is_ahead(m.map, m.hasher, m.domain, m.index);
    lemma_next_gap_is_ahead(m.map, m.hasher, m.domain, m.index + 1);
    match (reply, m.range) {
        (ReadReplyModel::Data(data), Some(range)) => {
            let used = range.used(m.transfer, data);
            let next = range.with(used);
            let hasher = HasherModel {
                chunks: hash::with_digest(
                    m.hasher.chunks,
                    m.index,
                    hash::blake3_hex(next.bytes),
                ),
                ..m.hasher
            };
            lemma_next_gap_is_ahead(m.map, hasher, m.domain, m.index + 1);
        },
        _ => {},
    }
}

/// A target that is too short for one chunk is still read for the others: the pass goes on
/// to the next gap, and passes over none.
#[verifier::rlimit(40)]
pub proof fn law_short_target_costs_one_chunk(m: GapModel, data: Seq<u8>, i: int)
    requires
        m.wf(),
        m.range is Some,
        m.outcome is None,
        data.len() == 0,
        m.index < i,
    ensures
        ({
            let next = m.next(ReadReplyModel::Data(data), false);
            &&& next.short
            &&& next.hasher == m.hasher
            &&& i < next.index ==> !m.is_gap(i)
            &&& next.outcome is None ==> m.is_gap(next.index)
            &&& m.is_gap(i) && i < m.count() ==> next.outcome is None && next.index <= i
        }),
{
    let range = m.range->0;
    assert(range.used(m.transfer, data) =~= Seq::<u8>::empty());
    lemma_next_gap(m.map, m.hasher, m.domain, m.index + 1);
    lemma_next_gap_is_first(m.map, m.hasher, m.domain, m.index + 1, i);
}

proof fn lemma_next_gap_is_first(
    map: Statuses,
    hasher: HasherModel,
    domain: int,
    from: int,
    i: int,
)
    requires
        from <= i,
    ensures
        chunk_is_gap(map, hasher, domain, i) && i < hash::ceil_div(domain, hasher.chunk_size)
            ==> next_gap(map, hasher, domain, from) is Some && next_gap(map, hasher, domain, from)->0
            <= i,
        i >= hash::ceil_div(domain, hasher.chunk_size) && next_gap(map, hasher, domain, from) is Some
            ==> next_gap(map, hasher, domain, from)->0 <= i,
    decreases hash::ceil_div(domain, hasher.chunk_size) - from,
{
    if from < hash::ceil_div(domain, hasher.chunk_size) && !chunk_is_gap(
        map,
        hasher,
        domain,
        from,
    ) {
        if from < i {
            lemma_next_gap_is_first(map, hasher, domain, from + 1, i);
        } else {
            lemma_next_gap_is_ahead(map, hasher, domain, from + 1);
        }
    }
}

} // verus!
