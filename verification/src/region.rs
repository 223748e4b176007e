//! The region map: a sorted, non-overlapping list of extents that records the
//! status of every byte in the copy domain. A fully copied disk collapses to a
//! single `Done` region. This is the data structure that makes resume and
//! error-aware retry possible.
//!
//! The map is specified byte by byte: [`status_in`] says which status a byte
//! has, every operation is stated in terms of it, and a map in normal form is
//! determined by it (see [`law_normal_form_is_unique`]).

use vstd::prelude::*;

verus! {

/// Status of a contiguous run of bytes in the copy domain.
#[derive(Debug, Clone, Copy, PartialEq, Eq, Structural)]
pub enum RegionStatus {
    /// Not yet attempted.
    Untried,
    /// Successfully read and written.
    Done,
    /// A read error occurred here.
    Bad,
}

/// A contiguous extent in domain coordinates (offsets relative to `skip`).
#[derive(Debug, Clone, Copy, PartialEq, Eq, Structural)]
pub struct Region {
    pub start: u64,
    pub length: u64,
    pub status: RegionStatus,
}

impl Region {
    /// One past the last byte of this region, as a mathematical integer.
    pub open spec fn spec_end(self) -> int {
        self.start + self.length
    }

    /// Whether byte `p` belongs to this region.
    pub open spec fn has(self, p: int) -> bool {
        self.start <= p < self.spec_end()
    }

    /// A region a map can hold: not empty, and ending within `u64`.
    pub open spec fn valid(self) -> bool {
        0 < self.length && self.spec_end() <= u64::MAX
    }

    /// One past the last byte of this region.
    pub fn end(&self) -> (r: u64)
        requires
            self.spec_end() <= u64::MAX,
        ensures
            r == self.spec_end(),
    {
        self.start + self.length
    }
}

/// Whether some region of `rs` holds byte `p`.
pub open spec fn is_covered(rs: Seq<Region>, p: int) -> bool {
    exists|i: int| 0 <= i < rs.len() && (#[trigger] rs[i]).has(p)
}

/// The status of byte `p`, or `None` where no region holds it.
pub open spec fn status_in(rs: Seq<Region>, p: int) -> Option<RegionStatus> {
    if is_covered(rs, p) {
        Some(rs[choose|i: int| 0 <= i < rs.len() && (#[trigger] rs[i]).has(p)].status)
    } else {
        None
    }
}

/// Regions in ascending order, each valid, none overlapping another.
pub open spec fn ordered(rs: Seq<Region>) -> bool {
    &&& forall|i: int| 0 <= i < rs.len() ==> (#[trigger] rs[i]).valid()
    &&& forall|i: int, j: int|
        0 <= i < j < rs.len() ==> (#[trigger] rs[i]).spec_end() <= (#[trigger] rs[j]).start
}

/// Normal form: ordered, and touching neighbours differ in status.
pub open spec fn normal(rs: Seq<Region>) -> bool {
    &&& ordered(rs)
    &&& forall|i: int, j: int|
        0 <= i && j == i + 1 && j < rs.len() && (#[trigger] rs[i]).spec_end() == (
        #[trigger] rs[j]).start ==> rs[i].status != rs[j].status
}

/// Whether two regions share a byte.
pub open spec fn overlap(a: Region, b: Region) -> bool {
    a.start < b.spec_end() && b.start < a.spec_end() && a.length > 0 && b.length > 0
}

/// A list of regions in any order, as a state file may hold it: every end fits
/// in `u64` and no byte is claimed twice. Empty regions are allowed.
pub open spec fn disjoint(rs: Seq<Region>) -> bool {
    &&& forall|i: int| 0 <= i < rs.len() ==> (#[trigger] rs[i]).spec_end() <= u64::MAX
    &&& forall|i: int, j: int|
        0 <= i < j < rs.len() ==> !overlap(#[trigger] rs[i], #[trigger] rs[j])
}

/// A byte-wise reading of a map: the status of each byte.
pub type Statuses = spec_fn(int) -> Option<RegionStatus>;

/// Whether `[start, end)` is the first maximal run of bytes in `status` at or
/// after `from`.
pub open spec fn is_next_span(
    map: Statuses,
    status: RegionStatus,
    from: int,
    start: int,
    end: int,
) -> bool {
    &&& from <= start < end
    &&& forall|p: int| from <= p < start ==> #[trigger] map(p) != Some(status)
    &&& forall|p: int| start <= p < end ==> #[trigger] map(p) == Some(status)
    &&& map(end) != Some(status)
}

/// The first maximal run of bytes in `status` at or after `from`.
pub open spec fn next_span(map: Statuses, status: RegionStatus, from: int) -> Option<(int, int)> {
    if exists|start: int, end: int| is_next_span(map, status, from, start, end) {
        let (start, end) = choose|start: int, end: int|
            is_next_span(map, status, from, start, end);
        Some((start, end))
    } else {
        None
    }
}

/// The span is the only one of its kind.
pub proof fn lemma_next_span(
    map: Statuses,
    status: RegionStatus,
    from: int,
    start: int,
    end: int,
)
    requires
        is_next_span(map, status, from, start, end),
    ensures
        next_span(map, status, from) == Some((start, end)),
{
    let (s, e) = choose|s: int, e: int| is_next_span(map, status, from, s, e);
    assert(map(s) == Some(status) && map(start) == Some(status));
    if s < start {
        assert(map(s) != Some(status));
    } else if start < s {
        assert(map(start) != Some(status));
    }
    if e < end {
        assert(map(e) == Some(status));
    } else if end < e {
        assert(map(end) == Some(status));
    }
}

/// What is found is a span.
pub proof fn lemma_is_span(map: Statuses, status: RegionStatus, from: int)
    ensures
        next_span(map, status, from) matches Some((start, end)) ==> is_next_span(
            map,
            status,
            from,
            start,
            end,
        ),
{
}

/// A byte in `status` at or after `from` is found, where the map covers a
/// bounded stretch.
pub proof fn lemma_next_span_exists(
    map: Statuses,
    status: RegionStatus,
    from: int,
    p: int,
    bound: int,
)
    requires
        from <= p,
        map(p) == Some(status),
        forall|q: int| bound <= q ==> #[trigger] map(q) is None,
    ensures
        next_span(map, status, from) is Some,
{
    let start = lemma_least(map, status, from, p);
    let end = lemma_run_end(map, status, start, bound);
    assert(is_next_span(map, status, from, start, end));
}

proof fn lemma_least(map: Statuses, status: RegionStatus, from: int, p: int) -> (start: int)
    requires
        from <= p,
        map(p) == Some(status),
    ensures
        from <= start <= p,
        map(start) == Some(status),
        forall|q: int| from <= q < start ==> #[trigger] map(q) != Some(status),
    decreases p - from,
{
    if map(from) == Some(status) {
        from
    } else {
        lemma_least(map, status, from + 1, p)
    }
}

proof fn lemma_run_end(map: Statuses, status: RegionStatus, start: int, bound: int) -> (end: int)
    requires
        map(start) == Some(status),
        forall|q: int| bound <= q ==> #[trigger] map(q) is None,
    ensures
        start < end,
        map(end) != Some(status),
        forall|q: int| start <= q < end ==> #[trigger] map(q) == Some(status),
    decreases bound - start,
{
    if map(start + 1) == Some(status) {
        let end = lemma_run_end(map, status, start + 1, bound);
        assert forall|q: int| start <= q < end implies #[trigger] map(q) == Some(status) by {
            if q > start {
                assert(map(q) == Some(status));
            }
        }
        end
    } else {
        start + 1
    }
}

/// `map` with `[start, start + length)` set to `status`.
pub open spec fn marked(map: Statuses, start: int, length: int, status: RegionStatus) -> Statuses {
    |p: int| if start <= p < start + length { Some(status) } else { map(p) }
}

/// Total number of bytes of `rs` in `status`.
pub open spec fn bytes_in(rs: Seq<Region>, status: RegionStatus) -> nat
    decreases rs.len(),
{
    if rs.len() == 0 {
        0
    } else {
        bytes_in(rs.drop_last(), status) + if rs.last().status == status {
            rs.last().length as nat
        } else {
            0
        }
    }
}

/// One past the last covered byte of an ordered list, `0` when it is empty.
pub open spec fn end_of(rs: Seq<Region>) -> int {
    if rs.len() == 0 {
        0
    } else {
        rs.last().spec_end()
    }
}

/// The regions of `rs` in `status`, in order.
pub open spec fn with_status(rs: Seq<Region>, status: RegionStatus) -> Seq<Region> {
    rs.filter(|r: Region| r.status == status)
}

// ---------------------------------------------------------------------------
// Lemmas on the byte-wise reading of a list of regions.

pub proof fn lemma_status_of(rs: Seq<Region>, i: int, p: int)
    requires
        ordered(rs),
        0 <= i < rs.len(),
        rs[i].has(p),
    ensures
        status_in(rs, p) == Some(rs[i].status),
{
    let k = choose|k: int| 0 <= k < rs.len() && (#[trigger] rs[k]).has(p);
    assert(rs[i].has(p));
    if k < i {
        assert(rs[k].spec_end() <= rs[i].start);
    } else if i < k {
        assert(rs[i].spec_end() <= rs[k].start);
    }
}

/// The region that holds a covered byte.
pub proof fn lemma_region_of(rs: Seq<Region>, p: int) -> (i: int)
    requires
        status_in(rs, p) is Some,
    ensures
        0 <= i < rs.len(),
        rs[i].has(p),
        status_in(rs, p) == Some(rs[i].status),
{
    choose|i: int| 0 <= i < rs.len() && (#[trigger] rs[i]).has(p)
}

proof fn lemma_status_push(rs: Seq<Region>, r: Region, p: int)
    requires
        ordered(rs.push(r)),
    ensures
        ordered(rs),
        status_in(rs.push(r), p) == (if r.has(p) {
            Some(r.status)
        } else {
            status_in(rs, p)
        }),
{
    let n = rs.push(r);
    assert forall|i: int| 0 <= i < rs.len() implies (#[trigger] rs[i]).valid() by {
        assert(n[i].valid());
    }
    assert forall|i: int, j: int| 0 <= i < j < rs.len() implies (#[trigger] rs[i]).spec_end() <= (
    #[trigger] rs[j]).start by {
        assert(n[i].spec_end() <= n[j].start);
    }
    if r.has(p) {
        assert(n[rs.len() as int].has(p));
        lemma_status_of(n, rs.len() as int, p);
    } else if is_covered(rs, p) {
        let i = lemma_region_of(rs, p);
        assert(n[i].has(p));
        lemma_status_of(n, i, p);
    } else if is_covered(n, p) {
        let i = lemma_region_of(n, p);
        assert(rs[i].has(p));
    }
}

/// A byte at or past the end of an ordered list has no status.
pub proof fn lemma_past_the_end(rs: Seq<Region>, p: int)
    requires
        ordered(rs),
        end_of(rs) <= p,
    ensures
        status_in(rs, p) is None,
{
    if is_covered(rs, p) {
        let i = lemma_region_of(rs, p);
        if i < rs.len() - 1 {
            assert(rs[i].spec_end() <= rs[rs.len() - 1].start);
        }
    }
}

proof fn lemma_ordered_push(rs: Seq<Region>, r: Region)
    requires
        ordered(rs),
        r.valid(),
        end_of(rs) <= r.start,
    ensures
        ordered(rs.push(r)),
{
    let n = rs.push(r);
    assert forall|i: int, j: int| 0 <= i < j < n.len() implies (#[trigger] n[i]).spec_end() <= (
    #[trigger] n[j]).start by {
        if j == rs.len() && i < rs.len() - 1 {
            assert(rs[i].spec_end() <= rs[rs.len() - 1].start);
        }
    }
}

/// Growing the last region to a longer one.
proof fn lemma_status_grow(rs: Seq<Region>, length: u64, p: int)
    requires
        ordered(rs),
        rs.len() > 0,
        rs.last().length <= length,
        rs.last().start + length <= u64::MAX,
    ensures
        ({
            let last = Region { length, ..rs.last() };
            let n = rs.update(rs.len() - 1, last);
            &&& ordered(n)
            &&& status_in(n, p) == (if rs.last().spec_end() <= p < last.spec_end() {
                Some(last.status)
            } else {
                status_in(rs, p)
            })
        }),
{
    let last = Region { length, ..rs.last() };
    let n = rs.update(rs.len() - 1, last);
    let front = rs.drop_last();
    assert(rs =~= front.push(rs.last()));
    assert(n =~= front.push(last));
    assert forall|i: int, j: int| 0 <= i < j < n.len() implies (#[trigger] n[i]).spec_end() <= (
    #[trigger] n[j]).start by {
        assert(rs[i].spec_end() <= rs[j].start);
    }
    assert forall|i: int| 0 <= i < n.len() implies (#[trigger] n[i]).valid() by {
        assert(rs[i].valid());
    }
    lemma_status_push(front, rs.last(), p);
    lemma_status_push(front, last, p);
    if last.has(p) && !rs.last().has(p) {
        lemma_past_the_end(rs, p);
    }
}

proof fn lemma_bytes_bounded(rs: Seq<Region>, status: RegionStatus)
    requires
        ordered(rs),
    ensures
        bytes_in(rs, status) <= end_of(rs),
    decreases rs.len(),
{
    if rs.len() > 0 {
        let front = rs.drop_last();
        assert forall|i: int| 0 <= i < front.len() implies (#[trigger] front[i]).valid() by {
            assert(rs[i].valid());
        }
        assert forall|i: int, j: int|
            0 <= i < j < front.len() implies (#[trigger] front[i]).spec_end() <= (
        #[trigger] front[j]).start by {
            assert(rs[i].spec_end() <= rs[j].start);
        }
        lemma_bytes_bounded(front, status);
        if front.len() > 0 {
            assert(rs[front.len() - 1].spec_end() <= rs[rs.len() - 1].start);
        }
    }
}

// ---------------------------------------------------------------------------
// The map.

/// A normalised collection of regions: sorted by `start`, non-overlapping, with
/// adjacent same-status regions merged.
#[derive(Debug, Clone, PartialEq, Eq)]
pub struct RegionMap {
    regions: Vec<Region>,
}

impl View for RegionMap {
    type V = Seq<Region>;

    closed spec fn view(&self) -> Seq<Region> {
        self.regions@
    }
}

impl Default for RegionMap {
    /// The empty map.
    fn default() -> (r: Self)
        ensures
            r@ == Seq::<Region>::empty(),
            r.wf(),
    {
        RegionMap { regions: Vec::new() }
    }
}

impl RegionMap {
    /// The map is in normal form.
    pub open spec fn wf(&self) -> bool {
        normal(self@)
    }

    /// The status of byte `p`, or `None` where the map does not cover it.
    pub open spec fn status_at(&self, p: int) -> Option<RegionStatus> {
        status_in(self@, p)
    }

    /// The map read byte by byte.
    pub open spec fn statuses(&self) -> Statuses {
        |p: int| status_in(self@, p)
    }

    /// A map covering `[0, total)` as a single `Untried` region (empty if
    /// `total == 0`, e.g. for a source of unknown size).
    pub fn from_total(total: u64) -> (r: Self)
        ensures
            r.wf(),
            r@ == (if total > 0 {
                seq![Region { start: 0, length: total, status: RegionStatus::Untried }]
            } else {
                Seq::<Region>::empty()
            }),
            forall|p: int|
                #[trigger] r.status_at(p) == (if 0 <= p < total {
                    Some(RegionStatus::Untried)
                } else {
                    None
                }),
    {
        let mut regions: Vec<Region> = Vec::new();
        if total > 0 {
            regions.push(Region { start: 0, length: total, status: RegionStatus::Untried });
        }
        let map = RegionMap { regions };
        proof {
            assert forall|p: int| #[trigger] map.status_at(p) == (if 0 <= p < total {
                Some(RegionStatus::Untried)
            } else {
                None
            }) by {
                if 0 <= p < total {
                    lemma_status_of(map@, 0, p);
                }
            }
        }
        map
    }

    /// Build a normalised map from a (possibly unsorted) list of regions, as
    /// loaded from a state file. The input must not overlap; empty regions are
    /// dropped.
    pub fn from_regions(regions: Vec<Region>) -> (r: Self)
        requires
            disjoint(regions@),
        ensures
            r.wf(),
            forall|p: int| #[trigger] r.status_at(p) == status_in(regions@, p),
    {
        let sorted = sort_by_start(&regions);
        let merged = merge_adjacent(&sorted);
        RegionMap { regions: merged }
    }

    /// Set the status of `[start, start + length)`, splitting any regions that
    /// straddle the boundaries and merging neighbours of equal status.
    pub fn mark(&mut self, start: u64, length: u64, status: RegionStatus)
        requires
            old(self).wf(),
            start + length <= u64::MAX,
        ensures
            final(self).wf(),
            forall|p: int|
                #[trigger] final(self).status_at(p) == (if start <= p < start + length {
                    Some(status)
                } else {
                    old(self).status_at(p)
                }),
            final(self).statuses() == marked(
                old(self).statuses(),
                start as int,
                length as int,
                status,
            ),
    {
        if length == 0 {
            proof {
                assert(self.statuses() =~= marked(self.statuses(), start as int, 0, status));
            }
            return ;
        }
        let end = start + length;
        let mut next = parts_before(&self.regions, start);
        let ghost below = next@;
        let region = Region { start, length, status };
        proof {
            lemma_ordered_push(next@, region);
        }
        next.push(region);
        let ghost upto = next@;
        append_parts_from(&mut next, &self.regions, end);
        let ghost all = next@;
        self.regions = merge_adjacent(&next);
        proof {
            assert forall|p: int| #[trigger] self.status_at(p) == (if start <= p < end {
                Some(status)
            } else {
                old(self).status_at(p)
            }) by {
                lemma_status_push(below, region, p);
                assert(status_in(all, p) == status_in(self@, p));
                assert(status_in(below, p) == if p < start {
                    status_in(old(self)@, p)
                } else {
                    None
                });
            }
            assert forall|p: int| #[trigger] (self.statuses())(p) == marked(
                old(self).statuses(),
                start as int,
                length as int,
                status,
            )(p) by {
                assert(self.status_at(p) == status_in(self@, p));
            }
            assert(self.statuses() =~= marked(
                old(self).statuses(),
                start as int,
                length as int,
                status,
            ));
        }
    }

    /// Turn every byte in status `from` into status `to`.
    pub fn reset(&mut self, from: RegionStatus, to: RegionStatus)
        requires
            old(self).wf(),
        ensures
            final(self).wf(),
            forall|p: int|
                #[trigger] final(self).status_at(p) == (if old(self).status_at(p) == Some(from) {
                    Some(to)
                } else {
                    old(self).status_at(p)
                }),
    {
        let mut next: Vec<Region> = Vec::new();
        let ghost before = self@;
        for i in 0..self.regions.len()
            invariant
                before == self@,
                ordered(before),
                next@.len() == i,
                forall|j: int|
                    0 <= j < i ==> #[trigger] next@[j] == (Region {
                        status: if before[j].status == from { to } else { before[j].status },
                        ..before[j]
                    }),
        {
            let r = self.regions[i];
            let status = if r.status == from { to } else { r.status };
            next.push(Region { start: r.start, length: r.length, status });
        }
        proof {
            assert(ordered(next@)) by {
                assert forall|i: int| 0 <= i < next@.len() implies (#[trigger] next@[i]).valid() by {
                    assert(before[i].valid());
                }
                assert forall|i: int, j: int|
                    0 <= i < j < next@.len() implies (#[trigger] next@[i]).spec_end() <= (
                #[trigger] next@[j]).start by {
                    assert(before[i].spec_end() <= before[j].start);
                }
            }
        }
        let ghost all = next@;
        self.regions = merge_adjacent(&next);
        proof {
            assert forall|p: int| #[trigger] self.status_at(p) == (if status_in(before, p) == Some(
                from,
            ) {
                Some(to)
            } else {
                status_in(before, p)
            }) by {
                assert(status_in(all, p) == status_in(self@, p));
                if is_covered(before, p) {
                    let i = lemma_region_of(before, p);
                    assert(all[i].has(p));
                    lemma_status_of(all, i, p);
                } else if is_covered(all, p) {
                    let i = lemma_region_of(all, p);
                    assert(before[i].has(p));
                }
            }
        }
    }

    /// The regions currently in `status`, in order.
    pub fn regions_with(&self, status: RegionStatus) -> (r: Vec<Region>)
        ensures
            r@ == with_status(self@, status),
    {
        let mut out: Vec<Region> = Vec::new();
        let ghost pred = |r: Region| r.status == status;
        assert(self@.take(0).filter(pred) =~= Seq::<Region>::empty()) by {
            reveal(Seq::filter);
        }
        for i in 0..self.regions.len()
            invariant
                pred == (|r: Region| r.status == status),
                out@ == self@.take(i as int).filter(pred),
        {
            proof {
                reveal(Seq::filter);
                assert(self@.take(i + 1).drop_last() =~= self@.take(i as int));
            }
            if self.regions[i].status == status {
                out.push(self.regions[i]);
            }
        }
        assert(self@.take(self@.len() as int) =~= self@);
        out
    }

    /// Total number of bytes currently in `status`.
    pub fn bytes_with(&self, status: RegionStatus) -> (r: u64)
        requires
            self.wf(),
        ensures
            r == bytes_in(self@, status),
    {
        let mut total: u64 = 0;
        for i in 0..self.regions.len()
            invariant
                self.wf(),
                total == bytes_in(self@.take(i as int), status),
        {
            proof {
                let front = self@.take(i + 1);
                assert(front.drop_last() =~= self@.take(i as int));
                assert(front.last() == self@[i as int]);
                assert(ordered(front)) by {
                    assert forall|k: int| 0 <= k < front.len() implies (#[trigger] front[k]).valid() by {
                        assert(self@[k].valid());
                    }
                    assert forall|k: int, j: int|
                        0 <= k < j < front.len() implies (#[trigger] front[k]).spec_end() <= (
                    #[trigger] front[j]).start by {
                        assert(self@[k].spec_end() <= self@[j].start);
                    }
                }
                lemma_bytes_bounded(front, status);
                assert(self@[i as int].valid());
            }
            if self.regions[i].status == status {
                total = total + self.regions[i].length;
            }
        }
        assert(self@.take(self@.len() as int) =~= self@);
        total
    }

    /// Reconcile the map with a copy domain of `domain` bytes: clip regions
    /// that reach beyond it and fill uncovered gaps (interior or tail) as
    /// `Untried`. Needed when a resumed state file was recorded against a
    /// different domain (a larger `--length`, or a source that changed size),
    /// so the new tail is actually copied and an out-of-domain remainder is
    /// not. A `domain` of `0` means "unknown size" and leaves the map alone.
    pub fn reconcile(&mut self, domain: u64)
        requires
            old(self).wf(),
        ensures
            final(self).wf(),
            domain == 0 ==> final(self)@ == old(self)@,
            domain > 0 ==> forall|p: int|
                #[trigger] final(self).status_at(p) == (if 0 <= p < domain {
                    if old(self).status_at(p) is Some {
                        old(self).status_at(p)
                    } else {
                        Some(RegionStatus::Untried)
                    }
                } else {
                    None
                }),
    {
        if domain == 0 {
            return ;
        }
        let clipped = parts_before(&self.regions, domain);
        let ghost kept = clipped@;
        let mut next: Vec<Region> = Vec::new();
        let mut pos: u64 = 0;
        for i in 0..clipped.len()
            invariant
                kept == clipped@,
                ordered(kept),
                forall|k: int| 0 <= k < kept.len() ==> (#[trigger] kept[k]).spec_end() <= domain,
                ordered(next@),
                end_of(next@) == pos,
                pos <= domain,
                i > 0 ==> pos == kept[i - 1].spec_end(),
                i == 0 ==> pos == 0,
                forall|p: int|
                    #[trigger] status_in(next@, p) == (if 0 <= p < pos {
                        if status_in(kept, p) is Some {
                            status_in(kept, p)
                        } else {
                            Some(RegionStatus::Untried)
                        }
                    } else {
                        None
                    }),
        {
            let r = clipped[i];
            proof {
                assert(kept[i as int].valid());
                if i > 0 {
                    assert(kept[i - 1].spec_end() <= kept[i as int].start);
                }
            }
            let ghost s0 = next@;
            if r.start > pos {
                let gap = Region { start: pos, length: r.start - pos, status: RegionStatus::Untried };
                proof {
                    lemma_ordered_push(s0, gap);
                }
                next.push(gap);
                proof {
                    assert forall|p: int| #[trigger] status_in(next@, p) == (if gap.has(p) {
                        Some(RegionStatus::Untried)
                    } else {
                        status_in(s0, p)
                    }) by {
                        lemma_status_push(s0, gap, p);
                    }
                }
            }
            let ghost s1 = next@;
            proof {
                lemma_ordered_push(s1, r);
            }
            next.push(r);
            let ghost prev = pos;
            pos = r.end();
            proof {
                assert forall|p: int| #[trigger] status_in(next@, p) == (if 0 <= p < pos {
                    if status_in(kept, p) is Some {
                        status_in(kept, p)
                    } else {
                        Some(RegionStatus::Untried)
                    }
                } else {
                    None
                }) by {
                    lemma_status_push(s1, r, p);
                    if r.has(p) {
                        lemma_status_of(kept, i as int, p);
                    } else if prev <= p < r.start {
                        if is_covered(kept, p) {
                            let k = lemma_region_of(kept, p);
                            if k < i - 1 {
                                assert(kept[k].spec_end() <= kept[i - 1].start);
                            } else if k > i {
                                assert(kept[i as int].spec_end() <= kept[k].start);
                            }
                        }
                    }
                }
            }
        }
        let ghost s0 = next@;
        if pos < domain {
            let tail = Region { start: pos, length: domain - pos, status: RegionStatus::Untried };
            proof {
                lemma_ordered_push(s0, tail);
            }
            next.push(tail);
            proof {
                assert forall|p: int| #[trigger] status_in(next@, p) == (if tail.has(p) {
                    Some(RegionStatus::Untried)
                } else {
                    status_in(s0, p)
                }) by {
                    lemma_status_push(s0, tail, p);
                }
            }
        }
        let ghost all = next@;
        self.regions = merge_adjacent(&next);
        proof {
            assert forall|p: int| #[trigger] self.status_at(p) == (if 0 <= p < domain {
                if old(self).status_at(p) is Some {
                    old(self).status_at(p)
                } else {
                    Some(RegionStatus::Untried)
                }
            } else {
                None
            }) by {
                assert(status_in(all, p) == status_in(self@, p));
                assert(status_in(kept, p) == if p < domain {
                    status_in(old(self)@, p)
                } else {
                    None
                });
                if pos <= p && is_covered(kept, p) {
                    lemma_past_the_end(kept, p);
                }
            }
        }
    }

    /// The first stretch of bytes in `status` at or after `from`, as `(start,
    /// end)`.
    pub fn next_with(&self, status: RegionStatus, from: u64) -> (r: Option<(u64, u64)>)
        requires
            self.wf(),
        ensures
            r is Some <==> next_span(self.statuses(), status, from as int) is Some,
            r matches Some((start, end)) ==> next_span(self.statuses(), status, from as int)
                == Some((start as int, end as int)),
    {
        let ghost f = self.statuses();
        for i in 0..self.regions.len()
            invariant
                self.wf(),
                f == self.statuses(),
                forall|k: int|
                    0 <= k < i ==> (#[trigger] self@[k]).spec_end() <= from || self@[k].status
                        != status,
        {
            let r = self.regions[i];
            proof {
                assert(self@[i as int].valid());
            }
            if r.status == status && r.end() > from {
                let start = if r.start < from { from } else { r.start };
                proof {
                    let end = r.spec_end();
                    assert forall|p: int| from <= p < start implies #[trigger] f(p) != Some(
                        status,
                    ) by {
                        if is_covered(self@, p) {
                            let k = lemma_region_of(self@, p);
                            if k > i {
                                assert(self@[i as int].spec_end() <= self@[k].start);
                            }
                        }
                    }
                    assert forall|p: int| start <= p < end implies #[trigger] f(p) == Some(
                        status,
                    ) by {
                        lemma_status_of(self@, i as int, p);
                    }
                    assert(f(end) != Some(status)) by {
                        if is_covered(self@, end) {
                            let k = lemma_region_of(self@, end);
                            if k < i {
                                assert(self@[k].spec_end() <= self@[i as int].start);
                            } else if k > i + 1 {
                                assert(self@[i as int].spec_end() <= self@[i + 1].start);
                                assert(self@[i + 1].valid());
                                assert(self@[i + 1].spec_end() <= self@[k].start);
                            } else {
                                assert(self@[i as int].spec_end() <= self@[i + 1].start);
                            }
                        }
                    }
                    assert(is_next_span(f, status, from as int, start as int, end));
                    lemma_next_span(f, status, from as int, start as int, end);
                }
                return Some((start, r.end()));
            }
        }
        proof {
            if next_span(f, status, from as int) is Some {
                let (s, e) = choose|s: int, e: int| is_next_span(f, status, from as int, s, e);
                assert(f(s) == Some(status));
                let k = lemma_region_of(self@, s);
                assert(self@[k].spec_end() <= from || self@[k].status != status);
            }
        }
        None
    }

    /// One past the last covered byte, or `0` when empty.
    pub fn covered_end(&self) -> (r: u64)
        requires
            self.wf(),
        ensures
            r == end_of(self@),
    {
        let n = self.regions.len();
        if n == 0 {
            0
        } else {
            assert(self@[n - 1].valid());
            self.regions[n - 1].end()
        }
    }

    /// Whether every byte of `[start, end)` currently has `status`. An empty
    /// range is trivially covered.
    pub fn covers(&self, start: u64, end: u64, status: RegionStatus) -> (r: bool)
        requires
            self.wf(),
        ensures
            r == (forall|p: int| start <= p < end ==> #[trigger] self.status_at(p) == Some(status)),
    {
        let mut pos = start;
        for i in 0..self.regions.len()
            invariant
                self.wf(),
                start <= pos,
                forall|p: int| start <= p < pos ==> #[trigger] self.status_at(p) == Some(status),
                forall|k: int| 0 <= k < i ==> (#[trigger] self@[k]).spec_end() <= pos || pos >= end,
        {
            if pos < end {
                let r = self.regions[i];
                proof {
                    assert(self@[i as int].valid());
                }
                if r.end() > pos {
                    if r.start > pos || r.status != status {
                        proof {
                            if r.start > pos {
                                assert(self.status_at(pos as int) != Some(status)) by {
                                    if is_covered(self@, pos as int) {
                                        let k = lemma_region_of(self@, pos as int);
                                        if k > i {
                                            assert(self@[i as int].spec_end() <= self@[k].start);
                                        }
                                    }
                                }
                            } else {
                                lemma_status_of(self@, i as int, pos as int);
                            }
                            assert(self.status_at(pos as int) != Some(status));
                        }
                        return false;
                    }
                    let ghost prev = pos;
                    pos = r.end();
                    proof {
                        assert forall|p: int| start <= p < pos implies #[trigger] self.status_at(p)
                            == Some(status) by {
                            if prev <= p {
                                lemma_status_of(self@, i as int, p);
                            }
                        }
                    }
                }
            }
        }
        if pos < end {
            proof {
                assert(self.status_at(pos as int) is None) by {
                    if is_covered(self@, pos as int) {
                        let k = lemma_region_of(self@, pos as int);
                        assert(self@[k].spec_end() <= pos);
                    }
                }
            }
            return false;
        }
        true
    }

    /// Read-only view of the underlying regions.
    pub fn regions(&self) -> (r: &[Region])
        ensures
            r@ == self@,
    {
        self.regions.as_slice()
    }
}

/// Whether the map is free of overlaps and overflow, so that
/// [`RegionMap::from_regions`] accepts it.
pub fn regions_are_disjoint(regions: &[Region]) -> (r: bool)
    ensures
        r == disjoint(regions@),
{
    for i in 0..regions.len()
        invariant
            forall|k: int| 0 <= k < i ==> (#[trigger] regions@[k]).spec_end() <= u64::MAX,
            forall|k: int, j: int|
                0 <= k < j < i ==> !overlap(#[trigger] regions@[k], #[trigger] regions@[j]),
    {
        let b = regions[i];
        if b.length > u64::MAX - b.start {
            assert(regions@[i as int].spec_end() > u64::MAX);
            return false;
        }
        for k in 0..i
            invariant
                i < regions.len(),
                b == regions@[i as int],
                b.spec_end() <= u64::MAX,
                forall|k: int| 0 <= k < i ==> (#[trigger] regions@[k]).spec_end() <= u64::MAX,
                forall|j: int| 0 <= j < k ==> !overlap(#[trigger] regions@[j], b),
        {
            let a = regions[k];
            assert(regions@[k as int].spec_end() <= u64::MAX);
            if a.length > 0 && b.length > 0 && a.start < b.end() && b.start < a.end() {
                assert(overlap(regions@[k as int], regions@[i as int]));
                return false;
            }
        }
    }
    true
}

/// Whether `r` is one of the first `n` regions of `rs`.
spec fn among(rs: Seq<Region>, n: int, r: Region) -> bool {
    exists|j: int| 0 <= j < n && #[trigger] rs[j] == r
}

/// Inserting a region that overlaps none of an ordered list, at its place by
/// `start`, keeps the list ordered and changes no other member.
proof fn lemma_insert(prev: Seq<Region>, at: int, r: Region)
    requires
        ordered(prev),
        r.valid(),
        0 <= at <= prev.len(),
        forall|k: int| 0 <= k < prev.len() ==> !overlap(#[trigger] prev[k], r),
        at > 0 ==> prev[at - 1].start <= r.start,
        forall|k: int| at <= k < prev.len() ==> (#[trigger] prev[k]).start > r.start,
    ensures
        ordered(prev.insert(at, r)),
{
    let n = prev.insert(at, r);
    assert forall|k: int| 0 <= k < n.len() implies (#[trigger] n[k]).valid() by {
        if k < at {
            assert(prev[k].valid());
        } else if k > at {
            assert(prev[k - 1].valid());
        }
    }
    assert forall|k: int, j: int| 0 <= k < j < n.len() implies (#[trigger] n[k]).spec_end() <= (
    #[trigger] n[j]).start by {
        if k != at && j != at {
            let a = if k < at {
                k
            } else {
                k - 1
            };
            let b = if j < at {
                j
            } else {
                j - 1
            };
            assert(prev[a].spec_end() <= prev[b].start);
        } else if j == at {
            assert(!overlap(prev[at - 1], r));
            assert(prev[k].valid() && prev[at - 1].valid());
            if k < at - 1 {
                assert(prev[k].spec_end() <= prev[at - 1].start);
            }
        } else {
            assert(prev[j - 1].start > r.start);
            assert(!overlap(prev[j - 1], r));
            assert(prev[j - 1].valid());
        }
    }
}

/// After an insertion, the list still holds the non-empty ones among the first
/// regions, and one more.
proof fn lemma_insert_members(
    regions: Seq<Region>,
    i: int,
    prev: Seq<Region>,
    at: int,
)
    requires
        0 <= i < regions.len(),
        0 <= at <= prev.len(),
        holds_first(regions, i, prev),
    ensures
        holds_first(regions, i + 1, prev.insert(at, regions[i])),
{
    reveal(holds_first);
    let n = prev.insert(at, regions[i]);
    assert(n[at] == regions[i]);
    assert forall|k: int|
        #![trigger regions[k]]
        0 <= k < i + 1 && regions[k].length > 0 implies n.contains(regions[k]) by {
        if k < i {
            let m = choose|m: int| 0 <= m < prev.len() && prev[m] == regions[k];
            assert(n[if m < at { m } else { m + 1 }] == regions[k]);
        }
    }
    assert forall|k: int| 0 <= k < n.len() implies among(regions, i + 1, #[trigger] n[k]) by {
        if k != at {
            let m = if k < at { k } else { k - 1 };
            assert(among(regions, i, prev[m]));
            let j = choose|j: int| 0 <= j < i && #[trigger] regions[j] == prev[m];
            assert(regions[j] == n[k]);
        }
    }
}

/// `list` holds the non-empty ones of the first `n` regions, and only regions
/// from among them.
#[verifier::opaque]
spec fn holds_first(regions: Seq<Region>, n: int, list: Seq<Region>) -> bool {
    &&& forall|k: int|
        #![trigger regions[k]]
        0 <= k < n && regions[k].length > 0 ==> list.contains(regions[k])
    &&& forall|k: int| 0 <= k < list.len() ==> among(regions, n, #[trigger] list[k])
}

/// The non-empty regions of a disjoint list, sorted by `start`.
fn sort_by_start(regions: &Vec<Region>) -> (r: Vec<Region>)
    requires
        disjoint(regions@),
    ensures
        ordered(r@),
        forall|p: int| #[trigger] status_in(r@, p) == status_in(regions@, p),
{
    let mut out: Vec<Region> = Vec::new();
    proof {
        reveal(holds_first);
    }
    for i in 0..regions.len()
        invariant
            disjoint(regions@),
            ordered(out@),
            holds_first(regions@, i as int, out@),
    {
        let r = regions[i];
        let ghost prev = out@;
        if r.length > 0 {
            let mut at: usize = out.len();
            while at > 0 && out[at - 1].start > r.start
                invariant
                    at <= out@.len(),
                    out@ == prev,
                    forall|k: int| at <= k < prev.len() ==> (#[trigger] prev[k]).start > r.start,
                decreases at,
            {
                at = at - 1;
            }
            proof {
                assert(r.valid()) by {
                    assert(regions@[i as int].spec_end() <= u64::MAX);
                }
                assert forall|k: int| 0 <= k < prev.len() implies !overlap(#[trigger] prev[k], r) by {
                    reveal(holds_first);
                    assert(among(regions@, i as int, prev[k]));
                    let j = choose|j: int| 0 <= j < i && #[trigger] regions@[j] == prev[k];
                    assert(!overlap(regions@[j], regions@[i as int]));
                }
                lemma_insert(prev, at as int, r);
                lemma_insert_members(regions@, i as int, prev, at as int);
            }
            out.insert(at, r);
        } else {
            proof {
                assert(holds_first(regions@, i + 1, prev)) by {
                    reveal(holds_first);
                    assert forall|k: int| 0 <= k < prev.len() implies among(
                        regions@,
                        i + 1,
                        #[trigger] prev[k],
                    ) by {
                        assert(among(regions@, i as int, prev[k]));
                    }
                }
            }
        }
    }
    proof {
        assert forall|p: int| #[trigger] status_in(out@, p) == status_in(regions@, p) by {
            reveal(holds_first);
            if is_covered(regions@, p) {
                let j = lemma_region_of(regions@, p);
                assert(out@.contains(regions@[j]));
                let k = choose|k: int| 0 <= k < out@.len() && out@[k] == regions@[j];
                lemma_status_of(out@, k, p);
            } else if is_covered(out@, p) {
                let k = lemma_region_of(out@, p);
                assert(among(regions@, regions@.len() as int, out@[k]));
                let j = choose|j: int| 0 <= j < regions@.len() && #[trigger] regions@[j] == out@[k];
                assert(regions@[j].has(p));
            }
        }
    }
    out
}

/// The part of an ordered list below `limit`: straddling regions are clipped.
fn parts_before(regions: &Vec<Region>, limit: u64) -> (r: Vec<Region>)
    requires
        ordered(regions@),
    ensures
        ordered(r@),
        end_of(r@) <= limit,
        forall|k: int| 0 <= k < r@.len() ==> (#[trigger] r@[k]).spec_end() <= limit,
        forall|p: int|
            #[trigger] status_in(r@, p) == (if p < limit {
                status_in(regions@, p)
            } else {
                None
            }),
{
    let mut out: Vec<Region> = Vec::new();
    for i in 0..regions.len()
        invariant
            ordered(regions@),
            ordered(out@),
            forall|k: int| 0 <= k < out@.len() ==> (#[trigger] out@[k]).spec_end() <= limit,
            end_of(out@) <= limit,
            i > 0 ==> end_of(out@) <= regions@[i - 1].spec_end(),
            i == 0 ==> out@.len() == 0,
            forall|p: int|
                #[trigger] status_in(out@, p) == (if p < limit {
                    status_in(regions@.take(i as int), p)
                } else {
                    None
                }),
    {
        let r = regions[i];
        let ghost before = out@;
        proof {
            let front = regions@.take(i as int);
            assert(regions@.take(i + 1) =~= front.push(r));
            assert(ordered(regions@.take(i + 1))) by {
                let n = regions@.take(i + 1);
                assert forall|k: int| 0 <= k < n.len() implies (#[trigger] n[k]).valid() by {
                    assert(regions@[k].valid());
                }
                assert forall|k: int, j: int| 0 <= k < j < n.len() implies (
                #[trigger] n[k]).spec_end() <= (#[trigger] n[j]).start by {
                    assert(regions@[k].spec_end() <= regions@[j].start);
                }
            }
            assert(regions@[i as int].valid());
            if i > 0 {
                assert(regions@[i - 1].spec_end() <= regions@[i as int].start);
            }
        }
        if r.start < limit {
            let stop = if r.end() < limit { r.end() } else { limit };
            let part = Region { start: r.start, length: stop - r.start, status: r.status };
            proof {
                lemma_ordered_push(before, part);
            }
            out.push(part);
            proof {
                assert forall|p: int| #[trigger] status_in(out@, p) == (if p < limit {
                    status_in(regions@.take(i + 1), p)
                } else {
                    None
                }) by {
                    lemma_status_push(before, part, p);
                    lemma_status_push(regions@.take(i as int), r, p);
                }
            }
        } else {
            proof {
                assert forall|p: int| #[trigger] status_in(out@, p) == (if p < limit {
                    status_in(regions@.take(i + 1), p)
                } else {
                    None
                }) by {
                    lemma_status_push(regions@.take(i as int), r, p);
                }
            }
        }
    }
    assert(regions@.take(regions@.len() as int) =~= regions@);
    out
}

/// Append the part of an ordered list at and above `from` to `out`, which ends
/// at or below `from`.
fn append_parts_from(out: &mut Vec<Region>, regions: &Vec<Region>, from: u64)
    requires
        ordered(regions@),
        ordered(old(out)@),
        end_of(old(out)@) <= from,
    ensures
        ordered(final(out)@),
        forall|p: int|
            #[trigger] status_in(final(out)@, p) == (if p < from {
                status_in(old(out)@, p)
            } else {
                status_in(regions@, p)
            }),
{
    proof {
        assert forall|p: int| #[trigger] status_in(out@, p) == (if p < from {
            status_in(old(out)@, p)
        } else {
            status_in(regions@.take(0), p)
        }) by {
            if p >= from {
                lemma_past_the_end(out@, p);
            }
        }
    }
    for i in 0..regions.len()
        invariant
            ordered(regions@),
            ordered(out@),
            end_of(out@) <= from || (i > 0 && end_of(out@) <= regions@[i - 1].spec_end()),
            forall|p: int|
                #[trigger] status_in(out@, p) == (if p < from {
                    status_in(old(out)@, p)
                } else {
                    status_in(regions@.take(i as int), p)
                }),
    {
        let r = regions[i];
        let ghost before = out@;
        proof {
            let front = regions@.take(i as int);
            assert(regions@.take(i + 1) =~= front.push(r));
            assert(ordered(regions@.take(i + 1))) by {
                let n = regions@.take(i + 1);
                assert forall|k: int| 0 <= k < n.len() implies (#[trigger] n[k]).valid() by {
                    assert(regions@[k].valid());
                }
                assert forall|k: int, j: int| 0 <= k < j < n.len() implies (
                #[trigger] n[k]).spec_end() <= (#[trigger] n[j]).start by {
                    assert(regions@[k].spec_end() <= regions@[j].start);
                }
            }
            assert(regions@[i as int].valid());
            if i > 0 {
                assert(regions@[i - 1].spec_end() <= regions@[i as int].start);
            }
        }
        if r.end() > from {
            let begin = if r.start < from { from } else { r.start };
            let part = Region { start: begin, length: r.end() - begin, status: r.status };
            proof {
                lemma_ordered_push(before, part);
            }
            out.push(part);
            proof {
                assert forall|p: int| #[trigger] status_in(out@, p) == (if p < from {
                    status_in(old(out)@, p)
                } else {
                    status_in(regions@.take(i + 1), p)
                }) by {
                    lemma_status_push(before, part, p);
                    lemma_status_push(regions@.take(i as int), r, p);
                }
            }
        } else {
            proof {
                assert forall|p: int| #[trigger] status_in(out@, p) == (if p < from {
                    status_in(old(out)@, p)
                } else {
                    status_in(regions@.take(i + 1), p)
                }) by {
                    lemma_status_push(regions@.take(i as int), r, p);
                }
            }
        }
    }
    assert(regions@.take(regions@.len() as int) =~= regions@);
}

/// Merge adjacent regions of equal status. Input must already be sorted by
/// `start` and non-overlapping.
fn merge_adjacent(regions: &Vec<Region>) -> (merged: Vec<Region>)
    requires
        ordered(regions@),
    ensures
        normal(merged@),
        forall|p: int| #[trigger] status_in(merged@, p) == status_in(regions@, p),
{
    let mut merged: Vec<Region> = Vec::new();
    for i in 0..regions.len()
        invariant
            ordered(regions@),
            normal(merged@),
            i > 0 ==> merged@.len() > 0 && end_of(merged@) == regions@[i - 1].spec_end(),
            i == 0 ==> merged@.len() == 0,
            forall|p: int|
                #[trigger] status_in(merged@, p) == status_in(regions@.take(i as int), p),
    {
        let r = regions[i];
        let ghost before = merged@;
        proof {
            let front = regions@.take(i as int);
            assert(regions@.take(i + 1) =~= front.push(r));
            assert(ordered(regions@.take(i + 1))) by {
                let n = regions@.take(i + 1);
                assert forall|k: int| 0 <= k < n.len() implies (#[trigger] n[k]).valid() by {
                    assert(regions@[k].valid());
                }
                assert forall|k: int, j: int| 0 <= k < j < n.len() implies (
                #[trigger] n[k]).spec_end() <= (#[trigger] n[j]).start by {
                    assert(regions@[k].spec_end() <= regions@[j].start);
                }
            }
            assert(regions@[i as int].valid());
            if i > 0 {
                assert(regions@[i - 1].spec_end() <= regions@[i as int].start);
            }
        }
        let n: usize = merged.len();
        proof {
            if n > 0 {
                assert(before[n - 1].valid());
            }
        }
        if n > 0 && merged[n - 1].status == r.status && merged[n - 1].end() == r.start {
            let last = merged[n - 1];
            let grown = Region {
                start: last.start,
                length: last.length + r.length,
                status: last.status,
            };
            merged.set(n - 1, grown);
            proof {
                assert forall|p: int| #[trigger] status_in(merged@, p) == status_in(
                    regions@.take(i + 1),
                    p,
                ) by {
                    lemma_status_grow(before, grown.length, p);
                    lemma_status_push(regions@.take(i as int), r, p);
                }
                lemma_status_grow(before, grown.length, 0);
                assert forall|k: int, j: int|
                    0 <= k && j == k + 1 && j < merged@.len() && (
                    #[trigger] merged@[k]).spec_end() == (
                    #[trigger] merged@[j]).start implies merged@[k].status
                    != merged@[j].status by {
                    assert(before[k].spec_end() == before[j].start);
                }
            }
        } else {
            proof {
                lemma_ordered_push(before, r);
            }
            merged.push(r);
            proof {
                assert forall|p: int| #[trigger] status_in(merged@, p) == status_in(
                    regions@.take(i + 1),
                    p,
                ) by {
                    lemma_status_push(before, r, p);
                    lemma_status_push(regions@.take(i as int), r, p);
                }
                assert forall|k: int, j: int|
                    0 <= k && j == k + 1 && j < merged@.len() && (#[trigger] merged@[k]).spec_end() == (
                    #[trigger] merged@[j]).start implies merged@[k].status != merged@[j].status by {
                    if j < before.len() {
                        assert(before[k].spec_end() == before[j].start);
                    }
                }
            }
        }
    }
    assert(regions@.take(regions@.len() as int) =~= regions@);
    merged
}

// ---------------------------------------------------------------------------
// Laws of the map.

/// The part of an ordered list after its first region.
proof fn lemma_drop_first(rs: Seq<Region>, p: int)
    requires
        normal(rs),
        rs.len() > 0,
    ensures
        normal(rs.drop_first()),
        status_in(rs.drop_first(), p) == (if rs[0].has(p) {
            None
        } else {
            status_in(rs, p)
        }),
{
    let t = rs.drop_first();
    assert forall|i: int| 0 <= i < t.len() implies (#[trigger] t[i]).valid() by {
        assert(rs[i + 1].valid());
    }
    assert forall|i: int, j: int| 0 <= i < j < t.len() implies (#[trigger] t[i]).spec_end() <= (
    #[trigger] t[j]).start by {
        assert(rs[i + 1].spec_end() <= rs[j + 1].start);
    }
    assert forall|i: int, j: int|
        0 <= i && j == i + 1 && j < t.len() && (#[trigger] t[i]).spec_end() == (
        #[trigger] t[j]).start implies t[i].status != t[j].status by {
        assert(rs[i + 1].spec_end() == rs[j + 1].start);
    }
    if is_covered(t, p) {
        let i = lemma_region_of(t, p);
        assert(rs[i + 1].has(p));
        assert(rs[0].spec_end() <= rs[i + 1].start);
        lemma_status_of(rs, i + 1, p);
    } else if is_covered(rs, p) {
        let i = lemma_region_of(rs, p);
        if i > 0 {
            assert(t[i - 1].has(p));
        }
    }
}

/// The first covered byte of a list in normal form opens its first region.
proof fn lemma_first_region(a: Seq<Region>, b: Seq<Region>)
    requires
        normal(a),
        normal(b),
        a.len() > 0,
        forall|p: int| #[trigger] status_in(a, p) == status_in(b, p),
    ensures
        b.len() > 0,
        b[0].start <= a[0].start,
        b[0].start == a[0].start ==> b[0].status == a[0].status && b[0].spec_end()
            >= a[0].spec_end(),
{
    let s = a[0].start as int;
    assert(a[0].valid());
    lemma_status_of(a, 0, s);
    assert(status_in(b, s) == status_in(a, s));
    let i = lemma_region_of(b, s);
    if i > 0 {
        assert(b[0].spec_end() <= b[i].start);
    }
    assert(b[0].valid());
    if b[0].start == a[0].start {
        lemma_status_of(b, 0, s);
        if b[0].spec_end() < a[0].spec_end() {
            let e = b[0].spec_end();
            lemma_status_of(a, 0, e);
            assert(status_in(b, e) == status_in(a, e));
            let k = lemma_region_of(b, e);
            assert(k > 0);
            if k > 1 {
                assert(b[0].spec_end() <= b[1].start);
                assert(b[1].valid());
                assert(b[1].spec_end() <= b[k].start);
            }
            assert(k == 1);
            assert(b[0].spec_end() <= b[1].start);
            assert(b[0].spec_end() == b[1].start);
        }
    }
}

/// Two maps in normal form that give every byte the same status hold the same
/// regions: what a map says of each byte determines it.
pub proof fn law_normal_form_is_unique(a: Seq<Region>, b: Seq<Region>)
    requires
        normal(a),
        normal(b),
        forall|p: int| #[trigger] status_in(a, p) == status_in(b, p),
    ensures
        a == b,
    decreases a.len(),
{
    if a.len() == 0 {
        if b.len() > 0 {
            assert forall|p: int| #[trigger] status_in(b, p) == status_in(a, p) by {}
            lemma_first_region(b, a);
        }
        assert(a =~= b);
    } else {
        lemma_first_region(a, b);
        assert forall|p: int| #[trigger] status_in(b, p) == status_in(a, p) by {
            assert(status_in(a, p) == status_in(b, p));
        }
        lemma_first_region(b, a);
        assert(a[0] == b[0]);
        lemma_drop_first(a, 0);
        lemma_drop_first(b, 0);
        assert forall|p: int| #[trigger]
            status_in(a.drop_first(), p) == status_in(b.drop_first(), p) by {
            lemma_drop_first(a, p);
            lemma_drop_first(b, p);
            assert(status_in(a, p) == status_in(b, p));
        }
        law_normal_form_is_unique(a.drop_first(), b.drop_first());
        assert(a =~= seq![a[0]] + a.drop_first());
        assert(b =~= seq![b[0]] + b.drop_first());
    }
}

/// A fully copied domain collapses to a single `Done` region.
pub proof fn law_fully_copied_map_is_one_region(map: RegionMap, total: u64)
    requires
        map.wf(),
        total > 0,
        forall|p: int|
            #[trigger] map.status_at(p) == (if 0 <= p < total {
                Some(RegionStatus::Done)
            } else {
                None
            }),
    ensures
        map@ == seq![Region { start: 0, length: total, status: RegionStatus::Done }],
{
    let one = seq![Region { start: 0, length: total, status: RegionStatus::Done }];
    assert forall|p: int| #[trigger] status_in(map@, p) == status_in(one, p) by {
        assert(map.status_at(p) == status_in(map@, p));
        if 0 <= p < total {
            lemma_status_of(one, 0, p);
        } else if is_covered(one, p) {
            let i = lemma_region_of(one, p);
        }
    }
    law_normal_form_is_unique(map@, one);
}

/// How many of the bytes `[0, n)` satisfy `f`.
pub open spec fn count(f: spec_fn(int) -> bool, n: int) -> nat
    decreases n,
{
    if n <= 0 {
        0
    } else {
        count(f, n - 1) + if f(n - 1) {
            1nat
        } else {
            0
        }
    }
}

/// Selects the bytes of `rs` that have `status`.
pub open spec fn holds(rs: Seq<Region>, status: RegionStatus) -> spec_fn(int) -> bool {
    |p: int| status_in(rs, p) == Some(status)
}

pub(crate) proof fn lemma_count_same(f: spec_fn(int) -> bool, g: spec_fn(int) -> bool, n: int)
    requires
        forall|p: int| 0 <= p < n ==> #[trigger] f(p) == g(p),
    ensures
        count(f, n) == count(g, n),
    decreases n,
{
    if n > 0 {
        lemma_count_same(f, g, n - 1);
    }
}

proof fn lemma_count_sum(
    f: spec_fn(int) -> bool,
    g: spec_fn(int) -> bool,
    h: spec_fn(int) -> bool,
    n: int,
)
    requires
        forall|p: int| 0 <= p < n ==> #[trigger] h(p) == (f(p) || g(p)),
        forall|p: int| 0 <= p < n ==> !(#[trigger] f(p) && g(p)),
    ensures
        count(h, n) == count(f, n) + count(g, n),
    decreases n,
{
    if n > 0 {
        lemma_count_sum(f, g, h, n - 1);
    }
}

proof fn lemma_count_range(a: int, b: int, n: int)
    requires
        0 <= a <= b,
        0 <= n,
    ensures
        count(|p: int| a <= p < b, n) == (if n <= a {
            0
        } else if n <= b {
            n - a
        } else {
            b - a
        }),
    decreases n,
{
    if n > 0 {
        lemma_count_range(a, b, n - 1);
    }
}

/// A count does not exceed what is looked at.
pub proof fn lemma_count_bounded(f: spec_fn(int) -> bool, n: int)
    requires
        0 <= n,
    ensures
        count(f, n) <= n,
    decreases n,
{
    if n > 0 {
        lemma_count_bounded(f, n - 1);
    }
}

/// How many of the first `n` bytes have a status.
pub open spec fn tally(map: Statuses, status: RegionStatus, n: int) -> nat {
    count(|p: int| map(p) == Some(status), n)
}

/// Two maps that give the same bytes a status have the same tally of it.
pub proof fn lemma_tally_same(a: Statuses, b: Statuses, status: RegionStatus, n: int)
    requires
        forall|p: int| 0 <= p < n ==> (#[trigger] a(p) == Some(status)) == (b(p) == Some(status)),
    ensures
        tally(a, status, n) == tally(b, status, n),
{
    lemma_count_same(|p: int| a(p) == Some(status), |p: int| b(p) == Some(status), n);
}

/// Where every byte has a status, its tally is all of them; where none has, it is
/// nothing.
pub proof fn lemma_tally_extremes(map: Statuses, status: RegionStatus, n: int)
    requires
        0 <= n,
    ensures
        (forall|p: int| 0 <= p < n ==> #[trigger] map(p) == Some(status)) ==> tally(map, status, n)
            == n,
        (forall|p: int| 0 <= p < n ==> #[trigger] map(p) != Some(status)) ==> tally(map, status, n)
            == 0,
{
    let f = |p: int| map(p) == Some(status);
    lemma_count_range(0, n, n);
    lemma_count_range(0, 0, n);
    if forall|p: int| 0 <= p < n ==> #[trigger] map(p) == Some(status) {
        lemma_count_same(f, |p: int| 0 <= p < n, n);
    }
    if forall|p: int| 0 <= p < n ==> #[trigger] map(p) != Some(status) {
        lemma_count_same(f, |p: int| 0 <= p < 0, n);
    }
}

/// Marking bytes that did not have the status adds them to its tally.
pub proof fn lemma_tally_marked(
    map: Statuses,
    start: int,
    len: int,
    status: RegionStatus,
    n: int,
)
    requires
        0 <= start,
        0 <= len,
        start + len <= n,
        forall|p: int| start <= p < start + len ==> #[trigger] map(p) != Some(status),
    ensures
        tally(marked(map, start, len, status), status, n) == tally(map, status, n) + len,
{
    let after = marked(map, start, len, status);
    let (f, g, h) = (
        |p: int| map(p) == Some(status),
        |p: int| start <= p < start + len,
        |p: int| after(p) == Some(status),
    );
    assert forall|p: int| 0 <= p < n implies !(#[trigger] f(p) && g(p)) by {
        assert(map(p) == map(p));
    }
    lemma_count_sum(f, g, h, n);
    lemma_count_range(start, start + len, n);
    lemma_count_same(g, |p: int| start <= p < start + len, n);
}

/// Marking bytes that had another status takes them off its tally.
pub proof fn lemma_tally_lost(
    map: Statuses,
    start: int,
    len: int,
    to: RegionStatus,
    status: RegionStatus,
    n: int,
)
    requires
        to != status,
        0 <= start,
        0 <= len,
        start + len <= n,
        forall|p: int| start <= p < start + len ==> #[trigger] map(p) == Some(status),
    ensures
        tally(marked(map, start, len, to), status, n) + len == tally(map, status, n),
{
    let after = marked(map, start, len, to);
    let (f, g, h) = (
        |p: int| after(p) == Some(status),
        |p: int| start <= p < start + len,
        |p: int| map(p) == Some(status),
    );
    assert forall|p: int| 0 <= p < n implies #[trigger] h(p) == (f(p) || g(p)) by {
        assert(map(p) == map(p));
    }
    lemma_count_sum(f, g, h, n);
    lemma_count_range(start, start + len, n);
    lemma_count_same(g, |p: int| start <= p < start + len, n);
}

/// The byte totals count bytes: over any span that reaches the end of the map,
/// the total of a status is the number of bytes that have it.
pub proof fn law_totals_count_bytes(rs: Seq<Region>, status: RegionStatus, n: int)
    requires
        ordered(rs),
        end_of(rs) <= n,
    ensures
        bytes_in(rs, status) == count(holds(rs, status), n),
    decreases rs.len(),
{
    if rs.len() == 0 {
        lemma_count_same(holds(rs, status), |p: int| 0 <= p < 0, n);
        lemma_count_range(0, 0, n);
    } else {
        let front = rs.drop_last();
        let last = rs.last();
        assert(front.push(last) =~= rs);
        assert(rs[rs.len() - 1].valid());
        lemma_status_push(front, last, 0);
        if front.len() > 0 {
            assert(rs[front.len() - 1].spec_end() <= rs[rs.len() - 1].start);
        }
        law_totals_count_bytes(front, status, n);
        let in_last = |p: int| last.start <= p < last.spec_end();
        assert forall|p: int| 0 <= p < n implies #[trigger] holds(rs, status)(p) == (holds(
            front,
            status,
        )(p) || (in_last(p) && last.status == status)) by {
            lemma_status_push(front, last, p);
            if in_last(p) {
                lemma_past_the_end(front, p);
            }
        }
        if last.status == status {
            assert forall|p: int| 0 <= p < n implies !(#[trigger] holds(front, status)(p)
                && in_last(p)) by {
                if in_last(p) {
                    lemma_past_the_end(front, p);
                }
            }
            lemma_count_sum(holds(front, status), in_last, holds(rs, status), n);
            lemma_count_range(last.start as int, last.spec_end(), n);
            lemma_count_same(in_last, |p: int| last.start <= p < last.spec_end(), n);
        } else {
            lemma_count_same(holds(rs, status), holds(front, status), n);
        }
    }
}

/// A byte in a status counts in its total.
pub proof fn lemma_some_bytes(rs: Seq<Region>, status: RegionStatus, p: int)
    requires
        ordered(rs),
        status_in(rs, p) == Some(status),
    ensures
        bytes_in(rs, status) > 0,
    decreases rs.len(),
{
    let i = lemma_region_of(rs, p);
    let front = rs.drop_last();
    assert(front.push(rs.last()) =~= rs);
    lemma_status_push(front, rs.last(), p);
    assert(rs[i].valid());
    if i < rs.len() - 1 {
        assert(front[i].has(p));
        lemma_status_of(front, i, p);
        lemma_some_bytes(front, status, p);
    }
}

/// Where no byte is in a status, its total is zero.
pub proof fn lemma_no_bytes(rs: Seq<Region>, status: RegionStatus)
    requires
        ordered(rs),
        forall|p: int| #[trigger] status_in(rs, p) != Some(status),
    ensures
        bytes_in(rs, status) == 0,
{
    assert forall|i: int| 0 <= i < rs.len() implies (#[trigger] rs[i]).status != status by {
        assert(rs[i].valid());
        lemma_status_of(rs, i, rs[i].start as int);
    }
    lemma_no_region(rs, status);
}

proof fn lemma_no_region(rs: Seq<Region>, status: RegionStatus)
    requires
        forall|i: int| 0 <= i < rs.len() ==> (#[trigger] rs[i]).status != status,
    ensures
        bytes_in(rs, status) == 0,
    decreases rs.len(),
{
    if rs.len() > 0 {
        let front = rs.drop_last();
        assert forall|i: int| 0 <= i < front.len() implies (#[trigger] front[i]).status
            != status by {
            assert(rs[i].status != status);
        }
        lemma_no_region(front, status);
    }
}

/// The totals of the three statuses add up to the domain, for a map that covers
/// exactly the domain (as a reconciled map does).
pub proof fn law_totals_add_up(map: RegionMap, domain: int)
    requires
        map.wf(),
        0 <= domain,
        forall|p: int| (#[trigger] map.status_at(p) is Some) == (0 <= p < domain),
    ensures
        bytes_in(map@, RegionStatus::Untried) + bytes_in(map@, RegionStatus::Done) + bytes_in(
            map@,
            RegionStatus::Bad,
        ) == domain,
{
    let rs = map@;
    if rs.len() > 0 {
        let last = rs[rs.len() - 1];
        assert(last.valid());
        lemma_status_of(rs, rs.len() - 1, last.spec_end() - 1);
        assert(map.status_at(last.spec_end() - 1) is Some);
    }
    assert(end_of(rs) <= domain);
    let u = holds(rs, RegionStatus::Untried);
    let d = holds(rs, RegionStatus::Done);
    let b = holds(rs, RegionStatus::Bad);
    law_totals_count_bytes(rs, RegionStatus::Untried, domain);
    law_totals_count_bytes(rs, RegionStatus::Done, domain);
    law_totals_count_bytes(rs, RegionStatus::Bad, domain);
    let ud = |p: int| u(p) || d(p);
    let all = |p: int| 0 <= p < domain;
    lemma_count_sum(u, d, ud, domain);
    assert forall|p: int| 0 <= p < domain implies #[trigger] all(p) == (ud(p) || b(p)) by {
        assert(map.status_at(p) is Some);
    }
    lemma_count_sum(ud, b, all, domain);
    lemma_count_range(0, domain, domain);
    lemma_count_same(all, |p: int| 0 <= p < domain, domain);
}

/// A byte belongs to one of the regions listed for a status exactly when it has
/// that status.
pub proof fn law_listed_regions_hold_the_status(map: RegionMap, status: RegionStatus, p: int)
    requires
        map.wf(),
    ensures
        is_covered(with_status(map@, status), p) <==> map.status_at(p) == Some(status),
{
    let rs = map@;
    let pred = |r: Region| r.status == status;
    let listed = rs.filter(pred);
    if is_covered(listed, p) {
        let i = lemma_region_of(listed, p);
        rs.lemma_filter_pred(pred, i);
        assert(listed.contains(listed[i]));
        rs.lemma_filter_contains_rev(pred, listed[i]);
        let k = choose|k: int| 0 <= k < rs.len() && rs[k] == listed[i];
        lemma_status_of(rs, k, p);
    }
    if map.status_at(p) == Some(status) {
        let k = lemma_region_of(rs, p);
        rs.lemma_filter_contains(pred, k);
        let i = choose|i: int| 0 <= i < listed.len() && listed[i] == rs[k];
        assert(listed[i].has(p));
    }
}

} // verus!
