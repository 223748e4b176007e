//! The TOML state file.
//!
//! It is intended to be read, understood, and even hand-edited by a human, and
//! is sufficient to repeat a run without re-specifying parameters. Layout:
//!
//! ```toml
//! [meta]            # format version + provenance
//! [params]          # the full run configuration (see RunParams)
//! [progress]        # human-facing totals (derivable from regions)
//! [hashes]          # optional integrity manifest: per-chunk digests
//! [verify]          # optional result (or cursor) of a verify pass
//! [[regions]]       # the region map: start / length / status
//! ```

use crate::hash;
use crate::hash::{ChunkHasher, ALGORITHM};
use crate::params::RunParams;
use crate::region;
use crate::region::{Region, RegionMap, RegionStatus};
use crate::time::Timestamp;
use vstd::prelude::*;

verus! {

/// The name this program goes by in the files it writes.
pub const PROGRAM: &'static str = "exhume";

/// The version of this program.
pub const PROGRAM_VERSION: &'static str = "0.1.0";

/// Provenance and format version of a state file.
#[derive(Debug, Clone)]
pub struct Meta {
    pub version: u32,
    pub program: String,
    pub program_version: String,
    pub created: Timestamp,
    pub updated: Timestamp,
}

/// Human-facing progress totals. These are derivable from the region map but
/// are written out so the file is informative at a glance.
#[derive(Debug, Clone, Copy, PartialEq, Eq, Structural)]
pub struct Progress {
    /// Size of the copy domain in bytes, or `0` if unknown.
    pub bytes_total: u64,
    pub bytes_done: u64,
    /// Bytes actually written to the target (< `bytes_done` where unchanged or
    /// zero blocks are not written).
    pub bytes_written: u64,
    /// Number of bad regions recorded.
    pub errors: u64,
}

impl Default for Progress {
    fn default() -> (r: Self)
        ensures
            r == (Progress { bytes_total: 0, bytes_done: 0, bytes_written: 0, errors: 0 }),
    {
        Progress { bytes_total: 0, bytes_done: 0, bytes_written: 0, errors: 0 }
    }
}

/// The integrity manifest: one digest per fixed-size chunk of the domain.
/// Chunks are indexed implicitly by position in `chunks`; an empty string
/// means "not hashed" (the chunk was never streamed in one piece, e.g. it
/// contains bad sectors).
#[derive(Debug, Clone, PartialEq, Eq)]
pub struct Hashes {
    /// Digest algorithm; currently always `"blake3"`.
    pub algorithm: String,
    /// Chunk size in bytes; the grid is fixed for the lifetime of the state.
    pub chunk_size: u64,
    /// Lowercase hex digests by chunk index; `""` = not hashed.
    pub chunks: Vec<String>,
}

/// What a verify pass has recorded about the target. A pass that is not through
/// has a cursor: the next chunk to check.
#[derive(Debug, PartialEq, Eq)]
pub struct VerifyState {
    /// The next chunk index of an unfinished pass.
    pub cursor: Option<u64>,
    /// Domain offsets of the mismatching chunks found so far.
    pub mismatches: Vec<u64>,
    pub started: Timestamp,
    pub finished: Option<Timestamp>,
    /// Whether a finished pass found everything as recorded.
    pub ok: Option<bool>,
}

/// A [`VerifyState`] as a value of the model.
#[verifier::ext_equal]
pub struct VerifyView {
    pub cursor: Option<u64>,
    pub mismatches: Seq<u64>,
    pub started: Timestamp,
    pub finished: Option<Timestamp>,
    pub ok: Option<bool>,
}

impl View for VerifyState {
    type V = VerifyView;

    open spec fn view(&self) -> VerifyView {
        VerifyView {
            cursor: self.cursor,
            mismatches: self.mismatches@,
            started: self.started,
            finished: self.finished,
            ok: self.ok,
        }
    }
}

/// A copy of a list of numbers.
pub fn copy_numbers(list: &Vec<u64>) -> (r: Vec<u64>)
    ensures
        r@ == list@,
{
    let mut out: Vec<u64> = Vec::new();
    for i in 0..list.len()
        invariant
            out@ =~= list@.take(i as int),
    {
        out.push(list[i]);
    }
    assert(out@ =~= list@);
    out
}

impl Clone for VerifyState {
    fn clone(&self) -> (r: Self)
        ensures
            r@ == self@,
    {
        VerifyState {
            cursor: self.cursor,
            mismatches: copy_numbers(&self.mismatches),
            started: self.started,
            finished: self.finished,
            ok: self.ok,
        }
    }
}

/// The verify section as a value of the model.
pub open spec fn verify_view(verify: Option<VerifyState>) -> Option<VerifyView> {
    match verify {
        Some(v) => Some(v@),
        None => None,
    }
}

/// The `[verify]` section a run may keep: the loaded one as long as nothing was
/// written to the target, nothing afterwards. A verify result describes a
/// snapshot of the target, so any write invalidates it.
pub fn verify_carry(prior: &Option<VerifyState>, wrote: bool) -> (r: Option<VerifyState>)
    ensures
        verify_view(r) == (if wrote {
            None
        } else {
            verify_view(*prior)
        }),
{
    if wrote {
        return None;
    }
    match prior {
        Some(v) => Some(v.clone()),
        None => None,
    }
}

/// Chunks a *finished* verify pass recorded as mismatching: a refresh takes them
/// off the manifest fast path and rewrites them. (An interrupted pass's list is
/// incomplete; repairs wait for a finished one.)
pub open spec fn repairs(prior: Option<VerifyView>) -> Seq<u64> {
    match prior {
        Some(v) => if v.cursor is None {
            v.mismatches
        } else {
            Seq::empty()
        },
        None => Seq::empty(),
    }
}

/// The chunks a refresh is to rewrite whatever the manifest says.
pub fn repair_list(prior: &Option<VerifyState>) -> (r: Vec<u64>)
    ensures
        r@ == repairs(verify_view(*prior)),
{
    if let Some(v) = prior {
        if v.cursor.is_none() {
            return copy_numbers(&v.mismatches);
        }
    }
    Vec::new()
}

#[derive(Debug, Clone)]
pub struct StateFile {
    pub meta: Meta,
    pub params: RunParams,
    pub progress: Progress,
    /// Optional integrity manifest (`[hashes]`).
    pub hashes: Option<Hashes>,
    /// Optional result of a verify pass (`[verify]`).
    pub verify: Option<VerifyState>,
    pub regions: Vec<Region>,
}

/// The number of bad regions in a list.
pub open spec fn bad_count(rs: Seq<Region>) -> nat {
    region::with_status(rs, RegionStatus::Bad).len()
}

/// A map without a bad byte has no bad region.
pub proof fn lemma_no_bad_regions(map: RegionMap)
    requires
        map.wf(),
        forall|p: int| #[trigger]
            region::status_in(map@, p) != Some(RegionStatus::Bad),
    ensures
        bad_count(map@) == 0,
{
    let listed = region::with_status(map@, RegionStatus::Bad);
    if listed.len() > 0 {
        let pred = |r: Region| r.status == RegionStatus::Bad;
        map@.lemma_filter_pred(pred, 0);
        assert(listed.contains(listed[0]));
        map@.lemma_filter_contains_rev(pred, listed[0]);
        let k = choose|k: int| 0 <= k < map@.len() && map@[k] == listed[0];
        assert(map@[k].valid());
        region::lemma_status_of(map@, k, map@[k].start as int);
    }
}

/// How many bad regions a map has.
pub fn count_bad(map: &RegionMap) -> (r: usize)
    ensures
        r == bad_count(map@),
{
    map.regions_with(RegionStatus::Bad).len()
}

impl StateFile {
    /// Current state-file format version. Starts at 1 with the first release.
    pub const VERSION: u32 = 1;

    /// Build a state file from the live copy state, as of `updated`.
    pub fn build(
        params: &RunParams,
        map: &RegionMap,
        domain: u64,
        created: Timestamp,
        updated: Timestamp,
        bytes_written: u64,
        hashes: Option<Hashes>,
        verify: Option<VerifyState>,
    ) -> (r: Self)
        requires
            map.wf(),
        ensures
            r.meta.version == StateFile::VERSION,
            r.meta.program@ == PROGRAM@,
            r.meta.program_version@ == PROGRAM_VERSION@,
            r.meta.created == created,
            r.meta.updated == updated,
            r.params@ == params@,
            r.progress == (Progress {
                bytes_total: domain,
                bytes_done: region::bytes_in(map@, RegionStatus::Done) as u64,
                bytes_written,
                errors: bad_count(map@) as u64,
            }),
            region::bytes_in(map@, RegionStatus::Done) <= u64::MAX,
            r.hashes == hashes,
            r.verify == verify,
            r.regions@ == map@,
    {
        let regions = map.regions();
        let mut list: Vec<Region> = Vec::new();
        for i in 0..regions.len()
            invariant
                regions@ == map@,
                list@ =~= regions@.take(i as int),
        {
            list.push(regions[i]);
        }
        assert(list@ =~= map@);
        StateFile {
            meta: Meta {
                version: Self::VERSION,
                program: PROGRAM.to_owned(),
                program_version: PROGRAM_VERSION.to_owned(),
                created,
                updated,
            },
            params: params.clone(),
            progress: Progress {
                bytes_total: domain,
                bytes_done: map.bytes_with(RegionStatus::Done),
                bytes_written,
                errors: count_bad(map) as u64,
            },
            hashes,
            verify,
            regions: list,
        }
    }

    /// The region map described by this state file.
    pub fn region_map(&self) -> (r: RegionMap)
        requires
            region::disjoint(self.regions@),
        ensures
            r.wf(),
            forall|p: int| #[trigger] r.status_at(p) == region::status_in(self.regions@, p),
    {
        let mut list: Vec<Region> = Vec::new();
        for i in 0..self.regions.len()
            invariant
                list@ =~= self.regions@.take(i as int),
        {
            list.push(self.regions[i]);
        }
        assert(list@ =~= self.regions@);
        RegionMap::from_regions(list)
    }

    /// Whether the file was written by a newer version of this program, whose
    /// layout this one may misread.
    pub fn is_newer(&self) -> (r: bool)
        ensures
            r == (self.meta.version > StateFile::VERSION),
    {
        self.meta.version > Self::VERSION
    }
}

/// The persistable `[hashes]` section for a manifest hasher.
pub fn manifest_of(hasher: &ChunkHasher) -> (r: Hashes)
    ensures
        r.algorithm@ == ALGORITHM@,
        r.chunk_size == hasher@.chunk_size,
        hash::texts(r.chunks@) == hasher@.chunks,
{
    Hashes {
        algorithm: ALGORITHM.to_owned(),
        chunk_size: hasher.chunk_size(),
        chunks: copy_texts(hasher.chunks()),
    }
}

/// A copy of a list of strings.
pub fn copy_texts(list: &[String]) -> (r: Vec<String>)
    ensures
        hash::texts(r@) == hash::texts(list@),
{
    let mut out: Vec<String> = Vec::new();
    for i in 0..list.len()
        invariant
            out@.len() == i,
            forall|k: int| 0 <= k < i ==> (#[trigger] out@[k])@ == list@[k]@,
    {
        out.push(list[i].clone());
    }
    assert(hash::texts(out@) =~= hash::texts(list@));
    out
}

/// The regions of a map can be read back: they are disjoint, and a map made from
/// them is the same map. So a state file restores the map it was built from.
pub proof fn law_state_restores_the_map(saved: RegionMap, loaded: RegionMap)
    requires
        saved.wf(),
        loaded.wf(),
        forall|p: int| #[trigger] loaded.status_at(p) == region::status_in(saved@, p),
    ensures
        region::disjoint(saved@),
        loaded@ == saved@,
{
    let rs = saved@;
    assert forall|i: int| 0 <= i < rs.len() implies (#[trigger] rs[i]).spec_end() <= u64::MAX by {
        assert(rs[i].valid());
    }
    assert forall|i: int, j: int| 0 <= i < j < rs.len() implies !region::overlap(
        #[trigger] rs[i],
        #[trigger] rs[j],
    ) by {
        assert(rs[i].spec_end() <= rs[j].start);
    }
    assert forall|p: int| #[trigger]
        region::status_in(loaded@, p) == region::status_in(saved@, p) by {
        assert(loaded.status_at(p) == region::status_in(loaded@, p));
    }
    region::law_normal_form_is_unique(loaded@, saved@);
}

} // verus!
