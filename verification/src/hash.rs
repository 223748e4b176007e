//! Chunk hashing: the state file as an integrity manifest.
//!
//! The copy loop feeds every byte it reads from the source into a
//! [`ChunkHasher`], which hashes the domain in fixed-size chunks (default
//! 64 MiB). The resulting per-chunk BLAKE3 hashes are stored in the state
//! file's `[hashes]` section, turning it into a manifest of the image: a verify
//! pass re-reads the target and checks it against the manifest, months later
//! and without the (possibly dying) source.
//!
//! The hasher is strictly forward-only: it never re-reads anything. A chunk
//! gets its hash when the copy streams it contiguously from start to end; a
//! discontinuity (resume seam, bad sector) abandons the chunk. Whatever gaps
//! remain for fully done chunks are filled at the end of the run by reading the
//! chunks back from the target.

use vstd::arithmetic::div_mod;
use vstd::prelude::*;

verus! {

/// Default hash chunk size: 64 MiB, fine enough to localise bit-rot, coarse
/// enough that a 1 TB image yields a manifest of ~16k entries (~1 MB TOML).
pub const DEFAULT_CHUNK_SIZE: u64 = 64 * 1024 * 1024;

/// The one supported manifest algorithm (recorded in the state file so a
/// future change stays detectable).
pub const ALGORITHM: &'static str = "blake3";

// ---------------------------------------------------------------------------
// The outside hash function.

/// The incremental state of `blake3`.
#[verifier::external_type_specification]
#[verifier::external_body]
pub struct ExBlake3Hasher(blake3::Hasher);

/// The lowercase hex text of the BLAKE3 hash of `data`.
pub uninterp spec fn blake3_hex(data: Seq<u8>) -> Seq<char>;

/// The bytes an incremental hasher has taken in since it was made.
pub uninterp spec fn absorbed(hasher: blake3::Hasher) -> Seq<u8>;

/// `blake3::hash`, rendered by `Hash::to_hex`: the hash of `data` as 64 hex
/// digits. The hash itself is not spelled out, only named.
#[verifier::external_body]
fn hash_to_hex(data: &[u8]) -> (r: String)
    ensures
        r@ == blake3_hex(data@),
        r@.len() == 64,
{
    blake3::hash(data).to_hex().to_string()
}

/// `blake3::Hasher::new`: a hasher that has taken in nothing.
#[verifier::external_body]
fn hasher_new() -> (r: blake3::Hasher)
    ensures
        absorbed(r) == Seq::<u8>::empty(),
{
    blake3::Hasher::new()
}

/// `blake3::Hasher::update`: takes in `data` after what came before.
#[verifier::external_body]
fn hasher_update(hasher: &mut blake3::Hasher, data: &[u8])
    requires
        absorbed(*old(hasher)).len() + data@.len() <= u64::MAX,
    ensures
        absorbed(*final(hasher)) == absorbed(*old(hasher)) + data@,
{
    hasher.update(data);
}

/// `blake3::Hasher::finalize`, rendered by `Hash::to_hex`: the hash of all the
/// bytes taken in, which is what `blake3::hash` gives on them at once.
#[verifier::external_body]
fn hasher_to_hex(hasher: &blake3::Hasher) -> (r: String)
    ensures
        r@ == blake3_hex(absorbed(*hasher)),
        r@.len() == 64,
{
    hasher.finalize().to_hex().to_string()
}

/// Hash `data` and return the lowercase hex digest.
pub fn digest(data: &[u8]) -> (r: String)
    ensures
        r@ == blake3_hex(data@),
        r@.len() == 64,
{
    hash_to_hex(data)
}

/// Incremental digest over data arriving in pieces, for hashing a chunk read
/// back from the target (gap-fill, verify). Wraps the algorithm so the rest of
/// the crate never touches `blake3` directly.
pub struct Digester(blake3::Hasher);

impl View for Digester {
    type V = Seq<u8>;

    /// The bytes taken in so far.
    closed spec fn view(&self) -> Seq<u8> {
        absorbed(self.0)
    }
}

impl Default for Digester {
    fn default() -> (r: Self)
        ensures
            r@ == Seq::<u8>::empty(),
    {
        Digester(hasher_new())
    }
}

impl Digester {
    pub fn new() -> (r: Self)
        ensures
            r@ == Seq::<u8>::empty(),
    {
        Digester(hasher_new())
    }

    pub fn update(&mut self, data: &[u8])
        requires
            old(self)@.len() + data@.len() <= u64::MAX,
        ensures
            final(self)@ == old(self)@ + data@,
    {
        hasher_update(&mut self.0, data);
    }

    /// Finish and return the lowercase hex digest.
    pub fn finish(self) -> (r: String)
        ensures
            r@ == blake3_hex(self@),
            r@.len() == 64,
    {
        hasher_to_hex(&self.0)
    }
}

// ---------------------------------------------------------------------------
// The chunk grid.

/// The least `q` with `a <= q * b`.
pub open spec fn ceil_div(a: int, b: int) -> int {
    (a + b - 1) / b
}

/// The number of chunks that end at or before offset `end`: the grid lines up to
/// `end`, and the shorter tail chunk where `end` is the end of a known domain.
pub open spec fn chunks_ended(chunk_size: int, domain: int, end: int) -> int {
    if domain > 0 && end == domain {
        ceil_div(domain, chunk_size)
    } else {
        end / chunk_size
    }
}

/// Where chunk `index` ends: at its grid line, or at the end of a known domain.
pub open spec fn chunk_end(chunk_size: int, domain: int, index: int) -> int {
    let line = (index + 1) * chunk_size;
    if domain > 0 && domain < line {
        domain
    } else {
        line
    }
}

/// The texts of a list of strings.
pub open spec fn texts(list: Seq<String>) -> Seq<Seq<char>> {
    list.map_values(|s: String| s@)
}

/// The digest recorded for chunk `index`, `""` when there is none.
pub open spec fn digest_at(chunks: Seq<Seq<char>>, index: int) -> Seq<char> {
    if 0 <= index < chunks.len() {
        chunks[index]
    } else {
        Seq::empty()
    }
}

/// `chunks` with the digest of chunk `index` set, grown with `""` as needed.
pub open spec fn with_digest(chunks: Seq<Seq<char>>, index: int, digest: Seq<char>) -> Seq<
    Seq<char>,
> {
    Seq::new(
        if chunks.len() <= index {
            (index + 1) as nat
        } else {
            chunks.len()
        },
        |i: int| if i == index { digest } else { digest_at(chunks, i) },
    )
}

pub proof fn lemma_ceil_div(a: int, b: int, k: int)
    requires
        b > 0,
    ensures
        ceil_div(a, b) <= k <==> a <= k * b,
{
    let q = ceil_div(a, b);
    let r = (a + b - 1) % b;
    div_mod::lemma_fundamental_div_mod(a + b - 1, b);
    assert(q <= k <==> a <= k * b) by (nonlinear_arith)
        requires
            b > 0,
            a + b - 1 == b * q + r,
            0 <= r < b,
    ;
}

/// A piece that stays within one chunk moves to the next grid line at most.
pub proof fn lemma_within_chunk(chunk_size: int, pos: int, len: int)
    requires
        chunk_size > 0,
        0 <= pos,
        0 <= len,
        len <= chunk_size - pos % chunk_size,
    ensures
        0 <= pos / chunk_size,
        pos == pos / chunk_size * chunk_size + pos % chunk_size,
        0 <= pos % chunk_size < chunk_size,
        len < chunk_size - pos % chunk_size ==> (pos + len) / chunk_size == pos / chunk_size,
        len < chunk_size - pos % chunk_size ==> (pos + len) % chunk_size == pos % chunk_size + len,
        len == chunk_size - pos % chunk_size ==> (pos + len) / chunk_size == pos / chunk_size + 1,
        len == chunk_size - pos % chunk_size ==> (pos + len) % chunk_size == 0,
        (pos / chunk_size + 1) * chunk_size == pos / chunk_size * chunk_size + chunk_size,
{
    let q = pos / chunk_size;
    let r = pos % chunk_size;
    div_mod::lemma_fundamental_div_mod(pos, chunk_size);
    assert(chunk_size * q == q * chunk_size) by (nonlinear_arith);
    assert(0 <= q) by (nonlinear_arith)
        requires
            chunk_size > 0,
            0 <= pos,
            pos == chunk_size * q + r,
            0 <= r < chunk_size,
    ;
    assert((q + 1) * chunk_size == q * chunk_size + chunk_size) by (nonlinear_arith);
    if len < chunk_size - r {
        div_mod::lemma_fundamental_div_mod_converse(pos + len, chunk_size, q, r + len);
    } else {
        div_mod::lemma_fundamental_div_mod_converse(pos + len, chunk_size, q + 1, 0);
    }
}

pub proof fn lemma_quotients_grow(d: int, a: int, b: int)
    requires
        d > 0,
        a <= b,
    ensures
        a / d <= b / d,
{
    let (qa, qb, ra, rb) = (a / d, b / d, a % d, b % d);
    div_mod::lemma_fundamental_div_mod(a, d);
    div_mod::lemma_fundamental_div_mod(b, d);
    assert(qa <= qb) by (nonlinear_arith)
        requires
            d > 0,
            a <= b,
            a == d * qa + ra,
            b == d * qb + rb,
            0 <= ra < d,
            0 <= rb < d,
    ;
}

/// The number of ended chunks grows with the offset.
pub proof fn lemma_chunks_ended_grow(chunk_size: int, domain: int, a: int, b: int)
    requires
        chunk_size > 0,
        0 <= a <= b,
        domain > 0 ==> b <= domain,
    ensures
        0 <= chunks_ended(chunk_size, domain, a) <= chunks_ended(chunk_size, domain, b),
        chunks_ended(chunk_size, domain, b) <= ceil_div(b, chunk_size),
        ceil_div(b, chunk_size) <= b,
{
    let ca = a / chunk_size;
    let cb = b / chunk_size;
    div_mod::lemma_fundamental_div_mod(a, chunk_size);
    div_mod::lemma_fundamental_div_mod(b, chunk_size);
    let (ra, rb) = (a % chunk_size, b % chunk_size);
    assert(0 <= ca <= cb && cb * chunk_size <= b) by (nonlinear_arith)
        requires
            chunk_size > 0,
            0 <= a <= b,
            a == chunk_size * ca + ra,
            b == chunk_size * cb + rb,
            0 <= ra < chunk_size,
            0 <= rb < chunk_size,
    ;
    lemma_ceil_div(b, chunk_size, ceil_div(b, chunk_size));
    let c = ceil_div(b, chunk_size);
    assert(cb <= c) by (nonlinear_arith)
        requires
            chunk_size > 0,
            cb * chunk_size <= b,
            b <= c * chunk_size,
    ;
    lemma_ceil_div(b, chunk_size, b);
    assert(b <= b * chunk_size) by (nonlinear_arith)
        requires
            chunk_size > 0,
            0 <= b,
    ;
}

// ---------------------------------------------------------------------------
// The streaming hasher.

/// What a [`ChunkHasher`] knows: its grid, the digests so far, the offset the
/// next bytes must have to be contiguous, and the run of bytes that arrived
/// without a break up to that offset.
#[verifier::ext_equal]
pub struct HasherModel {
    pub chunk_size: int,
    pub domain: int,
    pub chunks: Seq<Seq<char>>,
    pub expected: int,
    pub run: Seq<u8>,
}

impl HasherModel {
    /// The offset of the first byte of the run.
    pub open spec fn run_start(self) -> int {
        self.expected - self.run.len()
    }

    /// The bytes of chunk `index`, all of which are in the run.
    pub open spec fn chunk_bytes(self, index: int) -> Seq<u8> {
        self.run.subrange(
            index * self.chunk_size - self.run_start(),
            chunk_end(self.chunk_size, self.domain, index) - self.run_start(),
        )
    }

    /// The run that `data` at `offset` continues, or starts afresh.
    pub open spec fn extended(self, offset: int, data: Seq<u8>) -> HasherModel {
        HasherModel {
            run: if offset == self.expected {
                self.run + data
            } else {
                data
            },
            expected: offset + data.len(),
            ..self
        }
    }

    /// Taking in `data` at `offset`: every chunk that ends inside it and began
    /// inside the run gets the digest of its bytes; no other digest changes.
    pub open spec fn feed(self, offset: int, data: Seq<u8>) -> HasherModel {
        if data.len() == 0 {
            self
        } else {
            let next = self.extended(offset, data);
            let before = chunks_ended(self.chunk_size, self.domain, offset);
            let whole = ceil_div(next.run_start(), self.chunk_size);
            let first = if before < whole {
                whole
            } else {
                before
            };
            let top = chunks_ended(self.chunk_size, self.domain, offset + data.len());
            HasherModel {
                chunks: Seq::new(
                    if first < top && self.chunks.len() < top {
                        top as nat
                    } else {
                        self.chunks.len()
                    },
                    |i: int|
                        if first <= i < top {
                            blake3_hex(next.chunk_bytes(i))
                        } else {
                            digest_at(self.chunks, i)
                        },
                ),
                ..next
            }
        }
    }

    /// A break in the stream up to `offset`: the run is dropped.
    pub open spec fn broken(self, offset: int) -> HasherModel {
        HasherModel { expected: offset, run: Seq::empty(), ..self }
    }

    /// Whether the run holds the beginning of a chunk that has not ended yet.
    pub open spec fn building(self) -> bool {
        &&& self.expected % self.chunk_size != 0
        &&& !(self.domain > 0 && self.expected == self.domain)
        &&& self.run_start() <= self.expected / self.chunk_size * self.chunk_size
    }

    /// A chunk under construction has bytes in the run.
    pub proof fn lemma_building_has_run(self)
        requires
            self.chunk_size > 0,
            0 <= self.expected,
            self.building(),
        ensures
            self.run.len() > 0,
    {
        lemma_within_chunk(self.chunk_size, self.expected, 0);
    }

    /// End of input of an unknown-size domain: the trailing partial chunk is
    /// hashed over its actual length.
    pub open spec fn finish(self) -> HasherModel {
        if self.domain == 0 && self.building() {
            let index = self.expected / self.chunk_size;
            HasherModel {
                chunks: with_digest(
                    self.chunks,
                    index,
                    blake3_hex(
                        self.run.subrange(
                            index * self.chunk_size - self.run_start(),
                            self.run.len() as int,
                        ),
                    ),
                ),
                ..self.broken(self.expected)
            }
        } else {
            self
        }
    }

    /// Whether `[offset, offset + len)` can be fed: it ends within `u64` and
    /// within a known domain, and the chunk numbers it completes are indices.
    pub open spec fn can_feed(self, offset: int, len: int) -> bool {
        &&& 0 <= offset
        &&& offset + len <= u64::MAX
        &&& self.domain > 0 ==> offset + len <= self.domain
        &&& chunks_ended(self.chunk_size, self.domain, offset + len) <= usize::MAX
    }

    /// The grid is a grid and the run lies before `expected`.
    pub open spec fn wf(self) -> bool {
        &&& self.chunk_size > 0
        &&& self.domain >= 0
        &&& self.run.len() <= self.expected <= u64::MAX
        &&& self.run.len() > 0 && self.domain > 0 ==> self.expected <= self.domain
    }
}

/// Streaming per-chunk hasher over domain offsets (`0..domain`).
///
/// Any jump in offset, and any read error, abandons the chunk under
/// construction (it keeps its prior value, usually empty). Chunk hashes are
/// indexed by chunk number, with the empty string meaning "not hashed"; the
/// list round-trips through the state file across resumes.
pub struct ChunkHasher {
    chunk_size: u64,
    /// Domain length, `0` = unknown (tail chunk finalised by [`Self::finish`]).
    domain: u64,
    /// Hex digests by chunk index; `""` = not hashed.
    chunks: Vec<String>,
    active: Option<Active>,
    /// The offset the next feed must start at to be contiguous. Starts as
    /// `u64::MAX` so the first feed only activates on a chunk boundary.
    expected: u64,
    /// The bytes that arrived without a break up to `expected`.
    run: Ghost<Seq<u8>>,
}

struct Active {
    index: u64,
    hasher: blake3::Hasher,
}

impl View for ChunkHasher {
    type V = HasherModel;

    closed spec fn view(&self) -> HasherModel {
        HasherModel {
            chunk_size: self.chunk_size as int,
            domain: self.domain as int,
            chunks: texts(self.chunks@),
            expected: self.expected as int,
            run: self.run@,
        }
    }
}

impl ChunkHasher {
    /// The grid is valid, and a chunk is under construction exactly when the
    /// run holds its beginning: its hasher has taken in those bytes.
    pub closed spec fn wf(&self) -> bool {
        &&& self@.wf()
        &&& self.active is Some <==> self@.building()
        &&& self.active matches Some(active) ==> {
            &&& active.index == self.expected as int / self.chunk_size as int
            &&& absorbed(active.hasher) == self.run@.skip(
                active.index * self.chunk_size - self@.run_start(),
            )
        }
    }

    pub proof fn lemma_wf(&self)
        requires
            self.wf(),
        ensures
            self@.wf(),
    {
    }

    /// A hasher for a domain of `domain` bytes (`0` = unknown), resuming from
    /// `prior` chunk digests (empty for a fresh run).
    pub fn new(chunk_size: u64, domain: u64, prior: Vec<String>) -> (r: Self)
        requires
            chunk_size > 0,
        ensures
            r.wf(),
            r@ == (HasherModel {
                chunk_size: chunk_size as int,
                domain: domain as int,
                chunks: texts(prior@),
                expected: u64::MAX as int,
                run: Seq::empty(),
            }),
    {
        let r = ChunkHasher {
            chunk_size,
            domain,
            chunks: prior,
            active: None,
            expected: u64::MAX,
            run: Ghost(Seq::empty()),
        };
        proof {
            div_mod::lemma_fundamental_div_mod(u64::MAX as int, chunk_size as int);
            r.lemma_not_building();
        }
        r
    }

    /// Without a run there is no chunk under construction.
    proof fn lemma_not_building(&self)
        requires
            self.chunk_size > 0,
            self.run@.len() == 0,
        ensures
            !self@.building(),
    {
        if self@.building() {
            self@.lemma_building_has_run();
        }
    }

    /// Feed the source bytes for `[offset, offset + data.len())`.
    pub fn feed(&mut self, offset: u64, data: &[u8])
        requires
            old(self).wf(),
            old(self)@.can_feed(offset as int, data@.len() as int),
        ensures
            final(self).wf(),
            final(self)@ == old(self)@.feed(offset as int, data@),
    {
        let ghost m = self@;
        let mut done: usize = 0;
        proof {
            assert(data@.take(0) =~= Seq::<u8>::empty());
        }
        while done < data.len()
            invariant
                done <= data@.len(),
                self.wf(),
                m.wf(),
                m.can_feed(offset as int, data@.len() as int),
                self@ == m.feed(offset as int, data@.take(done as int)),
            decreases data@.len() - done,
        {
            let pos = offset + done as u64;
            let within = pos % self.chunk_size;
            let left = (data.len() - done) as u64;
            let room = self.chunk_size - within;
            let take = if room < left { room } else { left };
            let stop = done + take as usize;
            let piece = &data[done..stop];
            proof {
                lemma_chunks_ended_grow(
                    m.chunk_size,
                    m.domain,
                    pos + take,
                    offset + data@.len(),
                );
                assert(data@.take(stop as int) =~= data@.take(done as int) + piece@);
                law_feed_in_pieces(m, offset as int, data@.take(done as int), piece@);
            }
            self.feed_piece(pos, piece);
            done = stop;
        }
        proof {
            assert(data@.take(data@.len() as int) =~= data@);
        }
    }

    /// Feed a non-empty piece that does not cross a chunk boundary.
    fn feed_piece(&mut self, offset: u64, data: &[u8])
        requires
            old(self).wf(),
            data@.len() > 0,
            offset % old(self)@.chunk_size as u64 + data@.len() <= old(self)@.chunk_size,
            old(self)@.can_feed(offset as int, data@.len() as int),
        ensures
            final(self).wf(),
            final(self)@ == old(self)@.feed(offset as int, data@),
    {
        let ghost m = self@;
        let ghost next = m.extended(offset as int, data@);
        let ghost c = m.chunk_size;
        let ghost rs = next.run_start();
        let index = offset / self.chunk_size;
        let end = offset + data.len() as u64;
        proof {
            lemma_within_chunk(c, offset as int, data@.len() as int);
            lemma_within_chunk(c, offset as int, 0);
            lemma_ceil_div(rs, c, index as int);
            lemma_ceil_div(rs, c, index - 1);
            lemma_ceil_div(m.domain, c, index + 1);
            lemma_ceil_div(m.domain, c, index as int);
            assert((index - 1) * c == index * c - c) by (nonlinear_arith);
        }
        if offset != self.expected {
            self.active = None;
        }
        if offset % self.chunk_size == 0 {
            self.active = Some(Active { index, hasher: hasher_new() });
            proof {
                assert(rs <= index * c);
            }
        }
        let ghost start = index * c - rs;
        self.expected = end;
        self.run = Ghost(next.run);
        let mut completed: Option<String> = None;
        let complete = end % self.chunk_size == 0 || (self.domain > 0 && end == self.domain);
        if let Some(mut active) = self.active.take() {
            proof {
                assert(rs <= index * c);
                assert(active.index == index);
                assert(absorbed(active.hasher) + data@ =~= next.run.skip(start));
            }
            hasher_update(&mut active.hasher, data);
            if complete {
                completed = Some(hasher_to_hex(&active.hasher));
                proof {
                    assert(next.chunk_bytes(index as int) =~= next.run.skip(start));
                }
            } else {
                self.active = Some(active);
            }
        }
        match completed {
            Some(text) => {
                self.put(index, text);
            },
            None => {},
        }
        proof {
            assert(self@.chunks =~= m.feed(offset as int, data@).chunks);
        }
    }

    /// Account for an unreadable range `[offset, offset + len)`: the chunk
    /// under construction is abandoned; chunks wholly inside the range simply
    /// never get a hasher.
    pub fn bad(&mut self, offset: u64, len: u64)
        requires
            old(self).wf(),
            offset + len <= u64::MAX,
        ensures
            final(self).wf(),
            final(self)@ == old(self)@.broken(offset + len),
    {
        self.active = None;
        self.expected = offset + len;
        self.run = Ghost(Seq::empty());
        proof {
            self.lemma_not_building();
        }
    }

    /// Finish an unknown-size domain at end-of-input: the trailing partial
    /// chunk is hashed over its actual length. (A known domain finalises its
    /// tail in [`Self::feed`].)
    pub fn finish(&mut self)
        requires
            old(self).wf(),
            old(self)@.building() ==> old(self)@.expected / old(self)@.chunk_size < usize::MAX,
        ensures
            final(self).wf(),
            final(self)@ == old(self)@.finish(),
    {
        if self.domain == 0 {
            let ghost m = self@;
            if let Some(active) = self.active.take() {
                let text = hasher_to_hex(&active.hasher);
                proof {
                    let start = active.index * m.chunk_size - m.run_start();
                    assert(m.run.skip(start) =~= m.run.subrange(start, m.run.len() as int));
                }
                self.run = Ghost(Seq::empty());
                self.put(active.index, text);
                proof {
                    self.lemma_not_building();
                }
            }
        }
    }

    /// The chunk digests accumulated so far (`""` = not hashed).
    pub fn chunks(&self) -> (r: &[String])
        ensures
            texts(r@) == self@.chunks,
    {
        self.chunks.as_slice()
    }

    /// The digest of chunk `index`, or `None` if it has none (yet).
    pub fn get(&self, index: u64) -> (r: Option<&str>)
        ensures
            r is Some <==> digest_at(self@.chunks, index as int).len() > 0,
            r matches Some(text) ==> text@ == digest_at(self@.chunks, index as int),
    {
        if index < self.chunks.len() as u64 {
            let text = self.chunks[index as usize].as_str();
            if text.unicode_len() > 0 {
                return Some(text);
            }
        }
        None
    }

    /// The chunk grid size in bytes.
    pub fn chunk_size(&self) -> (r: u64)
        ensures
            r == self@.chunk_size,
    {
        self.chunk_size
    }

    /// Store a digest for `index` (grows the list as needed), also used by the
    /// gap-fill pass.
    pub fn set(&mut self, index: u64, digest: String)
        requires
            old(self).wf(),
            index < usize::MAX,
        ensures
            final(self).wf(),
            final(self)@ == (HasherModel {
                chunks: with_digest(old(self)@.chunks, index as int, digest@),
                ..old(self)@
            }),
    {
        self.put(index, digest);
    }

    fn put(&mut self, index: u64, digest: String)
        requires
            index < usize::MAX,
        ensures
            final(self).chunk_size == old(self).chunk_size,
            final(self).domain == old(self).domain,
            final(self).active == old(self).active,
            final(self).expected == old(self).expected,
            final(self).run == old(self).run,
            texts(final(self).chunks@) == with_digest(
                texts(old(self).chunks@),
                index as int,
                digest@,
            ),
    {
        let ghost before = self.chunks@;
        let at = index as usize;
        while self.chunks.len() <= at
            invariant
                at == index,
                index < usize::MAX,
                self.chunk_size == old(self).chunk_size,
                self.domain == old(self).domain,
                self.active == old(self).active,
                self.expected == old(self).expected,
                self.run == old(self).run,
                before == old(self).chunks@,
                before.len() <= self.chunks@.len(),
                self.chunks@.len() <= at + 1 || self.chunks@.len() == before.len(),
                forall|i: int| 0 <= i < before.len() ==> self.chunks@[i] == before[i],
                forall|i: int|
                    before.len() <= i < self.chunks@.len() ==> (#[trigger] self.chunks@[i])@
                        =~= Seq::<char>::empty(),
            decreases at + 1 - self.chunks@.len(),
        {
            self.chunks.push(String::new());
        }
        self.chunks.set(at, digest);
        proof {
            assert(texts(self.chunks@) =~= with_digest(texts(before), index as int, digest@));
        }
    }
}

/// The number of chunks a domain of `domain` bytes spans.
pub fn chunk_count(domain: u64, chunk_size: u64) -> (r: u64)
    requires
        chunk_size > 0,
    ensures
        r == ceil_div(domain as int, chunk_size as int),
{
    let q = domain / chunk_size;
    proof {
        let c = chunk_size as int;
        lemma_within_chunk(c, domain as int, 0);
        lemma_ceil_div(domain as int, c, q as int);
        lemma_ceil_div(domain as int, c, q - 1);
        lemma_ceil_div(domain as int, c, q + 1);
        lemma_chunks_ended_grow(c, 0, 0, domain as int);
        assert((q - 1) * c == q * c - c) by (nonlinear_arith);
    }
    if domain % chunk_size == 0 {
        q
    } else {
        q + 1
    }
}

// ---------------------------------------------------------------------------
// Laws of the hasher.

/// How the bytes arrive does not matter: feeding two adjoining pieces one after
/// the other is feeding them at once.
pub proof fn law_feed_in_pieces(m: HasherModel, offset: int, a: Seq<u8>, b: Seq<u8>)
    requires
        m.wf(),
        m.can_feed(offset, (a + b).len() as int),
    ensures
        m.feed(offset, a).feed(offset + a.len(), b) == m.feed(offset, a + b),
{
    let one = m.feed(offset, a);
    let two = one.feed(offset + a.len(), b);
    let all = m.feed(offset, a + b);
    let c = m.chunk_size;
    if a.len() == 0 {
        assert(a + b =~= b);
    } else if b.len() == 0 {
        assert(a + b =~= a);
    } else {
        assert(two.run =~= all.run);
        let mid = offset + a.len();
        let end = mid + b.len();
        lemma_chunks_ended_grow(c, m.domain, offset, mid);
        lemma_chunks_ended_grow(c, m.domain, mid, end);
        let next = m.extended(offset, a);
        let rs = next.run_start();
        let whole = ceil_div(rs, c);
        assert(all.run_start() == rs && two.run_start() == rs);
        assert forall|i: int|
            whole <= i < chunks_ended(c, m.domain, mid) implies #[trigger] next.chunk_bytes(i)
            == m.extended(offset, a + b).chunk_bytes(i) by {
            lemma_ceil_div(rs, c, i);
            lemma_chunk_ends_by(c, m.domain, mid, i);
            lemma_chunk_not_empty(c, m.domain, i, mid);
            assert(next.chunk_bytes(i) =~= m.extended(offset, a + b).chunk_bytes(i));
        }
        assert(one.extended(mid, b).run =~= m.extended(offset, a + b).run);
        assert(two.chunks =~= all.chunks);
    }
}

/// A chunk counted as ended at `end` does end there or before.
proof fn lemma_chunk_ends_by(chunk_size: int, domain: int, end: int, index: int)
    requires
        chunk_size > 0,
        0 <= end,
        domain > 0 ==> end <= domain,
        index < chunks_ended(chunk_size, domain, end),
    ensures
        chunk_end(chunk_size, domain, index) <= end,
{
    if !(domain > 0 && end == domain) {
        lemma_within_chunk(chunk_size, end, 0);
        let q = end / chunk_size;
        assert((index + 1) * chunk_size <= q * chunk_size) by (nonlinear_arith)
            requires
                index + 1 <= q,
                chunk_size > 0,
        ;
    }
}

/// A chunk that ends by `end` begins before it ends.
proof fn lemma_chunk_not_empty(chunk_size: int, domain: int, index: int, end: int)
    requires
        chunk_size > 0,
        0 <= end,
        domain > 0 ==> end <= domain,
        index < chunks_ended(chunk_size, domain, end),
    ensures
        index * chunk_size < chunk_end(chunk_size, domain, index),
{
    assert((index + 1) * chunk_size == index * chunk_size + chunk_size) by (nonlinear_arith);
    lemma_ceil_div(domain, chunk_size, index);
    if domain > 0 && end != domain {
        lemma_within_chunk(chunk_size, end, 0);
        let q = end / chunk_size;
        assert(index * chunk_size + chunk_size <= q * chunk_size) by (nonlinear_arith)
            requires
                index + 1 <= q,
                chunk_size > 0,
        ;
    }
}

/// The bytes of chunk `index` of a source.
pub open spec fn source_chunk(source: Seq<u8>, chunk_size: int, domain: int, index: int) -> Seq<u8> {
    source.subrange(index * chunk_size, chunk_end(chunk_size, domain, index))
}

/// What the hasher records is true of the source: as long as the run and the fed
/// bytes are the bytes of `source` at their offsets, the run stays so, and every
/// digest is either the one recorded before or the hash of that chunk of
/// `source`.
pub proof fn law_digests_are_of_the_source(
    m: HasherModel,
    source: Seq<u8>,
    offset: int,
    data: Seq<u8>,
)
    requires
        m.wf(),
        m.can_feed(offset, data.len() as int),
        offset + data.len() <= source.len(),
        data == source.subrange(offset, offset + data.len()),
        m.run.len() > 0 ==> m.expected <= source.len(),
        m.run.len() > 0 ==> m.run == source.subrange(m.run_start(), m.expected),
    ensures
        ({
            let next = m.feed(offset, data);
            &&& next.wf()
            &&& next.run.len() > 0 ==> next.expected <= source.len()
            &&& next.run.len() > 0 ==> next.run == source.subrange(next.run_start(), next.expected)
            &&& forall|i: int|
                0 <= i ==> digest_at(next.chunks, i) == digest_at(m.chunks, i) || (
                #[trigger] digest_at(next.chunks, i) == blake3_hex(
                    source_chunk(source, m.chunk_size, m.domain, i),
                ) && chunk_end(m.chunk_size, m.domain, i) <= source.len())
        }),
{
    if data.len() > 0 {
        let next = m.extended(offset, data);
        let fed = m.feed(offset, data);
        let c = m.chunk_size;
        assert(next.run =~= source.subrange(next.run_start(), next.expected));
        let end = offset + data.len();
        let top = chunks_ended(c, m.domain, end);
        let whole = ceil_div(next.run_start(), c);
        assert forall|i: int| 0 <= i implies digest_at(fed.chunks, i) == digest_at(m.chunks, i) || (
        #[trigger] digest_at(fed.chunks, i) == blake3_hex(source_chunk(source, c, m.domain, i))
            && chunk_end(c, m.domain, i) <= source.len()) by {
            if whole <= i < top {
                lemma_ceil_div(next.run_start(), c, i);
                lemma_chunk_ends_by(c, m.domain, end, i);
                lemma_chunk_not_empty(c, m.domain, i, end);
                assert(next.chunk_bytes(i) =~= source_chunk(source, c, m.domain, i));
            }
        }
    }
}

/// Feeding bytes leaves the digests of all chunks alone that begin where the
/// bytes end, or later.
pub proof fn lemma_feed_leaves_later_chunks(m: HasherModel, offset: int, data: Seq<u8>, index: int)
    requires
        m.wf(),
        m.can_feed(offset, data.len() as int),
        0 <= index,
        offset + data.len() <= index * m.chunk_size,
    ensures
        digest_at(m.feed(offset, data).chunks, index) == digest_at(m.chunks, index),
{
    let end = offset + data.len();
    if data.len() > 0 && index < chunks_ended(m.chunk_size, m.domain, end) {
        lemma_chunk_ends_by(m.chunk_size, m.domain, end, index);
        lemma_chunk_not_empty(m.chunk_size, m.domain, index, end);
    }
}

/// A clean run leaves no gap: after one contiguous stream from the first byte to
/// the end of a known domain, in whatever pieces, every chunk has its digest.
pub proof fn law_whole_stream_hashes_every_chunk(m: HasherModel, source: Seq<u8>, index: int)
    requires
        m.wf(),
        m.domain > 0,
        source.len() == m.domain,
        m.run.len() == 0,
        m.can_feed(0, source.len() as int),
        0 <= index < ceil_div(m.domain, m.chunk_size),
    ensures
        digest_at(m.feed(0, source).chunks, index) == blake3_hex(
            source_chunk(source, m.chunk_size, m.domain, index),
        ),
{
    let next = m.extended(0, source);
    let c = m.chunk_size;
    assert(m.run + source =~= source);
    lemma_ceil_div(0, c, 0);
    lemma_ceil_div(0, c, -1);
    lemma_chunks_ended_grow(c, m.domain, 0, 0);
    lemma_within_chunk(c, 0, 0);
    div_mod::lemma_fundamental_div_mod_converse(0, c, 0, 0);
    assert(next.chunk_bytes(index) =~= source_chunk(source, c, m.domain, index));
}

/// The same where the size is unknown: once the input has ended, every chunk with
/// a byte in it has its digest, the last one over the bytes it has.
pub proof fn law_whole_input_hashes_every_chunk(m: HasherModel, source: Seq<u8>, index: int)
    requires
        m.wf(),
        m.domain == 0,
        m.run.len() == 0,
        m.can_feed(0, source.len() as int),
        0 <= index,
        index * m.chunk_size < source.len(),
    ensures
        digest_at(m.feed(0, source).finish().chunks, index) == blake3_hex(
            source.subrange(
                index * m.chunk_size,
                if (index + 1) * m.chunk_size <= source.len() {
                    (index + 1) * m.chunk_size
                } else {
                    source.len() as int
                },
            ),
        ),
{
    let next = m.extended(0, source);
    let fed = m.feed(0, source);
    let c = m.chunk_size;
    let n = source.len() as int;
    assert(m.run + source =~= source);
    lemma_ceil_div(0, c, 0);
    lemma_ceil_div(0, c, -1);
    lemma_within_chunk(c, 0, 0);
    div_mod::lemma_fundamental_div_mod_converse(0, c, 0, 0);
    lemma_within_chunk(c, n, 0);
    let q = n / c;
    let r = n % c;
    assert((index + 1) * c <= n <==> index < q) by (nonlinear_arith)
        requires
            c > 0,
            n == q * c + r,
            0 <= r < c,
    ;
    if index < q {
        assert(next.chunk_bytes(index) =~= source.subrange(index * c, (index + 1) * c));
        assert(fed.finish().chunks[index] == fed.chunks[index]);
    } else {
        assert(index == q && r != 0) by (nonlinear_arith)
            requires
                c > 0,
                n == q * c + r,
                0 <= r < c,
                index >= q,
                index * c < n,
        ;
        assert(fed.building());
        assert(fed.run.subrange(q * c - fed.run_start(), n) =~= source.subrange(q * c, n));
    }
}

} // verus!
