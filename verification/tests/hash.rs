use exhume::hash::{chunk_count, digest, ChunkHasher, Digester};

fn data(len: usize) -> Vec<u8> {
    (0..len).map(|i| u8::try_from(i % 251).unwrap()).collect()
}

#[test]
fn contiguous_feeds_hash_whole_chunks() {
    let bytes = data(1024);
    let mut h = ChunkHasher::new(256, 1024, Vec::new());
    // Feed in odd-sized pieces straddling chunk boundaries.
    h.feed(0, &bytes[0..100]);
    h.feed(100, &bytes[100..600]);
    h.feed(600, &bytes[600..1024]);

    let expect: Vec<String> = bytes.chunks(256).map(digest).collect();
    assert_eq!(h.chunks(), &expect[..]);
}

#[test]
fn tail_chunk_is_hashed_over_its_actual_length() {
    let bytes = data(300);
    let mut h = ChunkHasher::new(256, 300, Vec::new());
    h.feed(0, &bytes);
    assert_eq!(
        h.chunks(),
        &[digest(&bytes[..256]), digest(&bytes[256..])][..]
    );
}

#[test]
fn a_gap_abandons_only_the_straddled_chunks() {
    let bytes = data(1024);
    let mut h = ChunkHasher::new(256, 1024, Vec::new());
    h.feed(0, &bytes[0..256]); // chunk 0 complete
    h.feed(300, &bytes[300..1024]); // jump: chunk 1 unhashable, 2 and 3 fine

    assert_eq!(h.chunks()[0], digest(&bytes[0..256]));
    assert_eq!(h.chunks()[1], "");
    assert_eq!(h.chunks()[2], digest(&bytes[512..768]));
    assert_eq!(h.chunks()[3], digest(&bytes[768..1024]));
}

#[test]
fn a_bad_range_poisons_its_chunks() {
    let bytes = data(1024);
    let mut h = ChunkHasher::new(256, 1024, Vec::new());
    h.feed(0, &bytes[0..200]);
    h.bad(200, 112); // ruins chunk 0 and reaches into chunk 1
    h.feed(312, &bytes[312..1024]);

    assert_eq!(h.chunks()[0], "");
    assert_eq!(h.chunks()[1], "");
    assert_eq!(h.chunks()[2], digest(&bytes[512..768]));
    assert_eq!(h.chunks()[3], digest(&bytes[768..1024]));
}

#[test]
fn a_resume_mid_chunk_stays_unhashed_until_the_next_boundary() {
    let bytes = data(768);
    let mut h = ChunkHasher::new(256, 768, Vec::new());
    // Resume lands mid-chunk 0: no hasher until chunk 1 starts.
    h.feed(128, &bytes[128..768]);
    assert_eq!(h.chunks()[0], "");
    assert_eq!(h.chunks()[1], digest(&bytes[256..512]));
    assert_eq!(h.chunks()[2], digest(&bytes[512..768]));
}

#[test]
fn unknown_domain_finishes_its_tail_explicitly() {
    let bytes = data(300);
    let mut h = ChunkHasher::new(256, 0, Vec::new());
    h.feed(0, &bytes);
    assert_eq!(h.chunks().len(), 1, "tail chunk still open");
    h.finish();
    assert_eq!(h.chunks().len(), 2);
    assert_eq!(h.chunks()[1], digest(&bytes[256..]));
}

#[test]
fn prior_digests_survive_a_resume() {
    let bytes = data(512);
    let prior = vec![digest(&bytes[..256]), String::new()];
    let mut h = ChunkHasher::new(256, 512, prior);
    h.feed(256, &bytes[256..]);
    assert_eq!(
        h.chunks(),
        &[digest(&bytes[..256]), digest(&bytes[256..])][..]
    );
}

#[test]
fn chunk_count_rounds_up() {
    assert_eq!(chunk_count(0, 256), 0);
    assert_eq!(chunk_count(256, 256), 1);
    assert_eq!(chunk_count(257, 256), 2);
    assert_eq!(chunk_count(u64::MAX, 2), 1 << 63);
}

#[test]
fn the_digest_is_blake3_in_lowercase_hex() {
    // The published test vector for the empty input.
    assert_eq!(
        digest(b""),
        "af1349b9f5f9a1a6a0404dea36dcc9499bcb25c9adc112b7cc9a93cae41f3262"
    );
    assert_eq!(digest(b"abc"), blake3::hash(b"abc").to_hex().to_string());
}

#[test]
fn an_incremental_digest_is_the_digest_of_the_whole() {
    let bytes = data(5000);
    let mut d = Digester::new();
    d.update(&bytes[..1]);
    d.update(&bytes[1..1024]);
    d.update(&bytes[1024..]);
    assert_eq!(d.finish(), digest(&bytes));
    assert_eq!(Digester::default().finish(), digest(b""));
}

#[test]
fn pieces_of_any_size_give_the_same_digests() {
    let bytes = data(700);
    let mut whole = ChunkHasher::new(100, 700, Vec::new());
    whole.feed(0, &bytes);
    for size in [1usize, 7, 99, 100, 101, 350] {
        let mut h = ChunkHasher::new(100, 700, Vec::new());
        let mut at = 0u64;
        for piece in bytes.chunks(size) {
            h.feed(at, piece);
            at += piece.len() as u64;
        }
        assert_eq!(h.chunks(), whole.chunks());
    }
}

#[test]
fn stored_digests_are_found_and_missing_ones_are_not() {
    let mut h = ChunkHasher::new(256, 4096, Vec::new());
    assert_eq!(h.get(0), None);
    h.set(3, "aa11".to_string());
    assert_eq!(h.chunks().len(), 4);
    assert_eq!(h.get(3), Some("aa11"));
    assert_eq!(h.get(2), None);
    assert_eq!(h.get(u64::MAX), None);
    assert_eq!(h.chunk_size(), 256);
}

#[test]
fn an_empty_feed_changes_nothing() {
    let bytes = data(256);
    let mut h = ChunkHasher::new(256, 512, Vec::new());
    h.feed(0, &bytes[..100]);
    h.feed(400, &[]);
    h.feed(100, &bytes[100..256]);
    assert_eq!(h.chunks(), &[digest(&bytes)][..]);
}
