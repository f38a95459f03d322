use best_practices::cli::fs::{digest_content, DigestStep, Digester, TreeItemBuilder, CHUNK};
use best_practices::error::Error;

fn blake2b_256(bytes: &[u8]) -> String {
    blake2b_simd::Params::new().hash_length(32).hash(bytes).to_hex().to_string()
}

fn patterned(len: usize) -> Vec<u8> {
    let mut bytes = Vec::with_capacity(len);
    for i in 0..len {
        bytes.push((i % 251) as u8);
    }
    bytes
}

/// Reads `content` as a file would be read, at most `most` bytes at a time.
fn stream(content: &[u8], fast: bool, most: usize) -> (String, Vec<(u64, usize)>) {
    let mut d = Digester::new("f", content.len() as u64, fast);
    let mut reads = Vec::new();
    loop {
        match d.step() {
            DigestStep::Done => break,
            DigestStep::Read { at, len } => {
                reads.push((at, len));
                let from = at as usize;
                let n = if len < most { len } else { most };
                assert!(d.feed(&content[from..from + n]));
            }
        }
    }
    (d.finish().digest, reads)
}

#[test]
fn chunk_is_one_mebibyte() {
    assert_eq!(CHUNK, 1_048_576);
}

#[test]
fn digest_of_empty_content() {
    let item = digest_content("empty", b"", false);
    assert_eq!(
        item.digest,
        "0e5751c026e543b2e8ab2eb06099daa1d1e5df47778f7787faab45cdf12fe3a8"
    );
    assert_eq!(item.size, 0);
    assert_eq!(item.path, "empty");
}

#[test]
fn digest_of_hello() {
    let item = TreeItemBuilder::new().path("a").build(Some(b"hello")).unwrap();
    assert_eq!(item.digest, blake2b_256(b"hello"));
    assert_ne!(item.digest, "hello");
    assert_eq!(item.size, 5);
    assert_eq!(item.path, "a");
}

#[test]
fn digest_is_lowercase_hex_of_32_bytes() {
    let item = digest_content("x", b"some content", true);
    assert_eq!(item.digest.len(), 64);
    assert!(item.digest.chars().all(|c| c.is_ascii_digit() || ('a'..='f').contains(&c)));
}

#[test]
fn same_content_same_digest() {
    let bytes = patterned(70_000);
    let one = digest_content("one", &bytes, false);
    let two = digest_content("two", &bytes, false);
    assert_eq!(one.digest, two.digest);
    let fast_one = digest_content("one", &bytes, true);
    let fast_two = digest_content("one", &bytes, true);
    assert_eq!(fast_one.digest, fast_two.digest);
}

#[test]
fn different_content_different_digest() {
    let hello = digest_content("a", b"hello", false);
    let world = digest_content("c", b"world", false);
    assert_ne!(hello.digest, world.digest);
}

#[test]
fn fast_equals_full_up_to_one_chunk() {
    for len in [0usize, 1, 5, 4096, CHUNK - 1, CHUNK] {
        let bytes = patterned(len);
        let full = digest_content("f", &bytes, false);
        let fast = digest_content("f", &bytes, true);
        assert_eq!(full.digest, fast.digest);
        assert_eq!(full.digest, blake2b_256(&bytes));
        assert_eq!(fast.size, len as u64);
    }
}

#[test]
fn fast_hashes_head_and_tail_only() {
    let bytes = patterned(3 * CHUNK + 17);
    let mut sampled = bytes[..CHUNK].to_vec();
    sampled.extend_from_slice(&bytes[bytes.len() - (CHUNK - 1)..]);
    let fast = digest_content("big", &bytes, true);
    assert_eq!(fast.digest, blake2b_256(&sampled));
    assert_eq!(fast.size, (3 * CHUNK + 17) as u64);
    let full = digest_content("big", &bytes, false);
    assert_eq!(full.digest, blake2b_256(&bytes));
    assert_ne!(full.digest, fast.digest);
}

#[test]
fn fast_ignores_the_middle() {
    let bytes = patterned(2 * CHUNK + 100);
    let mut changed = bytes.clone();
    // the first byte behind the head and the last byte before the tail
    changed[CHUNK] ^= 0xff;
    let last_middle = changed.len() - CHUNK;
    changed[last_middle] ^= 0xff;
    assert_eq!(
        digest_content("f", &bytes, true).digest,
        digest_content("f", &changed, true).digest
    );
    assert_ne!(
        digest_content("f", &bytes, false).digest,
        digest_content("f", &changed, false).digest
    );
}

#[test]
fn fast_sees_the_edges_of_head_and_tail() {
    let bytes = patterned(2 * CHUNK + 100);
    let mut head = bytes.clone();
    head[CHUNK - 1] ^= 0xff;
    assert_ne!(
        digest_content("f", &bytes, true).digest,
        digest_content("f", &head, true).digest
    );
    let mut tail = bytes.clone();
    let first_of_tail = tail.len() - (CHUNK - 1);
    tail[first_of_tail] ^= 0xff;
    assert_ne!(
        digest_content("f", &bytes, true).digest,
        digest_content("f", &tail, true).digest
    );
}

#[test]
fn fast_with_overlapping_head_and_tail() {
    // one byte more than a chunk: the tail starts at offset 2
    let bytes = patterned(CHUNK + 1);
    let mut sampled = bytes[..CHUNK].to_vec();
    sampled.extend_from_slice(&bytes[2..]);
    assert_eq!(digest_content("f", &bytes, true).digest, blake2b_256(&sampled));
}

#[test]
fn digester_asks_for_chunks_in_order() {
    let bytes = patterned(2 * CHUNK + 10);
    let (digest, reads) = stream(&bytes, false, CHUNK);
    assert_eq!(reads, vec![(0, CHUNK), (CHUNK as u64, CHUNK), (2 * CHUNK as u64, 10)]);
    assert_eq!(digest, blake2b_256(&bytes));
}

#[test]
fn digester_skips_to_the_tail_in_fast_mode() {
    let bytes = patterned(5 * CHUNK);
    let (digest, reads) = stream(&bytes, true, CHUNK);
    assert_eq!(reads, vec![(0, CHUNK), ((4 * CHUNK + 1) as u64, CHUNK - 1)]);
    assert_eq!(digest, digest_content("f", &bytes, true).digest);
}

#[test]
fn digester_takes_short_reads() {
    let bytes = patterned(2 * CHUNK + 4097);
    let (full, _) = stream(&bytes, false, 65_536);
    assert_eq!(full, digest_content("f", &bytes, false).digest);
    let (fast, _) = stream(&bytes, true, 100_000);
    assert_eq!(fast, digest_content("f", &bytes, true).digest);
}

#[test]
fn digester_refuses_what_was_not_asked_for() {
    let mut d = Digester::new("f", 10, false);
    assert!(!d.feed(&[]));
    assert!(!d.feed(&[0u8; 11]));
    assert_eq!(d.step(), DigestStep::Read { at: 0, len: 10 });
    assert!(d.feed(&[1u8; 4]));
    assert_eq!(d.step(), DigestStep::Read { at: 4, len: 6 });
    assert!(!d.feed(&[1u8; 7]));
    assert!(d.feed(&[1u8; 6]));
    assert_eq!(d.step(), DigestStep::Done);
    assert!(!d.feed(&[1u8; 1]));
    let item = d.finish();
    assert_eq!(item.digest, blake2b_256(&[1u8; 10]));
    assert_eq!(item.size, 10);
    assert_eq!(item.path, "f");
}

#[test]
fn digester_of_empty_file_is_done_at_once() {
    let d = Digester::new("nothing", 0, true);
    assert_eq!(d.step(), DigestStep::Done);
    assert_eq!(d.finish().digest, blake2b_256(b""));
}

#[test]
fn not_a_file() {
    match TreeItemBuilder::new().fast(true).path("some/dir").build(None) {
        Err(Error::NotAFile(path)) => assert_eq!(path, "some/dir"),
        _ => panic!("expected NotAFile"),
    }
    match TreeItemBuilder::new().path("some/dir").digester(None) {
        Err(Error::NotAFile(path)) => assert_eq!(path, "some/dir"),
        _ => panic!("expected NotAFile"),
    }
    match TreeItemBuilder::new().build(None) {
        Err(Error::NotAFile(path)) => assert_eq!(path, ""),
        _ => panic!("expected NotAFile"),
    }
}

#[test]
fn builder_starts_a_digester() {
    let d = TreeItemBuilder::new().fast(true).path("p").digester(Some(3)).unwrap();
    assert_eq!(d.step(), DigestStep::Read { at: 0, len: 3 });
    let mut d = d;
    assert!(d.feed(b"abc"));
    let item = d.finish();
    assert_eq!(item.path, "p");
    assert_eq!(item.size, 3);
    assert_eq!(item.digest, blake2b_256(b"abc"));
}
