//! Streaming digests of file content, in full or sampled at head and tail.

use vstd::prelude::*;
use vstd::slice::slice_subrange;
use crate::cli::fs::hasher::{absorbed, blake2b_hex, hasher_hex, hasher_new, hasher_update, is_hex_digest};
use crate::cli::fs::treeitem::{ItemView, TreeItem};

verus! {

/// The number of bytes read and hashed at a time: 1 MiB.
pub const CHUNK: usize = 1_048_576;

/// The bytes of `content` that enter its digest. A fast digest of more
/// than `CHUNK` bytes takes the first `CHUNK` bytes and the last
/// `CHUNK - 1`; every other digest takes them all.
pub open spec fn hashed_bytes(content: Seq<u8>, fast: bool) -> Seq<u8> {
    if fast && content.len() > CHUNK {
        content.subrange(0, CHUNK as int) + content.subrange(
            content.len() - (CHUNK - 1),
            content.len() as int,
        )
    } else {
        content
    }
}

/// The digest of a file that holds `content`.
pub open spec fn content_digest(content: Seq<u8>, fast: bool) -> Seq<char> {
    blake2b_hex(hashed_bytes(content, fast))
}

/// What a digest in progress asks for next.
#[derive(Clone, Copy, Debug, PartialEq, Eq, Structural)]
pub enum DigestStep {
    /// Read up to `len` bytes that start `at` bytes into the file, and
    /// feed them.
    Read { at: u64, len: usize },
    /// Everything that enters the digest has been fed.
    Done,
}

/// The record of a file at `path` that holds `content`.
pub open spec fn content_record(path: Seq<char>, content: Seq<u8>, fast: bool) -> ItemView {
    ItemView { digest: content_digest(content, fast), path, size: content.len() as u64 }
}

/// The state of a digest in progress.
pub struct DigestView {
    /// The path of the file.
    pub path: Seq<char>,
    /// Whether only head and tail of a large file are hashed.
    pub fast: bool,
    /// The size of the file in bytes.
    pub size: u64,
    /// The offset in the file of the next byte to feed.
    pub pos: u64,
    /// Whether the head of a sampled file is done and its tail is being fed.
    pub in_tail: bool,
    /// All bytes fed so far.
    pub fed: Seq<u8>,
}

impl DigestView {
    /// Whether the middle of the file is skipped.
    pub open spec fn sampled(self) -> bool {
        self.fast && self.size > CHUNK
    }

    /// Where the tail of a sampled file starts.
    pub open spec fn tail_start(self) -> int {
        self.size - (CHUNK - 1)
    }

    /// The end of the region that is being fed.
    pub open spec fn limit(self) -> int {
        if self.sampled() && !self.in_tail {
            CHUNK as int
        } else {
            self.size as int
        }
    }

    /// The state is in order: the position lies in the region that is
    /// being fed.
    pub open spec fn wf(self) -> bool {
        &&& self.pos <= self.limit()
        &&& self.in_tail ==> self.sampled() && self.tail_start() <= self.pos
        &&& self.sampled() && !self.in_tail ==> self.pos < CHUNK
    }

    /// The number of bytes that the next read may bring at most.
    pub open spec fn want(self) -> int {
        if self.limit() - self.pos < CHUNK {
            self.limit() - self.pos
        } else {
            CHUNK as int
        }
    }

    /// Everything that enters the digest has been fed.
    pub open spec fn done(self) -> bool {
        self.pos == self.limit()
    }

    /// What is asked for in this state.
    pub open spec fn step(self) -> DigestStep {
        if self.done() {
            DigestStep::Done
        } else {
            DigestStep::Read { at: self.pos, len: self.want() as usize }
        }
    }

    /// A chunk is taken when it is not empty and no longer than asked for.
    pub open spec fn accepts(self, chunk: Seq<u8>) -> bool {
        0 < chunk.len() <= self.want()
    }

    /// The state after `chunk` was fed: it is hashed, and the position
    /// moves behind it, or to the start of the tail when the head of a
    /// sampled file is complete.
    pub open spec fn after(self, chunk: Seq<u8>) -> DigestView {
        let end = self.pos + chunk.len();
        if self.sampled() && !self.in_tail && end == CHUNK {
            DigestView {
                pos: self.tail_start() as u64,
                in_tail: true,
                fed: self.fed + chunk,
                ..self
            }
        } else {
            DigestView { pos: end as u64, fed: self.fed + chunk, ..self }
        }
    }

    /// What has been fed when every chunk came from `content` at the
    /// position asked for.
    pub open spec fn expected(self, content: Seq<u8>) -> Seq<u8> {
        if self.in_tail {
            content.subrange(0, CHUNK as int) + content.subrange(self.tail_start(), self.pos as int)
        } else {
            content.subrange(0, self.pos as int)
        }
    }

    /// The digest so far is one of a file that holds `content`.
    pub open spec fn tracks(self, content: Seq<u8>) -> bool {
        &&& self.size == content.len()
        &&& self.fed == self.expected(content)
    }

    /// Where the digest of a file of `size` bytes starts.
    pub open spec fn start(path: Seq<char>, size: u64, fast: bool) -> DigestView {
        DigestView { path, fast, size, pos: 0, in_tail: false, fed: Seq::empty() }
    }

    /// The state after the chunks were fed, in order.
    pub open spec fn run(self, chunks: Seq<Seq<u8>>) -> DigestView
        decreases chunks.len(),
    {
        if chunks.len() == 0 {
            self
        } else {
            self.run(chunks.drop_last()).after(chunks.last())
        }
    }

    /// Every one of the chunks was taken, and was what `content` holds at
    /// the position that was asked for.
    pub open spec fn reads(self, content: Seq<u8>, chunks: Seq<Seq<u8>>) -> bool
        decreases chunks.len(),
    {
        if chunks.len() == 0 {
            true
        } else {
            let before = self.run(chunks.drop_last());
            &&& self.reads(content, chunks.drop_last())
            &&& before.accepts(chunks.last())
            &&& chunks.last() == content.subrange(
                before.pos as int,
                before.pos + chunks.last().len(),
            )
        }
    }
}

/// Feeding the bytes that were asked for keeps a digest on its file.
pub proof fn lemma_feed_tracks(v: DigestView, content: Seq<u8>, chunk: Seq<u8>)
    requires
        v.wf(),
        v.tracks(content),
        v.accepts(chunk),
        chunk == content.subrange(v.pos as int, v.pos + chunk.len()),
    ensures
        v.after(chunk).wf(),
        v.after(chunk).tracks(content),
{
    let w = v.after(chunk);
    let end = v.pos + chunk.len();
    if v.in_tail {
        assert(content.subrange(v.tail_start(), v.pos as int) + chunk =~= content.subrange(
            v.tail_start(),
            end,
        ));
        assert(w.fed =~= w.expected(content));
    } else if v.sampled() && end == CHUNK {
        assert(w.fed =~= content.subrange(0, CHUNK as int));
        assert(content.subrange(w.tail_start(), w.pos as int) =~= Seq::<u8>::empty());
        assert(w.fed =~= w.expected(content));
    } else {
        assert(w.fed =~= w.expected(content));
    }
}

/// A digest that stayed on its file until nothing more was asked for has
/// been fed exactly the bytes that enter the digest of that file.
pub proof fn lemma_done_hashed(v: DigestView, content: Seq<u8>)
    requires
        v.wf(),
        v.tracks(content),
        v.done(),
    ensures
        v.fed == hashed_bytes(content, v.fast),
{
    if v.in_tail {
    } else {
        assert(content.subrange(0, v.pos as int) =~= content);
    }
}

/// A file can be read in chunks of any accepted length: when nothing more
/// is asked for, the digest is the digest of its content.
pub proof fn lemma_streamed_digest(
    path: Seq<char>,
    content: Seq<u8>,
    fast: bool,
    chunks: Seq<Seq<u8>>,
)
    requires
        content.len() <= u64::MAX,
        DigestView::start(path, content.len() as u64, fast).reads(content, chunks),
    ensures
        ({
            let end = DigestView::start(path, content.len() as u64, fast).run(chunks);
            &&& end.wf()
            &&& end.tracks(content)
            &&& end.done() ==> blake2b_hex(end.fed) == content_digest(content, fast)
        }),
    decreases chunks.len(),
{
    let start = DigestView::start(path, content.len() as u64, fast);
    if chunks.len() == 0 {
        assert(start.fed =~= start.expected(content));
    } else {
        lemma_streamed_digest(path, content, fast, chunks.drop_last());
        lemma_feed_tracks(start.run(chunks.drop_last()), content, chunks.last());
    }
    let end = start.run(chunks);
    lemma_run_keeps_mode(start, chunks);
    if end.done() {
        lemma_done_hashed(end, content);
    }
}

/// Feeding changes neither the mode nor the size nor the path.
pub proof fn lemma_run_keeps_mode(v: DigestView, chunks: Seq<Seq<u8>>)
    ensures
        v.run(chunks).fast == v.fast,
        v.run(chunks).size == v.size,
        v.run(chunks).path == v.path,
    decreases chunks.len(),
{
    if chunks.len() > 0 {
        lemma_run_keeps_mode(v, chunks.drop_last());
    }
}

/// Files that hold the same content have, in the same mode, the same
/// digest and size, wherever they are.
pub proof fn lemma_same_content_same_digest(
    path: Seq<char>,
    other_path: Seq<char>,
    content: Seq<u8>,
    other_content: Seq<u8>,
    fast: bool,
)
    requires
        content == other_content,
    ensures
        content_record(path, content, fast).digest == content_record(
            other_path,
            other_content,
            fast,
        ).digest,
        content_record(path, content, fast).size == content_record(
            other_path,
            other_content,
            fast,
        ).size,
{
}

/// A fast digest of a file of at most `CHUNK` bytes is its full digest.
pub proof fn lemma_fast_is_full_when_small(content: Seq<u8>)
    requires
        content.len() <= CHUNK,
    ensures
        content_digest(content, true) == content_digest(content, false),
{
}

/// Two files of one size above `CHUNK` bytes that agree on their first
/// `CHUNK` bytes and on their last `CHUNK - 1` bytes have the same fast
/// digest, whatever lies between.
pub proof fn lemma_fast_ignores_middle(a: Seq<u8>, b: Seq<u8>)
    requires
        a.len() == b.len(),
        a.len() > CHUNK,
        forall|i: int| 0 <= i < CHUNK ==> a[i] == b[i],
        forall|i: int| a.len() - (CHUNK - 1) <= i < a.len() ==> a[i] == b[i],
    ensures
        content_digest(a, true) == content_digest(b, true),
{
    assert(hashed_bytes(a, true) =~= hashed_bytes(b, true));
}

/// One file's digest in progress. It says which bytes to read next, takes
/// them in, and ends with the digest.
pub struct Digester {
    path: String,
    hash: blake2b_simd::State,
    fast: bool,
    size: u64,
    pos: u64,
    in_tail: bool,
}

impl View for Digester {
    type V = DigestView;

    closed spec fn view(&self) -> DigestView {
        DigestView {
            path: self.path@,
            fast: self.fast,
            size: self.size,
            pos: self.pos,
            in_tail: self.in_tail,
            fed: absorbed(self.hash),
        }
    }
}

impl Digester {
    /// A digest of the file at `path`, which holds `size` bytes. Nothing
    /// is fed yet.
    pub fn new(path: &str, size: u64, fast: bool) -> (d: Digester)
        ensures
            d@ == DigestView::start(path@, size, fast),
            d@.wf(),
    {
        Digester { path: String::from_str(path), hash: hasher_new(), fast, size, pos: 0, in_tail: false }
    }

    /// What to do next.
    pub fn step(&self) -> (step: DigestStep)
        requires
            self@.wf(),
        ensures
            step == self@.step(),
    {
        let limit: u64 = if self.fast && self.size > CHUNK as u64 && !self.in_tail {
            CHUNK as u64
        } else {
            self.size
        };
        if self.pos == limit {
            DigestStep::Done
        } else if limit - self.pos < CHUNK as u64 {
            DigestStep::Read { at: self.pos, len: (limit - self.pos) as usize }
        } else {
            DigestStep::Read { at: self.pos, len: CHUNK }
        }
    }

    /// Takes in the bytes that a read at the position asked for brought.
    /// A chunk that is empty or longer than asked for is refused, and
    /// nothing changes.
    pub fn feed(&mut self, chunk: &[u8]) -> (taken: bool)
        requires
            old(self)@.wf(),
        ensures
            taken == old(self)@.accepts(chunk@),
            taken ==> final(self)@ == old(self)@.after(chunk@),
            !taken ==> final(self)@ == old(self)@,
            final(self)@.wf(),
    {
        let sampled: bool = self.fast && self.size > CHUNK as u64;
        let limit: u64 = if sampled && !self.in_tail {
            CHUNK as u64
        } else {
            self.size
        };
        let n: usize = chunk.len();
        if n == 0 || n > CHUNK || n as u64 > limit - self.pos {
            return false;
        }
        hasher_update(&mut self.hash, chunk);
        let end: u64 = self.pos + n as u64;
        if sampled && !self.in_tail && end == CHUNK as u64 {
            self.pos = self.size - (CHUNK as u64 - 1);
            self.in_tail = true;
        } else {
            self.pos = end;
        }
        true
    }

    /// The record of the file, once everything that enters the digest has
    /// been fed: the digest of all of it, with the path and size that the
    /// digest was started with.
    pub fn finish(&self) -> (item: TreeItem)
        requires
            self@.done(),
        ensures
            item@ == (ItemView {
                digest: blake2b_hex(self@.fed),
                path: self@.path,
                size: self@.size,
            }),
            is_hex_digest(item@.digest),
    {
        TreeItem { digest: hasher_hex(&self.hash), path: self.path.clone(), size: self.size }
    }
}

/// The record of the file at `path` that holds `content`, hashed chunk by
/// chunk.
pub fn digest_content(path: &str, content: &[u8], fast: bool) -> (item: TreeItem)
    ensures
        item@ == content_record(path@, content@, fast),
        is_hex_digest(item@.digest),
{
    let size: usize = content.len();
    let mut d = Digester::new(path, size as u64, fast);
    assert(d@.fed =~= d@.expected(content@));
    loop
        invariant
            d@.wf(),
            d@.tracks(content@),
            d@.fast == fast,
            d@.path == path@,
            size == content@.len(),
        ensures
            d@.done(),
        decreases
            (if d@.sampled() && !d@.in_tail { 2 * CHUNK - d@.pos } else { d@.size - d@.pos }),
    {
        match d.step() {
            DigestStep::Done => {
                break ;
            },
            DigestStep::Read { at, len } => {
                let from: usize = at as usize;
                let chunk = slice_subrange(content, from, from + len);
                proof {
                    lemma_feed_tracks(d@, content@, chunk@);
                }
                let taken = d.feed(chunk);
                assert(taken);
            },
        }
    }
    proof {
        lemma_done_hashed(d@, content@);
    }
    d.finish()
}

} // verus!
