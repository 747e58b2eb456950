//! Chunked encryption of file contents.
//!
//! A file is never held in memory whole: it is encrypted in chunks, each under
//! its own position in the stream, and written as a self-delimiting blob, so that
//! several blobs can follow one another in a vault and be read back in turn.
//!
//! ```text
//!   [stream nonce: 7 bytes]
//!   repeat until a frame with flag == 1:
//!       [flag: u8]        0 = more frames follow, 1 = last frame
//!       [ct_len: u32 LE]
//!       [ct bytes]        chunk ciphertext with its 16-byte tag
//! ```
//!
//! A stream can have a number, which is then its nonce: a reader that knows which
//! number is due refuses a stream that stands in the place of another.

use vstd::prelude::*;
use vstd::slice::slice_subrange;

use crate::crypto::{
    aes256gcm_open, aes256gcm_seal, open_error, open_error_text, random_bytes, seal_error, seal_error_text, stream_decrypt,
    stream_encrypt, stream_nonce, Key, TAG_LEN,
};
use crate::fault::{cut_short, cut_short_text, Stage};
use crate::text::{
    from_le32, from_le32_round_trip, get_le32, le32, le32_round_trip, le56, push_le32, put_le56,
};

verus! {

/// Plaintext bytes in a chunk (1 MiB).
pub const STREAM_CHUNK: usize = 0x10_0000;

/// Bytes of the nonce in front of a stream.
pub const STREAM_NONCE_LEN: usize = 7;

/// The last position that a stream can reach.
pub const LAST_POSITION: u32 = 0xFFFF_FFFF;

// ── what is written ──

/// A frame: flag, length of the ciphertext, ciphertext.
pub open spec fn frame(last: bool, ct: Seq<u8>) -> Seq<u8> {
    seq![if last { 1u8 } else { 0u8 }] + le32(ct.len() as int) + ct
}

/// The ciphertext of the chunk at a position.
pub open spec fn sealed_chunk(
    key: Seq<u8>,
    nonce: Seq<u8>,
    position: int,
    last: bool,
    chunk: Seq<u8>,
) -> Seq<u8> {
    aes256gcm_seal(key, stream_nonce(nonce, position as u32, last), chunk)
}

/// The frames of the first `k` chunks, none of which is the last one.
pub open spec fn frames_upto(
    key: Seq<u8>,
    nonce: Seq<u8>,
    chunks: Seq<Seq<u8>>,
    k: nat,
) -> Seq<u8>
    decreases k,
{
    if k == 0 {
        Seq::empty()
    } else {
        frames_upto(key, nonce, chunks, (k - 1) as nat) + frame(
            false,
            sealed_chunk(key, nonce, k - 1, false, chunks[k - 1]),
        )
    }
}

/// The blob of a sequence of chunks: nonce, frames, and the last frame.
pub open spec fn stream_blob(key: Seq<u8>, nonce: Seq<u8>, chunks: Seq<Seq<u8>>) -> Seq<u8> {
    let n = chunks.len() - 1;
    nonce + frames_upto(key, nonce, chunks, n as nat) + frame(
        true,
        sealed_chunk(key, nonce, n, true, chunks[n]),
    )
}

/// The chunks put together again.
pub open spec fn joined(chunks: Seq<Seq<u8>>) -> Seq<u8>
    decreases chunks.len(),
{
    if chunks.len() == 0 {
        Seq::empty()
    } else {
        joined(chunks.drop_last()) + chunks.last()
    }
}

// ── what is read ──

/// What reading a stream comes to.
#[verifier::ext_equal]
pub struct Opened {
    /// The plaintext of the frames that opened.
    pub plain: Seq<u8>,
    /// The bytes that follow the stream, or the message of the failure.
    pub end: Result<Seq<u8>, Seq<char>>,
}

/// Nothing opened.
pub open spec fn failed(message: Seq<char>) -> Opened {
    Opened { plain: Seq::empty(), end: Err(message) }
}

/// The whole content opened, and the rest follows it.
pub open spec fn read_through(content: Seq<u8>, rest: Seq<u8>) -> Opened {
    Opened { plain: content, end: Ok(rest) }
}

/// Read frames up to the last one. A flag is 0 or 1.
pub open spec fn open_frames(key: Seq<u8>, nonce: Seq<u8>, position: nat, bytes: Seq<u8>) -> Opened
    decreases bytes.len(),
{
    if bytes.len() < 1 {
        failed(cut_short(Stage::ReadFlag))
    } else if bytes[0] > 1 {
        failed(open_error())
    } else if bytes.len() < 5 {
        failed(cut_short(Stage::ReadFrameLength))
    } else {
        let n = from_le32(bytes.subrange(1, 5));
        if bytes.len() < 5 + n {
            failed(cut_short(Stage::ReadFrame))
        } else {
            let ct = bytes.subrange(5, 5 + n);
            let rest = bytes.skip(5 + n);
            if bytes[0] == 1 {
                match aes256gcm_open(key, stream_nonce(nonce, position as u32, true), ct) {
                    Some(p) => read_through(p, rest),
                    None => failed(open_error()),
                }
            } else if position >= LAST_POSITION {
                failed(open_error())
            } else {
                match aes256gcm_open(key, stream_nonce(nonce, position as u32, false), ct) {
                    Some(p) => prepend(p, open_frames(key, nonce, position + 1, rest)),
                    None => failed(open_error()),
                }
            }
        }
    }
}

/// A plaintext in front of what is still to come.
pub open spec fn prepend(p: Seq<u8>, rest: Opened) -> Opened {
    Opened { plain: p + rest.plain, end: rest.end }
}

/// Read a blob.
pub open spec fn open_stream(key: Seq<u8>, bytes: Seq<u8>) -> Opened {
    if bytes.len() < STREAM_NONCE_LEN {
        failed(cut_short(Stage::ReadNonce))
    } else {
        open_frames(key, bytes.take(7), 0, bytes.skip(7))
    }
}

/// Read the blob whose number is due, where one is: no other will do.
pub open spec fn open_numbered(key: Seq<u8>, number: Option<u64>, bytes: Seq<u8>) -> Opened {
    if bytes.len() >= STREAM_NONCE_LEN && !number_fits(number, bytes.take(7)) {
        failed(open_error())
    } else {
        open_stream(key, bytes)
    }
}

/// Is a nonce the one of the number that is due?
pub open spec fn number_fits(number: Option<u64>, nonce: Seq<u8>) -> bool {
    match number {
        None => true,
        Some(n) => nonce == le56(n as int),
    }
}

/// A blob that reads back as the given content, whatever follows it.
pub open spec fn stream_holds(key: Seq<u8>, blob: Seq<u8>, content: Seq<u8>) -> bool {
    forall|rest: Seq<u8>| #[trigger] open_stream(key, blob + rest) == read_through(content, rest)
}

/// A sealed chunk that opens again: it is longer than the chunk by its tag, and short
/// enough for its length field.
pub open spec fn chunk_opens(
    key: Seq<u8>,
    nonce: Seq<u8>,
    position: int,
    last: bool,
    chunk: Seq<u8>,
) -> bool {
    let ct = sealed_chunk(key, nonce, position, last, chunk);
    &&& aes256gcm_open(key, stream_nonce(nonce, position as u32, last), ct) == Some(chunk)
    &&& ct.len() == chunk.len() + TAG_LEN
    &&& ct.len() <= 0xFFFF_FFFF
}

// ── reading gives back what was written ──

proof fn lemma_prepend_nothing(rest: Opened)
    ensures
        prepend(Seq::empty(), rest) == rest,
{
    assert(Seq::<u8>::empty() + rest.plain =~= rest.plain);
}

proof fn lemma_prepend_twice(p: Seq<u8>, q: Seq<u8>, rest: Opened)
    ensures
        prepend(p, prepend(q, rest)) == prepend(p + q, rest),
{
    assert(p + (q + rest.plain) =~= (p + q) + rest.plain);
}

proof fn lemma_open_frame(key: Seq<u8>, nonce: Seq<u8>, position: nat, last: bool, chunk: Seq<u8>, tail: Seq<u8>)
    requires
        position <= LAST_POSITION,
        !last ==> position < LAST_POSITION,
        chunk_opens(key, nonce, position as int, last, chunk),
    ensures
        open_frames(
            key,
            nonce,
            position,
            frame(last, sealed_chunk(key, nonce, position as int, last, chunk)) + tail,
        ) == if last {
            read_through(chunk, tail)
        } else {
            prepend(chunk, open_frames(key, nonce, position + 1, tail))
        },
{
    let ct = sealed_chunk(key, nonce, position as int, last, chunk);
    let bytes = frame(last, ct) + tail;
    let n = ct.len() as int;
    le32_round_trip(n);
    assert(bytes.subrange(1, 5) =~= le32(n));
    assert(bytes.subrange(5, 5 + n) =~= ct);
    assert(bytes.skip(5 + n) =~= tail);
}

proof fn lemma_open_from(key: Seq<u8>, nonce: Seq<u8>, chunks: Seq<Seq<u8>>, k: nat, tail: Seq<u8>)
    requires
        1 <= chunks.len() <= LAST_POSITION + 1,
        k < chunks.len(),
        forall|i: int|
            0 <= i < chunks.len() - 1 ==> #[trigger] chunk_opens(key, nonce, i, false, chunks[i]),
    ensures
        open_frames(key, nonce, 0, frames_upto(key, nonce, chunks, k) + tail) == prepend(
            joined(chunks.take(k as int)),
            open_frames(key, nonce, k, tail),
        ),
    decreases k,
{
    if k == 0 {
        assert(frames_upto(key, nonce, chunks, k) + tail =~= tail);
        assert(joined(chunks.take(0)) =~= Seq::empty());
        lemma_prepend_nothing(open_frames(key, nonce, 0, tail));
    } else {
        let i = (k - 1) as nat;
        let f = frame(false, sealed_chunk(key, nonce, i as int, false, chunks[i as int]));
        assert(frames_upto(key, nonce, chunks, k) + tail =~= frames_upto(key, nonce, chunks, i) + (f
            + tail));
        lemma_open_from(key, nonce, chunks, i, f + tail);
        assert(chunk_opens(key, nonce, i as int, false, chunks[i as int]));
        lemma_open_frame(key, nonce, i, false, chunks[i as int], tail);
        assert(chunks.take(k as int).drop_last() =~= chunks.take(i as int));
        lemma_prepend_twice(
            joined(chunks.take(i as int)),
            chunks[i as int],
            open_frames(key, nonce, k, tail),
        );
    }
}

/// A blob of chunks that open one by one reads back as the chunks put together,
/// and reading stops exactly where the blob ends.
pub proof fn stream_round_trip(key: Seq<u8>, nonce: Seq<u8>, chunks: Seq<Seq<u8>>)
    requires
        nonce.len() == STREAM_NONCE_LEN,
        1 <= chunks.len() <= LAST_POSITION + 1,
        forall|i: int|
            0 <= i < chunks.len() - 1 ==> #[trigger] chunk_opens(key, nonce, i, false, chunks[i]),
        chunk_opens(key, nonce, chunks.len() - 1, true, chunks[chunks.len() - 1]),
    ensures
        stream_holds(key, stream_blob(key, nonce, chunks), joined(chunks)),
{
    let n = (chunks.len() - 1) as nat;
    let f = frame(true, sealed_chunk(key, nonce, n as int, true, chunks[n as int]));
    let blob = stream_blob(key, nonce, chunks);
    assert forall|rest: Seq<u8>| #[trigger]
        open_stream(key, blob + rest) == read_through(joined(chunks), rest) by {
        let all = blob + rest;
        assert(all.take(7) =~= nonce);
        assert(all.skip(7) =~= frames_upto(key, nonce, chunks, n) + (f + rest));
        lemma_open_from(key, nonce, chunks, n, f + rest);
        lemma_open_frame(key, nonce, n, true, chunks[n as int], rest);
        assert(chunks.take(n as int) =~= chunks.drop_last());
    }
}

/// The ciphertext in the frame at an index.
pub open spec fn body_at(key: Seq<u8>, nonce: Seq<u8>, chunks: Seq<Seq<u8>>, i: int) -> Seq<u8> {
    sealed_chunk(key, nonce, i, i == chunks.len() - 1, chunks[i])
}

proof fn lemma_frames_length(key: Seq<u8>, nonce: Seq<u8>, chunks: Seq<Seq<u8>>, k: nat)
    requires
        k < chunks.len(),
        forall|i: int|
            0 <= i < chunks.len() - 1 ==> #[trigger] chunk_opens(key, nonce, i, false, chunks[i]),
    ensures
        frames_upto(key, nonce, chunks, k).len() == 21 * k + joined(chunks.take(k as int)).len(),
    decreases k,
{
    if k > 0 {
        let i = (k - 1) as nat;
        lemma_frames_length(key, nonce, chunks, i);
        assert(chunk_opens(key, nonce, i as int, false, chunks[i as int]));
        assert(chunks.take(k as int).drop_last() =~= chunks.take(i as int));
    }
}

/// A blob is its nonce, and for each chunk a flag, a length and the ciphertext, which
/// is longer than the chunk by its tag.
pub proof fn stream_blob_length(key: Seq<u8>, nonce: Seq<u8>, chunks: Seq<Seq<u8>>)
    requires
        nonce.len() == STREAM_NONCE_LEN,
        1 <= chunks.len() <= LAST_POSITION + 1,
        forall|i: int|
            0 <= i < chunks.len() - 1 ==> #[trigger] chunk_opens(key, nonce, i, false, chunks[i]),
        chunk_opens(key, nonce, chunks.len() - 1, true, chunks[chunks.len() - 1]),
    ensures
        stream_blob(key, nonce, chunks).len() == 7 + 21 * chunks.len() + joined(chunks).len(),
        forall|i: int|
            0 <= i < chunks.len() ==> (#[trigger] body_at(key, nonce, chunks, i)).len()
                == chunks[i].len() + TAG_LEN,
{
    let n = (chunks.len() - 1) as nat;
    lemma_frames_length(key, nonce, chunks, n);
    assert(chunks.take(n as int) =~= chunks.drop_last());
    assert forall|i: int| 0 <= i < chunks.len() implies (#[trigger] body_at(
        key,
        nonce,
        chunks,
        i,
    )).len() == chunks[i].len() + TAG_LEN by {
        if i < n {
            assert(chunk_opens(key, nonce, i, false, chunks[i]));
        }
    }
}

proof fn lemma_frames_grow(key: Seq<u8>, nonce: Seq<u8>, chunks: Seq<Seq<u8>>, k: nat, n: nat)
    requires
        k <= n,
    ensures
        frames_upto(key, nonce, chunks, k).len() <= frames_upto(key, nonce, chunks, n).len(),
        frames_upto(key, nonce, chunks, n).take(frames_upto(key, nonce, chunks, k).len() as int)
            == frames_upto(key, nonce, chunks, k),
    decreases n - k,
{
    let a = frames_upto(key, nonce, chunks, k);
    if k < n {
        lemma_frames_grow(key, nonce, chunks, k, (n - 1) as nat);
        let b = frames_upto(key, nonce, chunks, (n - 1) as nat);
        let c = frames_upto(key, nonce, chunks, n);
        assert(c.take(a.len() as int) =~= b.take(a.len() as int));
    } else {
        assert(a.take(a.len() as int) =~= a);
    }
}

proof fn lemma_whole_frames(key: Seq<u8>, nonce: Seq<u8>, chunks: Seq<Seq<u8>>, len: nat, n: nat) -> (k:
    nat)
    ensures
        k <= n,
        frames_upto(key, nonce, chunks, k).len() <= len,
        k < n ==> len < frames_upto(key, nonce, chunks, k + 1).len(),
    decreases n,
{
    if frames_upto(key, nonce, chunks, n).len() <= len {
        n
    } else {
        lemma_whole_frames(key, nonce, chunks, len, (n - 1) as nat)
    }
}

proof fn lemma_cut_frame(key: Seq<u8>, nonce: Seq<u8>, position: nat, last: bool, ct: Seq<u8>, m: int)
    requires
        ct.len() <= 0xFFFF_FFFF,
        0 <= m < frame(last, ct).len(),
    ensures
        open_frames(key, nonce, position, frame(last, ct).take(m)).plain == Seq::<u8>::empty(),
        open_frames(key, nonce, position, frame(last, ct).take(m)).end is Err,
{
    let bytes = frame(last, ct).take(m);
    if m >= 5 {
        le32_round_trip(ct.len() as int);
        assert(bytes.subrange(1, 5) =~= le32(ct.len() as int));
    }
}

/// A blob that is cut short does not read through: reading it fails, and what was
/// written by then is the first chunks, each of them whole.
pub proof fn cut_stream_gives_whole_chunks(
    key: Seq<u8>,
    nonce: Seq<u8>,
    chunks: Seq<Seq<u8>>,
    m: int,
)
    requires
        nonce.len() == STREAM_NONCE_LEN,
        1 <= chunks.len() <= LAST_POSITION + 1,
        forall|i: int|
            0 <= i < chunks.len() - 1 ==> #[trigger] chunk_opens(key, nonce, i, false, chunks[i]),
        chunk_opens(key, nonce, chunks.len() - 1, true, chunks[chunks.len() - 1]),
        0 <= m < stream_blob(key, nonce, chunks).len(),
    ensures
        open_stream(key, stream_blob(key, nonce, chunks).take(m)).end is Err,
        exists|k: int|
            0 <= k < chunks.len() && open_stream(
                key,
                stream_blob(key, nonce, chunks).take(m),
            ).plain == joined(#[trigger] chunks.take(k)),
{
    let n = (chunks.len() - 1) as nat;
    let blob = stream_blob(key, nonce, chunks);
    let cut = blob.take(m);
    if m < 7 {
        assert(joined(chunks.take(0)) =~= Seq::empty());
    } else {
        let k = lemma_whole_frames(key, nonce, chunks, (m - 7) as nat, n);
        let front = frames_upto(key, nonce, chunks, k);
        let last = k == n;
        let body = sealed_chunk(key, nonce, k as int, last, chunks[k as int]);
        let f = frame(last, body);
        let part = f.take(m - 7 - front.len());
        if k < n {
            assert(chunk_opens(key, nonce, k as int, false, chunks[k as int]));
            lemma_frames_grow(key, nonce, chunks, k + 1, n);
            let upto = frames_upto(key, nonce, chunks, k + 1);
            let all = frames_upto(key, nonce, chunks, n);
            assert(upto == front + f);
            assert(cut.skip(7) =~= all.take(upto.len() as int).take(m - 7));
        }
        assert(cut.take(7) =~= nonce);
        assert(cut.skip(7) =~= front + part);
        lemma_open_from(key, nonce, chunks, k, part);
        lemma_cut_frame(key, nonce, k, last, body, m - 7 - front.len());
        let rest = open_frames(key, nonce, k, part);
        assert(joined(chunks.take(k as int)) + rest.plain =~= joined(chunks.take(k as int)));
    }
}

/// A frame that the cipher refuses ends the reading of a stream with the message for a
/// wrong password or damaged data, whatever follows it: what was written by then is
/// the chunks in front of it. Where the first frame is refused, as under another key,
/// that is nothing at all.
pub proof fn refused_frame_ends_the_stream(
    key: Seq<u8>,
    nonce: Seq<u8>,
    chunks: Seq<Seq<u8>>,
    last: bool,
    ct: Seq<u8>,
    tail: Seq<u8>,
)
    requires
        nonce.len() == STREAM_NONCE_LEN,
        chunks.len() <= LAST_POSITION,
        forall|i: int|
            0 <= i < chunks.len() ==> #[trigger] chunk_opens(key, nonce, i, false, chunks[i]),
        ct.len() <= 0xFFFF_FFFF,
        aes256gcm_open(key, stream_nonce(nonce, chunks.len() as u32, last), ct) is None,
    ensures
        open_stream(
            key,
            nonce + frames_upto(key, nonce, chunks, chunks.len()) + frame(last, ct) + tail,
        ) == (Opened { plain: joined(chunks), end: Err(open_error()) }),
{
    let n = chunks.len();
    let front = frames_upto(key, nonce, chunks, n);
    let rest = frame(last, ct) + tail;
    let bytes = nonce + front + frame(last, ct) + tail;
    // One more chunk stands for the one that is refused.
    let more = chunks.push(Seq::empty());
    lemma_frames_of_more(key, nonce, chunks, Seq::empty(), n);
    assert forall|i: int| 0 <= i < more.len() - 1 implies #[trigger] chunk_opens(
        key,
        nonce,
        i,
        false,
        more[i],
    ) by {
        assert(chunk_opens(key, nonce, i, false, chunks[i]));
    }
    assert(bytes.take(7) =~= nonce);
    assert(bytes.skip(7) =~= front + rest);
    assert(more.take(n as int) =~= chunks);
    lemma_open_from(key, nonce, more, n, rest);
    le32_round_trip(ct.len() as int);
    assert(rest.subrange(1, 5) =~= le32(ct.len() as int));
    assert(rest.subrange(5, 5 + ct.len() as int) =~= ct);
    assert(joined(chunks) + Seq::<u8>::empty() =~= joined(chunks));
}

// ── encrypting ──

/// A frame to write: its three parts, in order.
pub struct Frame {
    /// 1 on the last frame of a stream, 0 on the others.
    pub flag: u8,
    /// The length of the ciphertext in little endian.
    pub length: Vec<u8>,
    /// The ciphertext of the chunk.
    pub body: Vec<u8>,
}

impl View for Frame {
    type V = Seq<u8>;

    open spec fn view(&self) -> Seq<u8> {
        seq![self.flag] + self.length@ + self.body@
    }
}

fn make_frame(last: bool, ct: Vec<u8>) -> (f: Frame)
    requires
        ct@.len() <= 0xFFFF_FFFF,
    ensures
        f@ == frame(last, ct@),
        f.length@.len() == 4,
{
    let mut length: Vec<u8> = Vec::new();
    push_le32(&mut length, ct.len() as u32);
    let flag: u8 = if last { 1 } else { 0 };
    let f = Frame { flag, length, body: ct };
    assert(f@ =~= frame(last, f.body@));
    f
}

/// Encrypts a file that is handed over chunk by chunk.
///
/// The first bytes to write are those of [`Sealer::preamble`]. Then each chunk
/// that was read goes to [`Sealer::feed`], which holds it back until it knows
/// whether another one follows; an empty chunk after the first one is the end.
pub struct Sealer {
    nonce: [u8; 7],
    position: u32,
    held: Option<Vec<u8>>,
    finished: bool,
    key: Ghost<Seq<u8>>,
    fed: Ghost<Seq<Seq<u8>>>,
}

impl Sealer {
    /// The key that this stream is encrypted with.
    pub closed spec fn key(self) -> Seq<u8> {
        self.key@
    }

    /// The nonce of this stream.
    pub closed spec fn nonce(self) -> Seq<u8> {
        self.nonce@
    }

    /// The chunks that were handed over.
    pub closed spec fn fed(self) -> Seq<Seq<u8>> {
        self.fed@
    }

    /// Has the last frame been made?
    pub closed spec fn done(self) -> bool {
        self.finished
    }

    /// The chunks handed over so far open again, the last one is held back, and
    /// the position counts the frames made.
    pub closed spec fn wf(self) -> bool {
        let fed = self.fed@;
        &&& self.nonce@.len() == STREAM_NONCE_LEN
        &&& forall|i: int|
            0 <= i < fed.len() ==> (#[trigger] fed[i]).len() <= STREAM_CHUNK
        &&& forall|i: int|
            0 <= i < fed.len() - 1 ==> #[trigger] chunk_opens(
                self.key@,
                self.nonce@,
                i,
                false,
                fed[i],
            )
        &&& match self.held {
            None => fed.len() == 0 && self.position == 0 && !self.finished,
            Some(chunk) => {
                &&& fed.len() > 0
                &&& chunk@ == fed[fed.len() - 1]
                &&& self.position == fed.len() - 1
            },
        }
        &&& self.finished ==> chunk_opens(
            self.key@,
            self.nonce@,
            fed.len() - 1,
            true,
            fed[fed.len() - 1],
        )
    }

    /// Start a stream under a given nonce.
    pub fn with_nonce(key: &Key, nonce: [u8; 7]) -> (s: Sealer)
        ensures
            s.wf(),
            s.key() == key@,
            s.nonce() == nonce@,
            s.fed() == Seq::<Seq<u8>>::empty(),
            !s.done(),
    {
        Sealer {
            nonce,
            position: 0,
            held: None,
            finished: false,
            key: Ghost(key@),
            fed: Ghost(Seq::empty()),
        }
    }

    /// Start the stream of a number.
    pub fn numbered(key: &Key, number: u64) -> (s: Sealer)
        ensures
            s.wf(),
            s.key() == key@,
            s.nonce() == le56(number as int),
            s.fed() == Seq::<Seq<u8>>::empty(),
            !s.done(),
    {
        Sealer::with_nonce(key, put_le56(number))
    }

    /// Start a stream under a fresh random nonce.
    pub fn new(key: &Key) -> (s: Sealer)
        ensures
            s.wf(),
            s.key() == key@,
            s.fed() == Seq::<Seq<u8>>::empty(),
            !s.done(),
    {
        Sealer::with_nonce(key, random_bytes::<7>())
    }

    /// The bytes in front of the first frame.
    pub fn preamble(&self) -> (nonce: [u8; 7])
        ensures
            nonce@ == self.nonce(),
    {
        self.nonce
    }

    /// Has the last frame been made?
    pub fn finished(&self) -> (r: bool)
        ensures
            r == self.done(),
    {
        self.finished
    }

    /// Hand over the next chunk; an empty one, unless it is the first, ends the
    /// stream. Returns the frame to write, if one is due.
    ///
    /// The frame is that of the chunk before this one. It fails only where the
    /// stream has run out of positions.
    pub fn feed(&mut self, key: &Key, chunk: Vec<u8>) -> (r: Result<Option<Frame>, String>)
        requires
            old(self).wf(),
            !old(self).done(),
            key@ == old(self).key(),
            chunk@.len() <= STREAM_CHUNK,
        ensures
            final(self).wf(),
            final(self).key() == old(self).key(),
            final(self).nonce() == old(self).nonce(),
            ({
                let fed = old(self).fed();
                let n = fed.len() - 1;
                if fed.len() == 0 {
                    &&& r matches Ok(None)
                    &&& final(self).fed() == seq![chunk@]
                    &&& !final(self).done()
                } else if chunk@.len() == 0 && n <= LAST_POSITION {
                    &&& r matches Ok(Some(f))
                    &&& f@ == frame(true, sealed_chunk(key@, old(self).nonce(), n, true, fed[n]))
                    &&& f.length@.len() == 4
                    &&& final(self).fed() == fed
                    &&& final(self).done()
                } else if n < LAST_POSITION {
                    &&& r matches Ok(Some(f))
                    &&& f@ == frame(false, sealed_chunk(key@, old(self).nonce(), n, false, fed[n]))
                    &&& f.length@.len() == 4
                    &&& final(self).fed() == fed.push(chunk@)
                    &&& !final(self).done()
                } else {
                    &&& r matches Err(e)
                    &&& e@ == seal_error()
                    &&& final(self).fed() == fed
                    &&& !final(self).done()
                }
            }),
    {
        let ghost fed = self.fed@;
        if self.held.is_none() {
            proof {
                self.fed@ = seq![chunk@];
            }
            self.held = Some(chunk);
            return Ok(None);
        }
        let last = chunk.len() == 0;
        if !last && self.position == LAST_POSITION {
            let failed = seal_error_text();
            return Err(failed);
        }
        let held: Vec<u8> = match self.held.take() {
            Some(held) => held,
            None => Vec::new(),
        };
        let ghost n = fed.len() - 1;
        assert(held@ == fed[n]);
        match stream_encrypt(key, &self.nonce, self.position, last, held.as_slice()) {
            Ok(ct) => {
                assert(chunk_opens(self.key@, self.nonce@, n, last, fed[n]));
                if last {
                    self.held = Some(held);
                    self.finished = true;
                } else {
                    proof {
                        self.fed@ = fed.push(chunk@);
                    }
                    self.held = Some(chunk);
                    self.position = self.position + 1;
                    assert forall|i: int| 0 <= i < self.fed@.len() - 1 implies #[trigger] chunk_opens(
                        self.key@,
                        self.nonce@,
                        i,
                        false,
                        self.fed@[i],
                    ) by {
                        if i < n {
                            assert(chunk_opens(self.key@, self.nonce@, i, false, fed[i]));
                        }
                    }
                }
                Ok(Some(make_frame(last, ct)))
            },
            Err(_) => {
                self.held = Some(held);
                Err(seal_error_text())
            },
        }
    }
}

/// The frames that a finished [`Sealer`] has made, behind its preamble, read back
/// as the chunks that were handed over; each chunk takes its own length and 21 bytes.
pub proof fn finished_stream_reads_back(s: Sealer)
    requires
        s.wf(),
        s.done(),
    ensures
        stream_holds(s.key(), stream_blob(s.key(), s.nonce(), s.fed()), joined(s.fed())),
        stream_blob(s.key(), s.nonce(), s.fed()).len() == 7 + 21 * s.fed().len() + joined(
            s.fed(),
        ).len(),
        forall|i: int|
            0 <= i < s.fed().len() ==> (#[trigger] body_at(s.key(), s.nonce(), s.fed(), i)).len()
                == s.fed()[i].len() + TAG_LEN,
{
    stream_round_trip(s.key(), s.nonce(), s.fed());
    stream_blob_length(s.key(), s.nonce(), s.fed());
}

// ── decrypting ──

/// The bytes that an [`Opener`] reads next.
#[derive(Clone, Copy, PartialEq, Eq, Debug, Structural)]
pub enum Awaits {
    /// The nonce of the stream.
    Nonce,
    /// The flag of a frame.
    Flag,
    /// The length of a frame.
    Length {
        /// Is it the last frame?
        last: bool,
    },
    /// The body of a frame.
    Body {
        /// Is it the last frame?
        last: bool,
        /// The bytes of the body.
        len: usize,
    },
    /// The stream has been read to its end.
    Nothing,
}

impl Awaits {
    /// How many bytes are awaited.
    pub open spec fn count(self) -> nat {
        match self {
            Awaits::Nonce => STREAM_NONCE_LEN as nat,
            Awaits::Flag => 1,
            Awaits::Length { .. } => 4,
            Awaits::Body { len, .. } => len as nat,
            Awaits::Nothing => 0,
        }
    }

    /// The stage at which a failed read of these bytes is reported.
    pub open spec fn stage(self) -> Stage {
        match self {
            Awaits::Nonce => Stage::ReadNonce,
            Awaits::Flag => Stage::ReadFlag,
            Awaits::Length { .. } => Stage::ReadFrameLength,
            Awaits::Body { .. } => Stage::ReadFrame,
            Awaits::Nothing => Stage::ReadFrame,
        }
    }

    /// What is awaited once the given bytes have been read.
    pub open spec fn after(self, bytes: Seq<u8>) -> Awaits {
        match self {
            Awaits::Nonce => Awaits::Flag,
            Awaits::Flag => Awaits::Length { last: bytes[0] == 1 },
            Awaits::Length { last } => Awaits::Body { last, len: from_le32(bytes) as usize },
            Awaits::Body { last, .. } => if last {
                Awaits::Nothing
            } else {
                Awaits::Flag
            },
            Awaits::Nothing => Awaits::Nothing,
        }
    }
}

/// What is still to come of a stream that has been read in part: the plaintext
/// of the remaining bytes, and the bytes that follow the stream.
pub open spec fn open_rest(
    key: Seq<u8>,
    number: Option<u64>,
    nonce: Seq<u8>,
    position: nat,
    awaits: Awaits,
    bytes: Seq<u8>,
) -> Opened {
    match awaits {
        Awaits::Nonce => open_numbered(key, number, bytes),
        Awaits::Flag => open_frames(key, nonce, position, bytes),
        Awaits::Length { last } => open_frames(
            key,
            nonce,
            position,
            seq![if last { 1u8 } else { 0u8 }] + bytes,
        ),
        Awaits::Body { last, len } => open_frames(
            key,
            nonce,
            position,
            seq![if last { 1u8 } else { 0u8 }] + le32(len as int) + bytes,
        ),
        Awaits::Nothing => read_through(Seq::empty(), bytes),
    }
}

proof fn lemma_read_nonce(
    key: Seq<u8>,
    number: Option<u64>,
    nonce: Seq<u8>,
    position: nat,
    bytes: Seq<u8>,
    rest: Seq<u8>,
)
    requires
        bytes.len() == STREAM_NONCE_LEN,
    ensures
        open_rest(key, number, nonce, position, Awaits::Nonce, bytes + rest) == if number_fits(
            number,
            bytes,
        ) {
            prepend(Seq::empty(), open_rest(key, number, bytes, 0, Awaits::Flag, rest))
        } else {
            failed(open_error())
        },
{
    let all = bytes + rest;
    assert(all.take(7) =~= bytes);
    assert(all.skip(7) =~= rest);
    lemma_prepend_nothing(open_rest(key, number, bytes, 0, Awaits::Flag, rest));
}

proof fn lemma_read_flag(
    key: Seq<u8>,
    number: Option<u64>,
    nonce: Seq<u8>,
    position: nat,
    bytes: Seq<u8>,
    rest: Seq<u8>,
)
    requires
        bytes.len() == 1,
    ensures
        open_rest(key, number, nonce, position, Awaits::Flag, bytes + rest) == if bytes[0] > 1 {
            failed(open_error())
        } else {
            prepend(
                Seq::empty(),
                open_rest(key, number, nonce, position, Awaits::Length { last: bytes[0] == 1 }, rest),
            )
        },
{
    assert(bytes =~= seq![bytes[0]]);
    lemma_prepend_nothing(
        open_rest(key, number, nonce, position, Awaits::Length { last: bytes[0] == 1 }, rest),
    );
}

proof fn lemma_read_length(
    key: Seq<u8>,
    number: Option<u64>,
    nonce: Seq<u8>,
    position: nat,
    last: bool,
    len: usize,
    bytes: Seq<u8>,
    rest: Seq<u8>,
)
    requires
        bytes.len() == 4,
        len == from_le32(bytes),
    ensures
        open_rest(key, number, nonce, position, Awaits::Length { last }, bytes + rest) == prepend(
            Seq::empty(),
            open_rest(key, number, nonce, position, Awaits::Body { last, len }, rest),
        ),
{
    from_le32_round_trip(bytes);
    let f = seq![if last { 1u8 } else { 0u8 }];
    assert(f + (bytes + rest) =~= f + le32(len as int) + rest);
    lemma_prepend_nothing(open_rest(key, number, nonce, position, Awaits::Body { last, len }, rest));
}

proof fn lemma_read_body(
    key: Seq<u8>,
    number: Option<u64>,
    nonce: Seq<u8>,
    position: u32,
    last: bool,
    len: usize,
    bytes: Seq<u8>,
    rest: Seq<u8>,
)
    requires
        bytes.len() == len,
        len <= 0xFFFF_FFFF,
    ensures
        open_rest(key, number, nonce, position as nat, Awaits::Body { last, len }, bytes + rest)
            == if !last && position == LAST_POSITION {
            failed(open_error())
        } else {
            match aes256gcm_open(key, stream_nonce(nonce, position, last), bytes) {
                None => failed(open_error()),
                Some(p) => if last {
                    prepend(p, open_rest(key, number, nonce, position as nat, Awaits::Nothing, rest))
                } else {
                    prepend(p, open_rest(key, number, nonce, position as nat + 1, Awaits::Flag, rest))
                },
            }
        },
{
    let all = seq![if last { 1u8 } else { 0u8 }] + le32(len as int) + (bytes + rest);
    le32_round_trip(len as int);
    assert(all.subrange(1, 5) =~= le32(len as int));
    assert(all.subrange(5, 5 + len) =~= bytes);
    assert(all.skip(5 + len) =~= rest);
    if let Some(p) = aes256gcm_open(key, stream_nonce(nonce, position, last), bytes) {
        assert(p + Seq::<u8>::empty() =~= p);
    }
}

/// Is a nonce the one of the number that is due?
fn is_due(number: Option<u64>, nonce: &[u8; 7]) -> (r: bool)
    ensures
        r == number_fits(number, nonce@),
{
    match number {
        None => true,
        Some(n) => {
            let due = put_le56(n);
            let mut i: usize = 0;
            while i < 7
                invariant
                    i <= 7,
                    number == Some(n),
                    due@ == le56(n as int),
                    forall|j: int| 0 <= j < i ==> nonce@[j] == due@[j],
                decreases 7 - i,
            {
                if nonce[i] != due[i] {
                    assert(nonce@[i as int] != due@[i as int]);
                    return false;
                }
                i = i + 1;
            }
            assert(nonce@ =~= due@);
            true
        },
    }
}

/// Decrypts a stream that is read piece by piece: [`Opener::awaits`] says how
/// many bytes to read, and [`Opener::feed`] turns them into plaintext.
pub struct Opener {
    number: Option<u64>,
    nonce: [u8; 7],
    position: u32,
    awaits: Awaits,
}

impl Opener {
    /// The number of the stream, where one is due.
    pub closed spec fn number(self) -> Option<u64> {
        self.number
    }

    /// The nonce of the stream, once it was read.
    pub closed spec fn nonce(self) -> Seq<u8> {
        self.nonce@
    }

    /// How many frames have opened.
    pub closed spec fn position(self) -> int {
        self.position as int
    }

    /// What is read next.
    pub closed spec fn state(self) -> Awaits {
        self.awaits
    }

    /// A body is as long as its length field can say.
    pub closed spec fn wf(self) -> bool {
        self.awaits matches Awaits::Body { len, .. } ==> len <= 0xFFFF_FFFF
    }

    /// What the bytes still to be read stand for.
    #[verifier::opaque]
    pub closed spec fn to_come(self, key: Seq<u8>, bytes: Seq<u8>) -> Opened {
        open_rest(key, self.number, self.nonce@, self.position as nat, self.awaits, bytes)
    }

    proof fn lemma_nothing_to_come(self, key: Seq<u8>, bytes: Seq<u8>)
        requires
            self.state() is Nothing,
        ensures
            self.to_come(key, bytes) == read_through(Seq::empty(), bytes),
    {
        reveal(Opener::to_come);
    }

    /// Start reading a stream of any number.
    pub fn new() -> (o: Opener)
        ensures
            o.wf(),
            o.state() == Awaits::Nonce,
            o.number() is None,
            forall|key: Seq<u8>, bytes: Seq<u8>| #[trigger]
                o.to_come(key, bytes) == open_stream(key, bytes),
    {
        let o = Opener::numbered(None);
        assert forall|key: Seq<u8>, bytes: Seq<u8>| #[trigger]
            o.to_come(key, bytes) == open_stream(key, bytes) by {
            assert(open_numbered(key, None, bytes) == open_stream(key, bytes));
        }
        o
    }

    /// Start reading the stream of the given number, where one is due.
    pub fn numbered(number: Option<u64>) -> (o: Opener)
        ensures
            o.wf(),
            o.state() == Awaits::Nonce,
            o.number() == number,
            forall|key: Seq<u8>, bytes: Seq<u8>| #[trigger]
                o.to_come(key, bytes) == open_numbered(key, number, bytes),
    {
        reveal(Opener::to_come);
        Opener { number, nonce: [0u8; 7], position: 0, awaits: Awaits::Nonce }
    }

    /// What is read next.
    pub fn awaits(&self) -> (a: Awaits)
        ensures
            a == self.state(),
    {
        self.awaits
    }

    /// How many bytes are read next.
    pub fn wants(&self) -> (n: usize)
        ensures
            n == self.state().count(),
    {
        match self.awaits {
            Awaits::Nonce => STREAM_NONCE_LEN,
            Awaits::Flag => 1,
            Awaits::Length { .. } => 4,
            Awaits::Body { len, .. } => len,
            Awaits::Nothing => 0,
        }
    }

    /// Hand over the bytes that were read; returns the plaintext that they
    /// complete. It fails where the stream is not the one that is due, where a flag
    /// is none, and where a chunk does not authenticate; no continuation of the bytes
    /// would then have been a stream.
    #[verifier::rlimit(30)]
    pub fn feed(&mut self, key: &Key, bytes: &[u8]) -> (r: Result<Vec<u8>, String>)
        requires
            old(self).wf(),
            bytes@.len() == old(self).state().count(),
            !(old(self).state() is Nothing),
        ensures
            r matches Ok(p) ==> {
                &&& final(self).wf()
                &&& final(self).state() == old(self).state().after(bytes@)
                &&& forall|rest: Seq<u8>| #[trigger]
                    old(self).to_come(key@, bytes@ + rest) == prepend(
                        p@,
                        final(self).to_come(key@, rest),
                    )
            },
            r matches Err(e) ==> {
                &&& e@ == open_error()
                &&& forall|rest: Seq<u8>| #[trigger]
                    old(self).to_come(key@, bytes@ + rest) == failed(open_error())
            },
            old(self).state() is Body ==> (r matches Ok(p) ==> p@.len() + TAG_LEN == bytes@.len()),
            !(old(self).state() is Body) ==> (r matches Ok(p) ==> p@.len() == 0),
            old(self).state() is Nonce ==> (r is Ok <==> number_fits(old(self).number(), bytes@)),
            old(self).state() is Flag ==> (r is Ok <==> bytes@[0] <= 1),
            old(self).state() is Length ==> r is Ok,
            r is Ok && old(self).state() is Nonce ==> {
                &&& final(self).nonce() == bytes@
                &&& final(self).position() == 0
            },
            r is Ok && !(old(self).state() is Nonce) ==> final(self).nonce() == old(self).nonce(),
            r is Ok && (old(self).state() is Flag || old(self).state() is Length)
                ==> final(self).position() == old(self).position(),
            old(self).state() matches Awaits::Body { last, .. } ==> (r matches Ok(p) ==> {
                &&& bytes@ == sealed_chunk(
                    key@,
                    old(self).nonce(),
                    old(self).position(),
                    last,
                    p@,
                )
                &&& final(self).position() == old(self).position() + if last {
                    0int
                } else {
                    1int
                }
            }),
    {
        reveal(Opener::to_come);
        let ghost before = *self;
        match self.awaits {
            Awaits::Nonce => {
                let mut nonce = [0u8; 7];
                let mut i: usize = 0;
                while i < 7
                    invariant
                        i <= 7,
                        bytes@.len() == 7,
                        forall|j: int| 0 <= j < i ==> nonce@[j] == bytes@[j],
                    decreases 7 - i,
                {
                    nonce[i] = bytes[i];
                    i = i + 1;
                }
                assert(nonce@ =~= bytes@);
                if !is_due(self.number, &nonce) {
                    assert forall|rest: Seq<u8>| #[trigger]
                        before.to_come(key@, bytes@ + rest) == failed(open_error()) by {
                        lemma_read_nonce(
                            key@,
                            before.number,
                            before.nonce@,
                            before.position as nat,
                            bytes@,
                            rest,
                        );
                    }
                    return Err(open_error_text());
                }
                self.nonce = nonce;
                self.position = 0;
                self.awaits = Awaits::Flag;
                let p: Vec<u8> = Vec::new();
                assert forall|rest: Seq<u8>| #[trigger]
                    before.to_come(key@, bytes@ + rest) == prepend(
                        p@,
                        self.to_come(key@, rest),
                    ) by {
                    lemma_read_nonce(
                        key@,
                        before.number,
                        before.nonce@,
                        before.position as nat,
                        bytes@,
                        rest,
                    );
                }
                Ok(p)
            },
            Awaits::Flag => {
                let flag: u8 = bytes[0];
                if flag > 1 {
                    assert forall|rest: Seq<u8>| #[trigger]
                        before.to_come(key@, bytes@ + rest) == failed(open_error()) by {
                        lemma_read_flag(
                            key@,
                            before.number,
                            before.nonce@,
                            before.position as nat,
                            bytes@,
                            rest,
                        );
                    }
                    return Err(open_error_text());
                }
                self.awaits = Awaits::Length { last: flag == 1 };
                let p: Vec<u8> = Vec::new();
                assert forall|rest: Seq<u8>| #[trigger]
                    before.to_come(key@, bytes@ + rest) == prepend(
                        p@,
                        self.to_come(key@, rest),
                    ) by {
                    lemma_read_flag(
                        key@,
                        before.number,
                        before.nonce@,
                        before.position as nat,
                        bytes@,
                        rest,
                    );
                }
                Ok(p)
            },
            Awaits::Length { last } => {
                let len: usize = get_le32(bytes, 0) as usize;
                assert(bytes@.subrange(0, 4) =~= bytes@);
                self.awaits = Awaits::Body { last, len };
                let p: Vec<u8> = Vec::new();
                assert forall|rest: Seq<u8>| #[trigger]
                    before.to_come(key@, bytes@ + rest) == prepend(
                        p@,
                        self.to_come(key@, rest),
                    ) by {
                    lemma_read_length(
                        key@,
                        before.number,
                        before.nonce@,
                        before.position as nat,
                        last,
                        len,
                        bytes@,
                        rest,
                    );
                }
                Ok(p)
            },
            Awaits::Body { last, len } => {
                let r = if !last && self.position == LAST_POSITION {
                    Err(open_error_text())
                } else {
                    match stream_decrypt(key, &self.nonce, self.position, last, bytes) {
                        Ok(p) => {
                            if last {
                                self.awaits = Awaits::Nothing;
                            } else {
                                self.position = self.position + 1;
                                self.awaits = Awaits::Flag;
                            }
                            Ok(p)
                        },
                        Err(_) => Err(open_error_text()),
                    }
                };
                assert forall|rest: Seq<u8>| true implies match r {
                    Ok(p) => #[trigger] before.to_come(key@, bytes@ + rest) == prepend(
                        p@,
                        self.to_come(key@, rest),
                    ),
                    Err(_) => before.to_come(key@, bytes@ + rest) == failed(open_error()),
                } by {
                    lemma_read_body(
                        key@,
                        before.number,
                        before.nonce@,
                        before.position,
                        last,
                        len,
                        bytes@,
                        rest,
                    );
                }
                r
            },
            Awaits::Nothing => Ok(Vec::new()),
        }
    }
}

// ── whole contents at once ──

/// How many chunks a content of the given length has; an empty one has one.
pub open spec fn chunk_count(len: nat) -> nat {
    if len == 0 {
        1
    } else {
        ((len - 1) / STREAM_CHUNK as int + 1) as nat
    }
}

/// The chunks of a content: full ones, and the last one with what is left.
pub open spec fn chunks_of(content: Seq<u8>) -> Seq<Seq<u8>> {
    Seq::new(chunk_count(content.len()), |i: int| chunk_at(content, i))
}

/// The blob of a whole content under a number.
#[verifier::opaque]
pub open spec fn numbered_blob(key: Seq<u8>, number: u64, content: Seq<u8>) -> Seq<u8> {
    stream_blob(key, le56(number as int), chunks_of(content))
}

/// A blob under a number has it for its nonce.
pub proof fn numbered_blob_has_number(key: Seq<u8>, number: u64, content: Seq<u8>, rest: Seq<u8>)
    ensures
        numbered_blob(key, number, content).len() >= STREAM_NONCE_LEN,
        (numbered_blob(key, number, content) + rest).take(7) == le56(number as int),
{
    reveal(numbered_blob);
    assert((numbered_blob(key, number, content) + rest).take(7) =~= le56(number as int));
}

/// The chunk at an index.
pub open spec fn chunk_at(content: Seq<u8>, i: int) -> Seq<u8> {
    let from = i * STREAM_CHUNK;
    if from + STREAM_CHUNK <= content.len() {
        content.subrange(from, from + STREAM_CHUNK)
    } else {
        content.subrange(from, content.len() as int)
    }
}

proof fn lemma_joined_upto(content: Seq<u8>, k: nat)
    requires
        k * STREAM_CHUNK <= content.len(),
    ensures
        joined(Seq::new(k, |i: int| chunk_at(content, i))) == content.take(
            (k * STREAM_CHUNK) as int,
        ),
    decreases k,
{
    let some = Seq::new(k, |i: int| chunk_at(content, i));
    if k > 0 {
        let j = (k - 1) as nat;
        lemma_joined_upto(content, j);
        assert(some.drop_last() =~= Seq::new(j, |i: int| chunk_at(content, i)));
        assert(content.take((j * STREAM_CHUNK) as int) + chunk_at(content, j as int)
            =~= content.take((k * STREAM_CHUNK) as int));
    } else {
        assert(content.take(0) =~= Seq::empty());
    }
}

/// The chunks of a content, put together, are the content.
pub proof fn chunks_join_to_content(content: Seq<u8>)
    ensures
        joined(chunks_of(content)) == content,
{
    let n = chunk_count(content.len());
    let m = (n - 1) as nat;
    lemma_joined_upto(content, m);
    assert(chunks_of(content).drop_last() =~= Seq::new(m, |i: int| chunk_at(content, i)));
    assert(content.take((m * STREAM_CHUNK) as int) + chunk_at(content, m as int) =~= content);
}

/// Every chunk of a content but the last one is full, and the last one holds the rest,
/// which is nothing only where the content is empty.
pub proof fn chunks_are_full(content: Seq<u8>)
    ensures
        chunks_of(content).len() == chunk_count(content.len()),
        forall|i: int|
            0 <= i < chunk_count(content.len()) - 1 ==> (#[trigger] chunks_of(content)[i]).len()
                == STREAM_CHUNK,
        chunks_of(content).last().len() == content.len() - (chunk_count(content.len()) - 1)
            * STREAM_CHUNK,
        chunks_of(content).last().len() <= STREAM_CHUNK,
        content.len() > 0 ==> chunks_of(content).last().len() > 0,
{
}

/// Encrypt a whole content into a writer.
#[verifier::spinoff_prover]
#[verifier::rlimit(60)]
pub fn encrypt_stream(key: &Key, content: &[u8], writer: &mut Vec<u8>) -> (r: Result<(), String>)
    ensures
        r is Ok <==> chunk_count(content@.len()) <= LAST_POSITION + 1,
        r is Ok ==> exists|nonce: Seq<u8>| #[trigger]
            nonce.len() == STREAM_NONCE_LEN && {
                let blob = stream_blob(key@, nonce, chunks_of(content@));
                &&& final(writer)@ == old(writer)@ + blob
                &&& stream_holds(key@, blob, content@)
                &&& forall|i: int|
                    0 <= i < chunk_count(content@.len()) ==> (#[trigger] body_at(
                        key@,
                        nonce,
                        chunks_of(content@),
                        i,
                    )).len() == chunk_at(content@, i).len() + TAG_LEN
            },
        r is Ok ==> final(writer)@.len() == old(writer)@.len() + 7 + 21 * chunk_count(
            content@.len(),
        ) + content@.len(),
        r matches Err(e) ==> e@ == seal_error(),
{
    let mut sealer = Sealer::new(key);
    let nonce = sealer.preamble();
    writer.extend_from_slice(nonce.as_slice());
    let ghost start = old(writer)@;
    let ghost all = chunks_of(content@);
    let mut at: usize = 0;
    let ghost mut k: nat = 0;
    while !sealer.finished()
        invariant
            sealer.wf(),
            sealer.key() == key@,
            sealer.nonce() == nonce@,
            nonce@.len() == STREAM_NONCE_LEN,
            all == chunks_of(content@),
            k <= all.len(),
            at <= content@.len(),
            at == if k < all.len() { k * STREAM_CHUNK } else { content@.len() as int },
            sealer.fed() == all.take(k as int),
            k == 0 ==> writer@ == start + nonce@,
            !sealer.done() && k > 0 ==> {
                &&& writer@ == start + nonce@ + frames_upto(key@, nonce@, all, (k - 1) as nat)
                &&& k <= LAST_POSITION + 1
            },
            sealer.done() ==> {
                &&& k == all.len()
                &&& k <= LAST_POSITION + 1
                &&& writer@ == start + stream_blob(key@, nonce@, all)
            },
        decreases all.len() + 1 - k, if sealer.done() { 0int } else { 1int },
    {
        let left: usize = content.len() - at;
        let take: usize = if left < STREAM_CHUNK { left } else { STREAM_CHUNK };
        let piece = slice_subrange(content, at, at + take);
        let mut chunk: Vec<u8> = Vec::new();
        chunk.extend_from_slice(piece);
        let ghost before = sealer;
        let ghost n = k - 1;
        proof {
            if k < all.len() {
                assert(chunk@ =~= all[k as int]);
            }
        }
        match sealer.feed(key, chunk) {
            Ok(Some(f)) => {
                writer.push(f.flag);
                writer.extend_from_slice(f.length.as_slice());
                writer.extend_from_slice(f.body.as_slice());
                proof {
                    assert(before.fed()[n] == all[n]);
                }
            },
            Ok(None) => {},
            Err(e) => {
                return Err(e);
            },
        }
        at = at + take;
        proof {
            if !sealer.done() {
                assert(sealer.fed() =~= all.take((k + 1) as int));
                k = k + 1;
            }
        }
    }
    proof {
        finished_stream_reads_back(sealer);
        assert(all.take(k as int) =~= all);
        chunks_join_to_content(content@);
        assert(nonce@.len() == STREAM_NONCE_LEN);
    }
    Ok(())
}

/// The stage at which a failed read of the awaited bytes is reported.
pub fn stage_of(awaits: Awaits) -> (s: Stage)
    ensures
        s == awaits.stage(),
{
    match awaits {
        Awaits::Nonce => Stage::ReadNonce,
        Awaits::Flag => Stage::ReadFlag,
        Awaits::Length { .. } => Stage::ReadFrameLength,
        Awaits::Body { .. } => Stage::ReadFrame,
        Awaits::Nothing => Stage::ReadFrame,
    }
}

proof fn lemma_cut_short(o: Opener, key: Seq<u8>, bytes: Seq<u8>)
    requires
        o.wf(),
        bytes.len() < o.state().count(),
    ensures
        o.to_come(key, bytes) == failed(cut_short(o.state().stage())),
{
    reveal(Opener::to_come);
    if let Awaits::Body { last, len } = o.state() {
        let all = seq![if last { 1u8 } else { 0u8 }] + le32(len as int) + bytes;
        le32_round_trip(len as int);
        assert(all.subrange(1, 5) =~= le32(len as int));
    }
}

/// Do the bytes begin with the nonce and the frames of these chunks, none of which is
/// the last one?
pub open spec fn begins_with_frames(key: Seq<u8>, bytes: Seq<u8>, chunks: Seq<Seq<u8>>) -> bool {
    let nonce = bytes.take(7);
    let front = nonce + frames_upto(key, nonce, chunks, chunks.len());
    7 <= front.len() <= bytes.len() && bytes.take(front.len() as int) == front
}

/// Do the bytes begin with the blob of these chunks?
pub open spec fn begins_with_blob(key: Seq<u8>, bytes: Seq<u8>, chunks: Seq<Seq<u8>>) -> bool {
    let blob = stream_blob(key, bytes.take(7), chunks);
    chunks.len() > 0 && 7 <= blob.len() <= bytes.len() && bytes.take(blob.len() as int) == blob
}

/// Is a plaintext made of chunks that the bytes hold, each encrypted under this key
/// at its place? They are a whole blob where the stream was read through, and
/// otherwise the frames in front of the one that failed.
pub open spec fn only_sealed(key: Seq<u8>, bytes: Seq<u8>, plain: Seq<u8>, through: bool) -> bool {
    exists|chunks: Seq<Seq<u8>>| #[trigger]
        joined(chunks) == plain && if through {
            begins_with_blob(key, bytes, chunks)
        } else {
            chunks.len() == 0 || begins_with_frames(key, bytes, chunks)
        }
}

/// The bytes of a frame that were read before what is awaited.
spec fn frame_so_far(awaits: Awaits) -> Seq<u8> {
    match awaits {
        Awaits::Length { last } => seq![if last { 1u8 } else { 0u8 }],
        Awaits::Body { last, len } => seq![if last { 1u8 } else { 0u8 }] + le32(len as int),
        _ => Seq::empty(),
    }
}

/// The bytes that were read of a stream, with the chunks that opened.
spec fn read_so_far(key: Seq<u8>, o: Opener, read: Seq<u8>, chunks: Seq<Seq<u8>>) -> bool {
    match o.state() {
        Awaits::Nonce => read.len() == 0 && chunks.len() == 0,
        Awaits::Nothing => {
            &&& chunks.len() > 0
            &&& read == stream_blob(key, o.nonce(), chunks)
        },
        _ => {
            &&& o.position() == chunks.len()
            &&& read == o.nonce() + frames_upto(key, o.nonce(), chunks, chunks.len())
                + frame_so_far(o.state())
        },
    }
}

proof fn lemma_frames_of_more(key: Seq<u8>, nonce: Seq<u8>, chunks: Seq<Seq<u8>>, chunk: Seq<u8>, k: nat)
    requires
        k <= chunks.len(),
    ensures
        frames_upto(key, nonce, chunks.push(chunk), k) == frames_upto(key, nonce, chunks, k),
    decreases k,
{
    if k > 0 {
        lemma_frames_of_more(key, nonce, chunks, chunk, (k - 1) as nat);
    }
}

/// One more piece of a stream is read.
proof fn lemma_one_more(
    key: Seq<u8>,
    before: Opener,
    after: Opener,
    read: Seq<u8>,
    bytes: Seq<u8>,
    p: Seq<u8>,
    chunks: Seq<Seq<u8>>,
)
    requires
        before.wf(),
        read_so_far(key, before, read, chunks),
        bytes.len() == before.state().count(),
        !(before.state() is Nothing),
        after.state() == before.state().after(bytes),
        before.state() is Nonce ==> after.nonce() == bytes && after.position() == 0,
        !(before.state() is Nonce) ==> after.nonce() == before.nonce(),
        before.state() is Flag || before.state() is Length ==> after.position()
            == before.position(),
        before.state() is Flag ==> bytes[0] <= 1,
        before.state() matches Awaits::Body { last, .. } ==> {
            &&& bytes == sealed_chunk(key, before.nonce(), before.position(), last, p)
            &&& after.position() == before.position() + if last {
                0int
            } else {
                1int
            }
        },
    ensures
        read_so_far(
            key,
            after,
            read + bytes,
            if before.state() is Body {
                chunks.push(p)
            } else {
                chunks
            },
        ),
{
    let n = chunks.len();
    let nonce = before.nonce();
    match before.state() {
        Awaits::Nonce => {
            assert(read + bytes =~= bytes + frames_upto(key, bytes, chunks, 0) + Seq::empty());
        },
        Awaits::Flag => {
            assert(read + bytes =~= nonce + frames_upto(key, nonce, chunks, n) + frame_so_far(
                after.state(),
            ));
        },
        Awaits::Length { last } => {
            from_le32_round_trip(bytes);
            assert(read + bytes =~= nonce + frames_upto(key, nonce, chunks, n) + frame_so_far(
                after.state(),
            ));
        },
        Awaits::Body { last, len } => {
            let more = chunks.push(p);
            lemma_frames_of_more(key, nonce, chunks, p, n);
            let f = frame(last, bytes);
            assert(read + bytes =~= nonce + frames_upto(key, nonce, chunks, n) + f);
            if !last {
                assert(frames_upto(key, nonce, more, n + 1) == frames_upto(key, nonce, more, n) + f);
                assert(read + bytes =~= nonce + frames_upto(key, nonce, more, n + 1)
                    + Seq::<u8>::empty());
            }
        },
        Awaits::Nothing => {},
    }
}

/// A failed read has written only chunks that were encrypted under this key.
proof fn lemma_failed_after(
    key: Seq<u8>,
    o: Opener,
    bytes: Seq<u8>,
    at: int,
    chunks: Seq<Seq<u8>>,
)
    requires
        0 <= at <= bytes.len(),
        read_so_far(key, o, bytes.take(at), chunks),
        o.nonce().len() == STREAM_NONCE_LEN,
        !(o.state() is Nothing),
    ensures
        only_sealed(key, bytes, joined(chunks), false),
{
    if chunks.len() > 0 {
        let nonce = o.nonce();
        let read = bytes.take(at);
        let front = nonce + frames_upto(key, nonce, chunks, chunks.len());
        assert(bytes.take(7) =~= read.take(7));
        assert(read.take(7) =~= nonce);
        assert(bytes.take(front.len() as int) =~= read.take(front.len() as int));
        assert(read.take(front.len() as int) =~= front);
        assert(begins_with_frames(key, bytes, chunks));
    }
}

/// Decrypt a blob at the front of a reader into a writer: nonce and framed
/// chunks up to the last one. Returns how many bytes the blob takes.
///
/// Each frame is written as soon as it has opened: on a failure the writer holds the
/// plaintext of the frames in front of the one that failed. Whatever the bytes are,
/// what is written is made of chunks that they hold encrypted under this key. That a
/// frame made under another key does not open is left unsaid, as with
/// [`crate::crypto::decrypt`].
#[verifier::spinoff_prover]
#[verifier::rlimit(60)]
pub fn decrypt_stream(key: &Key, reader: &[u8], writer: &mut Vec<u8>) -> (r: Result<usize, String>)
    ensures
        final(writer)@ == old(writer)@ + open_stream(key@, reader@).plain,
        only_sealed(key@, reader@, open_stream(key@, reader@).plain, r is Ok),
        match open_stream(key@, reader@).end {
            Ok(rest) => {
                &&& r matches Ok(n)
                &&& n <= reader@.len()
                &&& reader@.skip(n as int) == rest
            },
            Err(message) => {
                &&& r matches Err(e)
                &&& e@ == message
            },
        },
{
    let mut opener = Opener::new();
    let mut at: usize = 0;
    let ghost mut so_far: Seq<u8> = Seq::empty();
    let ghost mut chunks: Seq<Seq<u8>> = Seq::empty();
    let ghost start = writer@;
    proof {
        assert(joined(chunks) =~= so_far);
        assert(reader@.take(0).len() == 0);
        assert(reader@.skip(0) =~= reader@);
        lemma_prepend_nothing(open_stream(key@, reader@));
        assert(start + so_far =~= start);
    }
    while opener.awaits() != Awaits::Nothing
        invariant
            opener.wf(),
            at <= reader@.len(),
            writer@ == start + so_far,
            start == old(writer)@,
            so_far == joined(chunks),
            opener.nonce().len() == STREAM_NONCE_LEN,
            read_so_far(key@, opener, reader@.take(at as int), chunks),
            open_stream(key@, reader@) == prepend(
                so_far,
                opener.to_come(key@, reader@.skip(at as int)),
            ),
        decreases reader@.len() - at,
    {
        let n: usize = opener.wants();
        if reader.len() - at < n {
            proof {
                lemma_cut_short(opener, key@, reader@.skip(at as int));
                lemma_failed_after(key@, opener, reader@, at as int, chunks);
                assert(so_far + Seq::<u8>::empty() =~= so_far);
            }
            return Err(cut_short_text(stage_of(opener.awaits())));
        }
        let piece = slice_subrange(reader, at, at + n);
        let ghost before = opener;
        let ghost rest = reader@.skip(at + n);
        proof {
            assert(piece@ + rest =~= reader@.skip(at as int));
        }
        match opener.feed(key, piece) {
            Ok(p) => {
                proof {
                    let after = opener.to_come(key@, rest);
                    assert(before.to_come(key@, piece@ + rest) == prepend(p@, after));
                    lemma_prepend_twice(so_far, p@, after);
                    assert(start + so_far + p@ =~= start + (so_far + p@));
                    let read = reader@.take(at as int);
                    assert(read + piece@ =~= reader@.take(at + n));
                    lemma_one_more(key@, before, opener, read, piece@, p@, chunks);
                    if before.state() is Body {
                        assert(chunks.push(p@).drop_last() =~= chunks);
                        chunks = chunks.push(p@);
                    } else {
                        assert(so_far + p@ =~= so_far);
                    }
                    so_far = so_far + p@;
                }
                writer.extend_from_slice(p.as_slice());
                at = at + n;
            },
            Err(e) => {
                proof {
                    lemma_failed_after(key@, before, reader@, at as int, chunks);
                    assert(so_far + Seq::<u8>::empty() =~= so_far);
                }
                return Err(e);
            },
        }
    }
    proof {
        opener.lemma_nothing_to_come(key@, reader@.skip(at as int));
        assert(so_far + Seq::<u8>::empty() =~= so_far);
        let read = reader@.take(at as int);
        assert(reader@.take(7) =~= read.take(7));
        assert(read.take(7) =~= opener.nonce());
        assert(begins_with_blob(key@, reader@, chunks));
    }
    Ok(at)
}

} // verus!
