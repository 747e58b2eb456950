//! What is read back of a whole stream, and how a stream is laid out.

use vstd::prelude::*;

use crate::crypto::Key;
use crate::fault::Stage;
use crate::stream::{
    chunks_of, decrypt_stream, encrypt_stream, frame, open_stream, read_through, sealed_chunk,
    stage_of, stream_blob, stream_holds, Awaits, Opener, Sealer,
};
use crate::text::{from_le56, le32, le32_round_trip, le56_round_trip};

verus! {

/// A content that was encrypted as a stream is decrypted to itself under the same key,
/// whatever follows the stream, of which nothing is taken.
pub proof fn decrypting_a_stream_undoes_encrypting(
    key: &Key,
    content: &[u8],
    sealed: &mut Vec<u8>,
    rest: Seq<u8>,
    reader: &[u8],
    writer: &mut Vec<u8>,
    r: Result<usize, String>,
)
    requires
        call_ensures(encrypt_stream, (key, content, sealed), Ok::<(), String>(())),
        old(sealed)@.len() == 0,
        reader@ == final(sealed)@ + rest,
        call_ensures(decrypt_stream, (key, reader, writer), r),
    ensures
        r matches Ok(n) && n == final(sealed)@.len(),
        final(writer)@ == old(writer)@ + content@,
{
    let nonce = choose|nonce: Seq<u8>| #[trigger]
        nonce.len() == 7 && {
            let blob = stream_blob(key@, nonce, chunks_of(content@));
            &&& final(sealed)@ == old(sealed)@ + blob
            &&& stream_holds(key@, blob, content@)
        };
    let blob = stream_blob(key@, nonce, chunks_of(content@));
    assert(final(sealed)@ =~= blob);
    assert(open_stream(key@, blob + rest) == read_through(content@, rest));
    let n = r->Ok_0;
    assert(reader@.skip(n as int).len() == rest.len());
}

/// A frame is a byte that is 1 on the last one and 0 on any other, the length of its
/// ciphertext in four bytes, the lowest first, and the ciphertext.
pub proof fn frame_is_laid_out(last: bool, ct: Seq<u8>)
    requires
        ct.len() <= 0xFFFF_FFFF,
    ensures
        ({
            let f = frame(last, ct);
            &&& f.len() == 5 + ct.len()
            &&& f[0] == if last {
                1u8
            } else {
                0u8
            }
            &&& f[1] + 256 * f[2] + 65536 * f[3] + 16777216 * f[4] == ct.len()
            &&& f.skip(5) == ct
        }),
{
    let f = frame(last, ct);
    le32_round_trip(ct.len() as int);
    assert(f.subrange(1, 5) =~= le32(ct.len() as int));
    assert(f.skip(5) =~= ct);
}

/// A content is cut into chunks of 1 MiB, of which the last holds what is left; an empty
/// content is one empty chunk.
pub proof fn chunks_are_a_mebibyte(content: Seq<u8>, i: int)
    requires
        0 <= i < chunks_of(content).len(),
    ensures
        content.len() == 0 ==> chunks_of(content).len() == 1,
        content.len() > 0 ==> (chunks_of(content).len() - 1) * 0x10_0000 < content.len()
            <= chunks_of(content).len() * 0x10_0000,
        chunks_of(content)[i] == content.subrange(
            i * 0x10_0000,
            if (i + 1) * 0x10_0000 <= content.len() {
                (i + 1) * 0x10_0000
            } else {
                content.len() as int
            },
        ),
{
}

/// A content can be encrypted as a stream exactly where it has no more than as many
/// chunks as four bytes can count.
pub proof fn streams_hold_what_can_be_counted(
    key: &Key,
    content: &[u8],
    writer: &mut Vec<u8>,
    r: Result<(), String>,
)
    requires
        call_ensures(encrypt_stream, (key, content, writer), r),
    ensures
        r is Ok <==> content@.len() <= 0x10_0000 * 0x1_0000_0000,
        r is Ok ==> final(writer)@.len() > old(writer)@.len() + content@.len(),
{
}

/// A stream that ends too early is reported by the part of it that is missing.
pub proof fn missing_part_is_told(awaits: Awaits, s: Stage)
    requires
        call_ensures(stage_of, (awaits,), s),
    ensures
        awaits is Nonce <==> s is ReadNonce,
        awaits is Flag <==> s is ReadFlag,
        awaits is Length <==> s is ReadFrameLength,
        awaits is Body || awaits is Nothing <==> s is ReadFrame,
{
}

// ── numbers ──

/// The nonce of a numbered stream is its number in seven bytes, the lowest first, and a
/// reader that a number is due for takes the stream of that number and of no other; one
/// that none is due for takes any.
#[verifier::rlimit(30)]
pub proof fn numbered_streams_are_told_apart(
    key: &Key,
    number: u64,
    s: Sealer,
    nonce: [u8; 7],
    due: Option<u64>,
    before: Opener,
    o: &mut Opener,
    bytes: &[u8],
    r: Result<Vec<u8>, String>,
)
    requires
        number < 0x100_0000_0000_0000,
        due matches Some(d) ==> d < 0x100_0000_0000_0000,
        call_ensures(Sealer::numbered, (key, number), s),
        call_ensures(Sealer::preamble, (&s,), nonce),
        call_ensures(Opener::numbered, (due,), before),
        *old(o) == before,
        bytes@ == nonce@,
        call_ensures(Opener::feed, (o, key, bytes), r),
    ensures
        from_le56(nonce@) == number,
        due matches Some(d) ==> (r is Ok <==> d == number),
        due is None ==> r is Ok,
        s.key() == key@,
        s.fed().len() == 0,
        !s.done(),
{
    le56_round_trip(number as int);
    if let Some(d) = due {
        le56_round_trip(d as int);
    }
}

/// A reader asks for seven bytes of nonce, then for one byte of flag, four of length and
/// as many of ciphertext as those say, up to the frame whose flag is 1.
pub proof fn reader_asks_for_what_comes_next(o: &Opener, a: Awaits, n: usize)
    requires
        call_ensures(Opener::awaits, (o,), a),
        call_ensures(Opener::wants, (o,), n),
    ensures
        a is Nonce ==> n == 7,
        a is Flag ==> n == 1,
        a is Length ==> n == 4,
        a matches Awaits::Body { len, .. } ==> n == len,
        a is Nothing ==> n == 0,
{
}

/// A stream begins with its nonce, and goes on with the frame of its first chunk.
pub proof fn stream_begins_with_its_nonce(key: Seq<u8>, nonce: Seq<u8>, content: Seq<u8>)
    requires
        nonce.len() == 7,
        chunks_of(content).len() == 1,
    ensures
        stream_blob(key, nonce, chunks_of(content)).take(7) == nonce,
        stream_blob(key, nonce, chunks_of(content)).skip(7) == frame(
            true,
            sealed_chunk(key, nonce, 0, true, chunks_of(content)[0]),
        ),
{
    let b = stream_blob(key, nonce, chunks_of(content));
    assert(b.take(7) =~= nonce);
    assert(b.skip(7) =~= frame(
        true,
        sealed_chunk(key, nonce, 0, true, chunks_of(content)[0]),
    ));
}

} // verus!
