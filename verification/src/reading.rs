//! What is read of manifests that were written, and which manifests are refused.

use vstd::prelude::*;
use vstd::utf8::{decode_utf8_encode_utf8, encode_utf8};

use crate::legacy::{
    files_in, le64, le64_round_trip, packable, packed_bytes, packed_list_bytes, packed_manifest,
    packed_manifest_round_trip,
};
use crate::manifest::{
    entries_at, entries_view, entry_at, files_announced, files_from, header_count, magic_bytes,
    manifest_file_count_full, packed_at, packed_view, parse_full, parse_manifest, text_bytes, Entry,
    Magic, Packed, Parsed, ParsedFull, Reading,
};
use crate::text::{from_le32, from_le64, le16, le32, le32_round_trip};

verus! {

/// The eight letters that a manifest of this kind begins with: `FLOCKVLT`, `FLOCKLIT`
/// and `FLOCKMOV`.
pub open spec fn letters(magic: Magic) -> Seq<char> {
    match magic {
        Magic::Full => "FLOCKVLT"@,
        Magic::Simple => "FLOCKLIT"@,
        Magic::Move => "FLOCKMOV"@,
    }
}

/// Do bytes begin with the letters of a kind of manifest?
pub open spec fn begins_with_letters(magic: Magic, bytes: Seq<u8>) -> bool {
    bytes.len() >= 8 && forall|i: int|
        0 <= i < 8 ==> #[trigger] bytes[i] as int == letters(magic)[i] as int
}

#[verifier::rlimit(30)]
proof fn lemma_letters(magic: Magic, bytes: Seq<u8>)
    requires
        bytes.len() >= 8,
    ensures
        begins_with_letters(magic, bytes) <==> bytes.take(8) == magic_bytes(magic),
{
    reveal_strlit("FLOCKVLT");
    reveal_strlit("FLOCKLIT");
    reveal_strlit("FLOCKMOV");
    let m = magic_bytes(magic);
    assert forall|i: int| 0 <= i < 8 implies #[trigger] m[i] as int == letters(magic)[i] as int by {
        if i == 0 {} else if i == 1 {} else if i == 2 {} else if i == 3 {} else if i == 4 {} else if i
            == 5 {} else if i == 6 {} else {}
    }
    if begins_with_letters(magic, bytes) {
        assert forall|i: int| 0 <= i < 8 implies bytes.take(8)[i] == m[i] by {
            assert(bytes[i] as int == letters(magic)[i] as int);
            assert(m[i] as int == letters(magic)[i] as int);
        }
        assert(bytes.take(8) =~= m);
    }
    if bytes.take(8) == m {
        assert forall|i: int| 0 <= i < 8 implies #[trigger] bytes[i] as int == letters(
            magic,
        )[i] as int by {
            assert(bytes.take(8)[i] == m[i]);
        }
    }
}

proof fn lemma_whole_or_broken(reading: Reading, buf: Seq<u8>, pos: int, count: nat)
    ensures
        entries_at(reading, buf, pos, count).1 is None <==> entries_at(
            reading,
            buf,
            pos,
            count,
        ).0.len() == count,
        entries_at(reading, buf, pos, count).0.len() <= count,
    decreases count,
{
    if count > 0 {
        if let Ok((e, next)) = entry_at(reading, buf, pos) {
            lemma_whole_or_broken(reading, buf, next, (count - 1) as nat);
        }
    }
}

/// A manifest is read as whole exactly where it begins with the letters of its kind and
/// all the entries can be read that it announces; one of another kind, or one that is
/// too short for a header, gives no entry at all.
#[verifier::rlimit(30)]
pub proof fn only_whole_manifests_are_whole(
    magic: Magic,
    reading: Reading,
    bytes: &[u8],
    p: Parsed,
)
    requires
        call_ensures(parse_manifest, (magic, reading, bytes), p),
    ensures
        p.broken is None ==> bytes@.len() >= 14 && begins_with_letters(magic, bytes@),
        bytes@.len() < 14 || !begins_with_letters(magic, bytes@) ==> p.entries@.len() == 0
            && p.broken is Some,
        bytes@.len() >= 14 && begins_with_letters(magic, bytes@) ==> {
            &&& p.announced == bytes@[10] + 256 * bytes@[11] + 65536 * bytes@[12] + 16777216
                * bytes@[13]
            &&& p.broken is None <==> p.entries@.len() == p.announced
        },
{
    assert(entries_view(p.entries@).len() == p.entries@.len());
    if bytes@.len() >= 14 {
        lemma_letters(magic, bytes@);
        if let Ok(count) = header_count(magic, bytes@) {
            lemma_whole_or_broken(reading, bytes@, 14, count as nat);
        }
    }
}

// ── the first format ──

proof fn lemma_files_in(list: Seq<Packed>, k: nat)
    requires
        0 < k <= list.len(),
    ensures
        files_in(list, k) == files_in(list.drop_first(), (k - 1) as nat) + if list[0].is_dir {
            0nat
        } else {
            1nat
        },
    decreases k,
{
    reveal_with_fuel(files_in, 2);
    if k > 1 {
        lemma_files_in(list, (k - 1) as nat);
        assert(list.drop_first()[k - 2] == list[k - 1]);
    }
}

proof fn lemma_fields(buf: Seq<u8>, pos: int, p: Packed)
    requires
        packable(p),
        0 <= pos,
        pos + packed_bytes(p).len() <= buf.len(),
        buf.subrange(pos, pos + packed_bytes(p).len()) == packed_bytes(p),
    ensures
        ({
            let m = encode_utf8(p.rel).len() as int;
            let n = p.data.len() as int;
            let at = pos + 4 + m;
            &&& packed_bytes(p).len() == m + n + 13
            &&& from_le32(buf.subrange(pos, pos + 4)) == m
            &&& buf[at] == if p.is_dir {
                1u8
            } else {
                0u8
            }
            &&& from_le64(buf.subrange(at + 1, at + 9)) == n
        }),
{
    let first = packed_bytes(p);
    let part = buf.subrange(pos, pos + first.len());
    let m = encode_utf8(p.rel).len() as int;
    let n = p.data.len() as int;
    let at = pos + 4 + m;
    le32_round_trip(m);
    le64_round_trip(n);
    assert(text_bytes(p.rel).len() == 4 + m);
    assert(first.len() == m + n + 13);
    assert(buf.subrange(pos, pos + 4) =~= part.take(4));
    assert(first.take(4) =~= le32(m));
    assert(part[4 + m] == buf[at]);
    assert(buf.subrange(at + 1, at + 9) =~= part.subrange(5 + m, 13 + m));
    assert(first.subrange(5 + m, 13 + m) =~= le64(n));
}

#[verifier::rlimit(30)]
proof fn lemma_files_from(buf: Seq<u8>, pos: int, list: Seq<Packed>)
    requires
        forall|i: int| 0 <= i < list.len() ==> packable(#[trigger] list[i]),
        0 <= pos,
        pos + packed_list_bytes(list).len() <= buf.len(),
        buf.subrange(pos, pos + packed_list_bytes(list).len()) == packed_list_bytes(list),
    ensures
        files_from(buf, pos, list.len()) == Ok::<nat, Seq<char>>(files_in(list, list.len())),
    decreases list.len(),
{
    if list.len() > 0 {
        let rest = list.drop_first();
        let first = packed_bytes(list[0]);
        let behind = packed_list_bytes(rest);
        let all = packed_list_bytes(list);
        let part = buf.subrange(pos, pos + all.len());
        let next = pos + first.len();
        assert(all == first + behind);
        assert(buf.subrange(pos, next) =~= first) by {
            assert(part.take(first.len() as int) =~= first);
            assert(part.take(first.len() as int) =~= buf.subrange(pos, next));
        }
        assert(buf.subrange(next, next + behind.len()) =~= behind) by {
            assert(part.skip(first.len() as int) =~= behind);
            assert(part.skip(first.len() as int) =~= buf.subrange(next, next + behind.len()));
        }
        lemma_fields(buf, pos, list[0]);
        assert forall|i: int| 0 <= i < rest.len() implies packable(#[trigger] rest[i]) by {
            assert(rest[i] == list[i + 1]);
        }
        lemma_files_from(buf, next, rest);
        lemma_files_in(list, list.len());
        assert(files_from(buf, next, rest.len()) == Ok::<nat, Seq<char>>(
            files_in(rest, rest.len()),
        ));
    }
}

/// The files of a manifest of the first format are counted as they are, without the
/// directories, and its entries are read as they were written.
pub proof fn first_format_is_read_as_written(
    version: int,
    entries: Seq<Packed>,
    bytes: &[u8],
    count: Result<usize, String>,
    p: ParsedFull,
)
    requires
        entries.len() <= 0xFFFF_FFFF,
        forall|i: int| 0 <= i < entries.len() ==> packable(#[trigger] entries[i]),
        bytes@ == packed_manifest(version, entries),
        call_ensures(manifest_file_count_full, (bytes,), count),
        call_ensures(parse_full, (bytes,), p),
    ensures
        count matches Ok(n) && n == files_in(entries, entries.len()),
        p.broken is None,
        packed_view(p.entries@) == entries,
        p.announced == entries.len(),
{
    first_format_files(version, entries);
    packed_manifest_round_trip(version, entries);
}

proof fn lemma_header(version: int, count: int, list: Seq<u8>)
    ensures
        ({
            let buf = magic_bytes(Magic::Full) + le16(version) + le32(count) + list;
            &&& buf.len() == 14 + list.len()
            &&& buf.take(8) == magic_bytes(Magic::Full)
            &&& buf.subrange(10, 14) == le32(count)
            &&& buf.subrange(14, 14 + list.len() as int) == list
        }),
{
    let buf = magic_bytes(Magic::Full) + le16(version) + le32(count) + list;
    assert(buf.take(8) =~= magic_bytes(Magic::Full));
    assert(buf.subrange(10, 14) =~= le32(count));
    assert(buf.subrange(14, 14 + list.len() as int) =~= list);
}

/// A manifest of the first format announces its files, without the directories.
pub proof fn first_format_files(version: int, entries: Seq<Packed>)
    requires
        entries.len() <= 0xFFFF_FFFF,
        forall|i: int| 0 <= i < entries.len() ==> packable(#[trigger] entries[i]),
    ensures
        files_announced(packed_manifest(version, entries)) == Ok::<
            nat,
            Seq<char>,
        >(files_in(entries, entries.len())),
{
    let buf = packed_manifest(version, entries);
    let list = packed_list_bytes(entries);
    le32_round_trip(entries.len() as int);
    lemma_header(version, entries.len() as int, list);
    lemma_files_from(buf, 14, entries);
}

// ── one entry ──

/// Does a name stand behind an entry of this kind? Never in streamed metadata; behind
/// all but directories where a folder is unlocked, and behind files alone where a lock
/// is finished.
pub open spec fn name_stands_behind(reading: Reading, kind: u8) -> bool {
    match reading {
        Reading::Meta => false,
        Reading::Streams => kind != 1,
        Reading::Container => kind != 1,
        Reading::Resume => kind == 0,
    }
}

/// An entry is read where it stands: the length of its path and the path, the kind,
/// which is a directory where it is 1 and a file where it is anything else, and, where a
/// name stands behind it, the length of the name and the name.
#[verifier::rlimit(30)]
pub proof fn entry_is_read_where_it_stands(
    reading: Reading,
    buf: Seq<u8>,
    pos: int,
    e: Entry,
    next: int,
)
    requires
        0 <= pos,
        entry_at(reading, buf, pos) == Ok::<(Entry, int), Seq<char>>((e, next)),
    ensures
        ({
            let n = from_le32(buf.subrange(pos, pos + 4));
            let at = pos + 4 + n;
            &&& 0 <= n
            &&& at < buf.len()
            &&& encode_utf8(e.rel) == buf.subrange(pos + 4, at)
            &&& e.is_dir <==> buf[at] == 1
            &&& e.stream is Some <==> name_stands_behind(reading, buf[at])
            &&& e.stream is None ==> next == at + 1
            &&& e.stream matches Some(name) ==> {
                let m = from_le32(buf.subrange(at + 1, at + 5));
                &&& 0 <= m
                &&& next == at + 5 + m <= buf.len()
                &&& encode_utf8(name) == buf.subrange(at + 5, at + 5 + m)
            }
        }),
{
    reveal(entry_at);
    let n = from_le32(buf.subrange(pos, pos + 4));
    let at = pos + 4 + n;
    let path = buf.subrange(pos + 4, at);
    decode_utf8_encode_utf8(path);
    if let Some(name) = e.stream {
        let m = from_le32(buf.subrange(at + 1, at + 5));
        decode_utf8_encode_utf8(buf.subrange(at + 5, at + 5 + m));
    }
}

/// An entry of the first format is read where it stands: the length of its path and the
/// path, the kind, which is a directory where it is 1 and a file where it is anything
/// else, the length of its content in eight bytes and the content.
#[verifier::rlimit(30)]
pub proof fn packed_entry_is_read_where_it_stands(buf: Seq<u8>, pos: int, e: Packed, next: int)
    requires
        0 <= pos,
        packed_at(buf, pos) == Ok::<(Packed, int), Seq<char>>((e, next)),
    ensures
        ({
            let n = from_le32(buf.subrange(pos, pos + 4));
            let at = pos + 4 + n;
            let m = from_le64(buf.subrange(at + 1, at + 9));
            &&& 0 <= n
            &&& encode_utf8(e.rel) == buf.subrange(pos + 4, at)
            &&& e.is_dir <==> buf[at] == 1
            &&& 0 <= m
            &&& next == at + 9 + m <= buf.len()
            &&& e.data == buf.subrange(at + 9, at + 9 + m)
        }),
{
    reveal(packed_at);
    let n = from_le32(buf.subrange(pos, pos + 4));
    decode_utf8_encode_utf8(buf.subrange(pos + 4, pos + 4 + n));
}

} // verus!
