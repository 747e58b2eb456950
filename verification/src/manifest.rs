//! The manifest of a vault: the names of what was locked, before encryption.
//!
//! ```text
//!   [magic: 8 bytes]
//!   [version: u16]
//!   [entry count: u32]
//!   entry_count × entry:
//!       [path_len: u32]
//!       [path bytes]   UTF-8, relative path using '/' separators
//!       [kind: u8]     0 = file, 1 = directory
//!       ...            what the kind of manifest adds
//! ```
//!
//! The metadata of a streamed vault adds nothing. In the simple and the move-lock
//! manifests a file is followed by `[name_len: u32] [name bytes]`, the stream or
//! the name that its content is stored under. In the manifest that holds the file
//! contents itself, every entry is followed by `[data_len: u64] [data bytes]`.

use vstd::prelude::*;
use vstd::slice::slice_subrange;
use vstd::utf8::{
    decode_utf8, encode_utf8, encode_utf8_decode_utf8, encode_utf8_valid_utf8, valid_utf8,
};

use crate::path::{is_safe_name, is_safe_path, safe_name, safe_path};
use crate::text::{
    from_le32, from_le64, get_le32, get_le64, le16, le32, le32_round_trip, push_le16, push_le32,
    utf8_text,
};

verus! {

/// The kinds of manifest, told apart by their first eight bytes.
#[derive(Clone, Copy, PartialEq, Eq, Debug, Structural)]
pub enum Magic {
    /// Full encryption.
    Full,
    /// Simple encryption.
    Simple,
    /// Move lock.
    Move,
}

/// The first eight bytes of a manifest.
pub open spec fn magic_bytes(magic: Magic) -> Seq<u8> {
    match magic {
        Magic::Full => seq![70u8, 76, 79, 67, 75, 86, 76, 84],
        Magic::Simple => seq![70u8, 76, 79, 67, 75, 76, 73, 84],
        Magic::Move => seq![70u8, 76, 79, 67, 75, 77, 79, 86],
    }
}

fn magic_text(magic: Magic) -> (b: [u8; 8])
    ensures
        b@ == magic_bytes(magic),
{
    let b: [u8; 8] = match magic {
        Magic::Full => [70, 76, 79, 67, 75, 86, 76, 84],
        Magic::Simple => [70, 76, 79, 67, 75, 76, 73, 84],
        Magic::Move => [70, 76, 79, 67, 75, 77, 79, 86],
    };
    assert(b@ =~= magic_bytes(magic));
    b
}

/// The version of a manifest: the streamed metadata is the third of its format, the
/// one in which the streams of the files are numbered.
pub open spec fn version_of(magic: Magic) -> int {
    match magic {
        Magic::Full => 3,
        Magic::Simple => 1,
        Magic::Move => 1,
    }
}

/// Does a manifest number the streams of its files?
pub open spec fn numbers_streams(buf: Seq<u8>) -> bool {
    buf.len() >= 10 && buf.subrange(8, 10) == le16(3)
}

/// Does a manifest number the streams of its files?
pub fn has_numbered_streams(buf: &[u8]) -> (r: bool)
    ensures
        r == numbers_streams(buf@),
{
    if buf.len() < 10 {
        return false;
    }
    proof {
        if buf@[8] == 3 && buf@[9] == 0 {
            assert(buf@.subrange(8, 10) =~= le16(3));
        } else {
            assert(buf@.subrange(8, 10)[0] == buf@[8] && buf@.subrange(8, 10)[1] == buf@[9]);
        }
    }
    buf[8] == 3 && buf[9] == 0
}

/// An entry: a path, whether it is a directory, and the name that the content of
/// a file is stored under where the manifest has one.
pub struct SimpleEntry {
    /// The relative path.
    pub rel: String,
    /// Is it a directory?
    pub is_dir: bool,
    /// The name of its stream or in the container.
    pub stream: Option<String>,
}

/// An entry as texts.
#[verifier::ext_equal]
pub struct Entry {
    /// The relative path.
    pub rel: Seq<char>,
    /// Is it a directory?
    pub is_dir: bool,
    /// The name of its stream or in the container.
    pub stream: Option<Seq<char>>,
}

impl View for SimpleEntry {
    type V = Entry;

    open spec fn view(&self) -> Entry {
        Entry {
            rel: self.rel@,
            is_dir: self.is_dir,
            stream: match self.stream {
                Some(s) => Some(s@),
                None => None,
            },
        }
    }
}

/// The entries of a list.
pub open spec fn entries_view(list: Seq<SimpleEntry>) -> Seq<Entry> {
    list.map_values(|e: SimpleEntry| e@)
}

// ── writing ──

/// A text as its length and its bytes.
pub open spec fn text_bytes(s: Seq<char>) -> Seq<u8> {
    le32(encode_utf8(s).len() as int) + encode_utf8(s)
}

/// An entry as it is written.
pub open spec fn entry_bytes(e: Entry) -> Seq<u8> {
    text_bytes(e.rel) + seq![if e.is_dir { 1u8 } else { 0u8 }] + match e.stream {
        Some(s) => text_bytes(s),
        None => Seq::empty(),
    }
}

/// Entries as they are written, one after the other.
pub open spec fn entries_bytes(list: Seq<Entry>) -> Seq<u8>
    decreases list.len(),
{
    if list.len() == 0 {
        Seq::empty()
    } else {
        entries_bytes(list.drop_last()) + entry_bytes(list.last())
    }
}

/// A manifest of a given version: header, number of entries, entries.
pub open spec fn versioned_manifest(magic: Magic, version: int, list: Seq<Entry>) -> Seq<u8> {
    magic_bytes(magic) + le16(version) + le32(list.len() as int) + entries_bytes(list)
}

/// A manifest of the version that is written.
pub open spec fn manifest_bytes(magic: Magic, list: Seq<Entry>) -> Seq<u8> {
    versioned_manifest(magic, version_of(magic), list)
}

fn push_path(buf: &mut Vec<u8>, rel: &str)
    ensures
        final(buf)@ == old(buf)@ + text_bytes(rel@),
{
    let bytes = rel.as_bytes();
    #[verifier::truncate]
    let n: u32 = bytes.len() as u32;
    proof {
        let len = bytes.len();
        lemma_le32_of_truncated(len);
    }
    push_le32(buf, n);
    buf.extend_from_slice(bytes);
    assert(buf@ =~= old(buf)@ + text_bytes(rel@));
}

pub(crate) proof fn lemma_le32_of_truncated(n: usize)
    ensures
        le32(n as u32 as int) == le32(n as int),
{
    let m: u64 = n as u64;
    let k: u64 = m % 0x1_0000_0000;
    assert(m as u32 == m % 0x1_0000_0000) by (bit_vector);
    assert(k % 0x100 == m % 0x100 && k / 0x100 % 0x100 == m / 0x100 % 0x100 && k / 0x1_0000 % 0x100
        == m / 0x1_0000 % 0x100 && k / 0x100_0000 % 0x100 == m / 0x100_0000 % 0x100) by (bit_vector)
        requires
            k == m % 0x1_0000_0000u64,
    ;
    assert(n as u32 == k);
    assert(le32(n as u32 as int) =~= le32(n as int));
}

/// Write a manifest.
pub fn serialize_manifest(magic: Magic, entries: &Vec<SimpleEntry>) -> (buf: Vec<u8>)
    ensures
        buf@ == manifest_bytes(magic, entries_view(entries@)),
{
    let ghost list = entries_view(entries@);
    let mut buf: Vec<u8> = Vec::new();
    let head = magic_text(magic);
    buf.extend_from_slice(head.as_slice());
    let version: u16 = match magic {
        Magic::Full => 3,
        Magic::Simple => 1,
        Magic::Move => 1,
    };
    push_le16(&mut buf, version);
    let total: usize = entries.len();
    #[verifier::truncate]
    let count: u32 = total as u32;
    proof {
        lemma_le32_of_truncated(total);
    }
    push_le32(&mut buf, count);
    let ghost header = buf@;
    assert(header =~= magic_bytes(magic) + le16(version_of(magic)) + le32(list.len() as int));
    let mut i: usize = 0;
    assert(list.take(0) =~= Seq::empty());
    assert(buf@ =~= header + entries_bytes(list.take(0)));
    while i < entries.len()
        invariant
            i <= entries@.len(),
            list == entries_view(entries@),
            buf@ == header + entries_bytes(list.take(i as int)),
        decreases entries.len() - i,
    {
        let e = &entries[i];
        let ghost before = buf@;
        push_path(&mut buf, e.rel.as_str());
        buf.push(if e.is_dir { 1u8 } else { 0u8 });
        match &e.stream {
            Some(s) => {
                push_path(&mut buf, s.as_str());
            },
            None => {},
        }
        proof {
            assert(list[i as int] == e@);
            assert(buf@ =~= before + entry_bytes(e@));
            assert(list.take(i + 1).drop_last() =~= list.take(i as int));
            assert(buf@ =~= header + entries_bytes(list.take(i + 1)));
        }
        i = i + 1;
    }
    assert(list.take(i as int) =~= list);
    buf
}

// ── reading ──

/// What a manifest is read for, which decides what follows the kind of an entry.
#[derive(Clone, Copy, PartialEq, Eq, Debug, Structural)]
pub enum Reading {
    /// The metadata of a streamed vault: nothing follows.
    Meta,
    /// Unlocking a simple vault: a stream name follows unless it is a directory.
    Streams,
    /// Unlocking a move-lock vault: a container name follows unless it is a directory.
    Container,
    /// Finishing an interrupted lock: a name follows a file.
    Resume,
}

/// Does a name follow an entry of this kind?
pub open spec fn names_follow(reading: Reading, kind: u8) -> bool {
    match reading {
        Reading::Meta => false,
        Reading::Streams => kind != 1,
        Reading::Container => kind != 1,
        Reading::Resume => kind == 0,
    }
}

/// The message for a name that is cut off.
pub open spec fn name_missing(reading: Reading) -> Seq<char> {
    match reading {
        Reading::Streams => "vault 数据损坏 (stream)"@,
        _ => "vault 数据损坏 (name)"@,
    }
}

/// The message for a name that is not UTF-8.
pub open spec fn name_invalid(reading: Reading) -> Seq<char> {
    match reading {
        Reading::Streams => "stream 名无效"@,
        _ => "名称无效"@,
    }
}

/// Must a name stay inside the container?
pub open spec fn names_checked(reading: Reading) -> bool {
    match reading {
        Reading::Meta => false,
        Reading::Streams => false,
        Reading::Container => true,
        Reading::Resume => true,
    }
}

/// A text with its length in front: the text and the position behind it, or the
/// message for data that is cut off or not UTF-8.
pub open spec fn text_at(
    buf: Seq<u8>,
    pos: int,
    missing: Seq<char>,
    invalid: Seq<char>,
) -> Result<(Seq<char>, int), Seq<char>> {
    if pos + 4 > buf.len() {
        Err("vault 数据损坏 (u32)"@)
    } else {
        let n = from_le32(buf.subrange(pos, pos + 4));
        if pos + 4 + n > buf.len() {
            Err(missing)
        } else {
            let bytes = buf.subrange(pos + 4, pos + 4 + n);
            if valid_utf8(bytes) {
                Ok((decode_utf8(bytes), pos + 4 + n))
            } else {
                Err(invalid)
            }
        }
    }
}

/// The path at a position, which must not lead out of the folder.
pub open spec fn path_at(buf: Seq<u8>, pos: int) -> Result<(Seq<char>, int), Seq<char>> {
    match text_at(buf, pos, "vault 数据损坏 (path)"@, "vault 路径不是有效 UTF-8"@) {
        Err(e) => Err(e),
        Ok((rel, next)) => if safe_path(rel) {
            Ok((rel, next))
        } else {
            Err("拒绝不安全的路径: "@ + rel)
        },
    }
}

/// The name at a position.
pub open spec fn name_at(reading: Reading, buf: Seq<u8>, pos: int) -> Result<
    (Seq<char>, int),
    Seq<char>,
> {
    match text_at(buf, pos, name_missing(reading), name_invalid(reading)) {
        Err(e) => Err(e),
        Ok((name, next)) => if names_checked(reading) && !safe_name(name) {
            Err("拒绝不安全的容器名: "@ + name)
        } else {
            Ok((name, next))
        },
    }
}

/// The entry at a position and the position behind it.
#[verifier::opaque]
pub open spec fn entry_at(reading: Reading, buf: Seq<u8>, pos: int) -> Result<
    (Entry, int),
    Seq<char>,
> {
    match path_at(buf, pos) {
        Err(e) => Err(e),
        Ok((rel, at)) => if at >= buf.len() {
            Err("vault 数据损坏 (kind)"@)
        } else {
            let kind = buf[at];
            if names_follow(reading, kind) {
                match name_at(reading, buf, at + 1) {
                    Err(e) => Err(e),
                    Ok((name, next)) => Ok(
                        (Entry { rel, is_dir: kind == 1, stream: Some(name) }, next),
                    ),
                }
            } else {
                Ok((Entry { rel, is_dir: kind == 1, stream: None }, at + 1))
            }
        },
    }
}

/// The entries from a position on: those in front of the first broken one, and
/// the message of that one.
pub open spec fn entries_at(reading: Reading, buf: Seq<u8>, pos: int, count: nat) -> (
    Seq<Entry>,
    Option<Seq<char>>,
)
    decreases count,
{
    if count == 0 {
        (Seq::empty(), None)
    } else {
        match entry_at(reading, buf, pos) {
            Err(e) => (Seq::empty(), Some(e)),
            Ok((e, next)) => {
                let (rest, broken) = entries_at(reading, buf, next, (count - 1) as nat);
                (seq![e] + rest, broken)
            },
        }
    }
}

/// The number of entries that the header of a manifest announces.
pub open spec fn header_count(magic: Magic, buf: Seq<u8>) -> Result<int, Seq<char>> {
    if buf.len() < 14 {
        Err("vault 数据损坏"@)
    } else if buf.take(8) != magic_bytes(magic) {
        Err("vault 标识不匹配"@)
    } else {
        Ok(from_le32(buf.subrange(10, 14)))
    }
}

/// What a manifest says: the entries in front of the first broken one, and the
/// message of what is broken, if anything is.
pub open spec fn manifest_says(magic: Magic, reading: Reading, buf: Seq<u8>) -> (
    Seq<Entry>,
    Option<Seq<char>>,
) {
    match header_count(magic, buf) {
        Err(e) => (Seq::empty(), Some(e)),
        Ok(count) => entries_at(reading, buf, 14, count as nat),
    }
}

/// The number of entries that a manifest announces; none where it has no header.
pub open spec fn announced(magic: Magic, buf: Seq<u8>) -> nat {
    match header_count(magic, buf) {
        Ok(n) => n as nat,
        Err(_) => 0,
    }
}

fn read_text(buf: &[u8], pos: usize, missing: &str, invalid: &str) -> (r: Result<
    (String, usize),
    String,
>)
    requires
        pos <= buf@.len(),
    ensures
        match text_at(buf@, pos as int, missing@, invalid@) {
            Ok((s, next)) => r matches Ok(t) && t.0@ == s && t.1 == next && next <= buf@.len(),
            Err(e) => r matches Err(f) && f@ == e,
        },
{
    if buf.len() - pos < 4 {
        return Err(String::from_str("vault 数据损坏 (u32)"));
    }
    let n: usize = get_le32(buf, pos) as usize;
    if buf.len() - pos - 4 < n {
        return Err(String::from_str(missing));
    }
    let bytes = slice_subrange(buf, pos + 4, pos + 4 + n);
    match utf8_text(bytes) {
        Some(s) => {
            proof {
                encode_utf8_decode_utf8(s@);
            }
            Ok((s, pos + 4 + n))
        },
        None => Err(String::from_str(invalid)),
    }
}

fn read_entry(reading: Reading, buf: &[u8], pos: usize) -> (r: Result<(SimpleEntry, usize), String>)
    requires
        pos <= buf@.len(),
    ensures
        match entry_at(reading, buf@, pos as int) {
            Ok((e, next)) => r matches Ok(t) && t.0@ == e && t.1 == next && pos < next
                <= buf@.len(),
            Err(e) => r matches Err(f) && f@ == e,
        },
{
    reveal(entry_at);
    let (rel, at) = match read_text(
        buf,
        pos,
        "vault 数据损坏 (path)",
        "vault 路径不是有效 UTF-8",
    ) {
        Ok(t) => t,
        Err(e) => {
            return Err(e);
        },
    };
    if !is_safe_path(rel.as_str()) {
        return Err(String::from_str("拒绝不安全的路径: ").concat(rel.as_str()));
    }
    if at >= buf.len() {
        return Err(String::from_str("vault 数据损坏 (kind)"));
    }
    let kind: u8 = buf[at];
    let named = match reading {
        Reading::Meta => false,
        Reading::Streams => kind != 1,
        Reading::Container => kind != 1,
        Reading::Resume => kind == 0,
    };
    if !named {
        return Ok((SimpleEntry { rel, is_dir: kind == 1, stream: None }, at + 1));
    }
    let (missing, invalid) = match reading {
        Reading::Streams => ("vault 数据损坏 (stream)", "stream 名无效"),
        _ => ("vault 数据损坏 (name)", "名称无效"),
    };
    let (name, next) = match read_text(buf, at + 1, missing, invalid) {
        Ok(t) => t,
        Err(e) => {
            return Err(e);
        },
    };
    let checked = match reading {
        Reading::Container => true,
        Reading::Resume => true,
        _ => false,
    };
    if checked && !is_safe_name(name.as_str()) {
        return Err(String::from_str("拒绝不安全的容器名: ").concat(name.as_str()));
    }
    Ok((SimpleEntry { rel, is_dir: kind == 1, stream: Some(name) }, next))
}

pub(crate) fn read_header(magic: Magic, buf: &[u8]) -> (r: Result<u32, String>)
    ensures
        match header_count(magic, buf@) {
            Ok(n) => r matches Ok(m) && m == n && buf@.len() >= 14,
            Err(e) => r matches Err(f) && f@ == e,
        },
{
    if buf.len() < 14 {
        return Err(String::from_str("vault 数据损坏"));
    }
    let want = magic_text(magic);
    let mut i: usize = 0;
    while i < 8
        invariant
            i <= 8,
            buf@.len() >= 14,
            want@ == magic_bytes(magic),
            want@.len() == 8,
            forall|j: int| 0 <= j < i ==> buf@[j] == want@[j],
        decreases 8 - i,
    {
        if buf[i] != want[i] {
            assert(buf@.take(8)[i as int] != magic_bytes(magic)[i as int]);
            return Err(String::from_str("vault 标识不匹配"));
        }
        i = i + 1;
    }
    assert(buf@.take(8) =~= magic_bytes(magic));
    Ok(get_le32(buf, 10))
}

/// What was read of a manifest.
pub struct Parsed {
    /// The entries in front of the first broken one.
    pub entries: Vec<SimpleEntry>,
    /// The message of what is broken, if anything is.
    pub broken: Option<String>,
    /// The number of entries that the header announces.
    pub announced: u32,
}

/// An optional text.
pub open spec fn text_view(s: Option<String>) -> Option<Seq<char>> {
    match s {
        Some(t) => Some(t@),
        None => None,
    }
}

/// Read a manifest up to the first broken entry.
pub fn parse_manifest(magic: Magic, reading: Reading, buf: &[u8]) -> (p: Parsed)
    ensures
        (entries_view(p.entries@), text_view(p.broken)) == manifest_says(magic, reading, buf@),
        p.announced == announced(magic, buf@),
{
    let mut entries: Vec<SimpleEntry> = Vec::new();
    let count: u32 = match read_header(magic, buf) {
        Ok(n) => n,
        Err(e) => {
            assert(entries_view(entries@) =~= Seq::empty());
            return Parsed { entries, broken: Some(e), announced: 0 };
        },
    };
    let mut pos: usize = 14;
    let mut left: u32 = count;
    assert(entries_view(entries@) + entries_at(reading, buf@, 14, count as nat).0 =~= entries_at(
        reading,
        buf@,
        14,
        count as nat,
    ).0);
    while left > 0
        invariant
            pos <= buf@.len(),
            header_count(magic, buf@) matches Ok(n) && n == count,
            manifest_says(magic, reading, buf@) == (
                entries_view(entries@) + entries_at(reading, buf@, pos as int, left as nat).0,
                entries_at(reading, buf@, pos as int, left as nat).1,
            ),
        decreases left,
    {
        match read_entry(reading, buf, pos) {
            Ok((e, next)) => {
                proof {
                    let rest = entries_at(reading, buf@, next as int, (left - 1) as nat).0;
                    assert(entries_view(entries@) + (seq![e@] + rest) =~= entries_view(
                        entries@.push(e),
                    ) + rest);
                }
                entries.push(e);
                pos = next;
            },
            Err(e) => {
                assert(entries_view(entries@) + Seq::<Entry>::empty() =~= entries_view(entries@));
                return Parsed { entries, broken: Some(e), announced: count };
            },
        }
        left = left - 1;
    }
    assert(entries_view(entries@) + Seq::<Entry>::empty() =~= entries_view(entries@));
    Parsed { entries, broken: None, announced: count }
}

// ── reading gives back what was written ──

/// An entry that can be written and read back: its path stays inside the folder,
/// its name inside the container, both fit their length fields, and it has a name
/// exactly where the reader looks for one.
pub open spec fn writable(reading: Reading, e: Entry) -> bool {
    &&& safe_path(e.rel)
    &&& encode_utf8(e.rel).len() <= 0xFFFF_FFFF
    &&& names_follow(reading, if e.is_dir { 1u8 } else { 0u8 }) == e.stream is Some
    &&& match e.stream {
        Some(name) => {
            &&& encode_utf8(name).len() <= 0xFFFF_FFFF
            &&& names_checked(reading) ==> safe_name(name)
        },
        None => true,
    }
}

pub(crate) proof fn lemma_text_at(buf: Seq<u8>, pos: int, s: Seq<char>, missing: Seq<char>, invalid: Seq<char>)
    requires
        0 <= pos,
        encode_utf8(s).len() <= 0xFFFF_FFFF,
        pos + text_bytes(s).len() <= buf.len(),
        buf.subrange(pos, pos + text_bytes(s).len()) == text_bytes(s),
    ensures
        text_at(buf, pos, missing, invalid) == Ok::<(Seq<char>, int), Seq<char>>(
            (s, pos + text_bytes(s).len()),
        ),
{
    let b = encode_utf8(s);
    let n = b.len() as int;
    let whole = buf.subrange(pos, pos + text_bytes(s).len());
    le32_round_trip(n);
    assert(buf.subrange(pos, pos + 4) =~= whole.subrange(0, 4));
    assert(whole.subrange(0, 4) =~= le32(n));
    assert(buf.subrange(pos + 4, pos + 4 + n) =~= whole.subrange(4, 4 + n));
    assert(whole.subrange(4, 4 + n) =~= b);
    encode_utf8_valid_utf8(s);
    encode_utf8_decode_utf8(s);
}

proof fn lemma_entry_at(reading: Reading, buf: Seq<u8>, pos: int, e: Entry)
    requires
        0 <= pos,
        writable(reading, e),
        pos + entry_bytes(e).len() <= buf.len(),
        buf.subrange(pos, pos + entry_bytes(e).len()) == entry_bytes(e),
    ensures
        entry_at(reading, buf, pos) == Ok::<(Entry, int), Seq<char>>(
            (e, pos + entry_bytes(e).len()),
        ),
{
    reveal(entry_at);
    let whole = entry_bytes(e);
    let n = text_bytes(e.rel).len() as int;
    assert(buf.subrange(pos, pos + n) =~= whole.subrange(0, n));
    assert(whole.subrange(0, n) =~= text_bytes(e.rel));
    lemma_text_at(buf, pos, e.rel, "vault 数据损坏 (path)"@, "vault 路径不是有效 UTF-8"@);
    assert(buf[pos + n] == buf.subrange(pos, pos + whole.len())[n]);
    if let Some(name) = e.stream {
        let m = text_bytes(name).len() as int;
        assert(buf.subrange(pos + n + 1, pos + n + 1 + m) =~= whole.subrange(n + 1, n + 1 + m));
        assert(whole.subrange(n + 1, n + 1 + m) =~= text_bytes(name));
        lemma_text_at(buf, pos + n + 1, name, name_missing(reading), name_invalid(reading));
    }
}

proof fn lemma_entries_bytes_split(list: Seq<Entry>)
    requires
        list.len() > 0,
    ensures
        entries_bytes(list) == entry_bytes(list[0]) + entries_bytes(list.drop_first()),
    decreases list.len(),
{
    if list.len() == 1 {
        assert(list.drop_last() =~= Seq::empty());
        assert(list.drop_first() =~= Seq::empty());
        assert(entries_bytes(list) =~= entry_bytes(list[0]) + entries_bytes(list.drop_first()));
    } else {
        lemma_entries_bytes_split(list.drop_last());
        assert(list.drop_last().drop_first() =~= list.drop_first().drop_last());
        assert(list.drop_last()[0] == list[0]);
        assert(list.drop_first().last() == list.last());
        assert(entries_bytes(list) =~= entry_bytes(list[0]) + entries_bytes(list.drop_first()));
    }
}

#[verifier::rlimit(30)]
proof fn lemma_entries_at(reading: Reading, buf: Seq<u8>, pos: int, list: Seq<Entry>)
    requires
        0 <= pos,
        forall|i: int| 0 <= i < list.len() ==> writable(reading, #[trigger] list[i]),
        pos + entries_bytes(list).len() <= buf.len(),
        buf.subrange(pos, pos + entries_bytes(list).len()) == entries_bytes(list),
    ensures
        entries_at(reading, buf, pos, list.len()) == (list, None::<Seq<char>>),
    decreases list.len(),
{
    if list.len() == 0 {
        assert(list =~= Seq::empty());
    } else {
        lemma_entries_bytes_split(list);
        let rest = list.drop_first();
        let whole = entries_bytes(list);
        let n = entry_bytes(list[0]).len() as int;
        assert(buf.subrange(pos, pos + n) =~= whole.subrange(0, n));
        assert(whole.subrange(0, n) =~= entry_bytes(list[0]));
        lemma_entry_at(reading, buf, pos, list[0]);
        let m = entries_bytes(rest).len() as int;
        assert(buf.subrange(pos + n, pos + n + m) =~= whole.subrange(n, n + m));
        assert(whole.subrange(n, n + m) =~= entries_bytes(rest));
        lemma_entries_at(reading, buf, pos + n, rest);
        assert(seq![list[0]] + rest =~= list);
    }
}

/// A manifest reads back as the entries that it was written from.
pub proof fn manifest_round_trip(magic: Magic, version: int, reading: Reading, list: Seq<Entry>)
    requires
        list.len() <= 0xFFFF_FFFF,
        forall|i: int| 0 <= i < list.len() ==> writable(reading, #[trigger] list[i]),
    ensures
        manifest_says(magic, reading, versioned_manifest(magic, version, list)) == (
            list,
            None::<Seq<char>>,
        ),
{
    let buf = versioned_manifest(magic, version, list);
    le32_round_trip(list.len() as int);
    assert(buf.take(8) =~= magic_bytes(magic));
    assert(buf.subrange(10, 14) =~= le32(list.len() as int));
    let n = entries_bytes(list).len() as int;
    assert(buf.subrange(14, 14 + n) =~= entries_bytes(list));
    lemma_entries_at(reading, buf, 14, list);
}

/// Whatever bytes a manifest holds, no entry that is read from it has a path that
/// leads out of the folder; and no name leads out of the container where names
/// are used there.
pub proof fn entries_are_safe(magic: Magic, reading: Reading, buf: Seq<u8>, i: int)
    requires
        0 <= i < manifest_says(magic, reading, buf).0.len(),
    ensures
        safe_path(manifest_says(magic, reading, buf).0[i].rel),
        names_checked(reading) ==> (manifest_says(magic, reading, buf).0[i].stream matches Some(name)
            ==> safe_name(name)),
{
    if let Ok(count) = header_count(magic, buf) {
        lemma_entries_safe(reading, buf, 14, count as nat, i);
    }
}

proof fn lemma_entries_safe(reading: Reading, buf: Seq<u8>, pos: int, count: nat, i: int)
    requires
        0 <= i < entries_at(reading, buf, pos, count).0.len(),
    ensures
        safe_path(entries_at(reading, buf, pos, count).0[i].rel),
        names_checked(reading) ==> (entries_at(
            reading,
            buf,
            pos,
            count,
        ).0[i].stream matches Some(name) ==> safe_name(name)),
    decreases count,
{
    reveal(entry_at);
    if let Ok((e, next)) = entry_at(reading, buf, pos) {
        if i > 0 {
            lemma_entries_safe(reading, buf, next, (count - 1) as nat, i - 1);
        }
    }
}

/// Reading for an unlock, an entry that is not a directory has a name.
pub proof fn entries_are_named(magic: Magic, reading: Reading, buf: Seq<u8>, i: int)
    requires
        reading == Reading::Streams || reading == Reading::Container,
        0 <= i < manifest_says(magic, reading, buf).0.len(),
    ensures
        manifest_says(magic, reading, buf).0[i].is_dir <==> manifest_says(
            magic,
            reading,
            buf,
        ).0[i].stream is None,
{
    if let Ok(count) = header_count(magic, buf) {
        lemma_entries_named(reading, buf, 14, count as nat, i);
    }
}

proof fn lemma_entries_named(reading: Reading, buf: Seq<u8>, pos: int, count: nat, i: int)
    requires
        reading == Reading::Streams || reading == Reading::Container,
        0 <= i < entries_at(reading, buf, pos, count).0.len(),
    ensures
        entries_at(reading, buf, pos, count).0[i].is_dir <==> entries_at(
            reading,
            buf,
            pos,
            count,
        ).0[i].stream is None,
    decreases count,
{
    reveal(entry_at);
    if let Ok((e, next)) = entry_at(reading, buf, pos) {
        if i > 0 {
            lemma_entries_named(reading, buf, next, (count - 1) as nat, i - 1);
        }
    }
}

// ── the manifest that holds the contents itself ──

/// An entry with its content.
pub struct FullEntry {
    /// The relative path.
    pub rel: String,
    /// Is it a directory?
    pub is_dir: bool,
    /// The encrypted content.
    pub data: Vec<u8>,
}

/// An entry with its content, as text and bytes.
#[verifier::ext_equal]
pub struct Packed {
    /// The relative path.
    pub rel: Seq<char>,
    /// Is it a directory?
    pub is_dir: bool,
    /// The encrypted content.
    pub data: Seq<u8>,
}

impl View for FullEntry {
    type V = Packed;

    open spec fn view(&self) -> Packed {
        Packed { rel: self.rel@, is_dir: self.is_dir, data: self.data@ }
    }
}

/// The entries of a list.
pub open spec fn packed_view(list: Seq<FullEntry>) -> Seq<Packed> {
    list.map_values(|e: FullEntry| e@)
}

/// The entry with content at a position and the position behind it.
#[verifier::opaque]
pub open spec fn packed_at(buf: Seq<u8>, pos: int) -> Result<(Packed, int), Seq<char>> {
    match path_at(buf, pos) {
        Err(e) => Err(e),
        Ok((rel, at)) => if at >= buf.len() {
            Err("vault 数据损坏 (kind)"@)
        } else if at + 9 > buf.len() {
            Err("vault 数据损坏 (u64)"@)
        } else {
            let n = from_le64(buf.subrange(at + 1, at + 9));
            if at + 9 + n > buf.len() {
                Err("vault 数据损坏 (data)"@)
            } else {
                Ok(
                    (
                        Packed {
                            rel,
                            is_dir: buf[at] == 1,
                            data: buf.subrange(at + 9, at + 9 + n),
                        },
                        at + 9 + n,
                    ),
                )
            }
        },
    }
}

/// The entries with content from a position on: those in front of the first
/// broken one, and the message of that one.
pub open spec fn packed_from(buf: Seq<u8>, pos: int, count: nat) -> (
    Seq<Packed>,
    Option<Seq<char>>,
)
    decreases count,
{
    if count == 0 {
        (Seq::empty(), None)
    } else {
        match packed_at(buf, pos) {
            Err(e) => (Seq::empty(), Some(e)),
            Ok((e, next)) => {
                let (rest, broken) = packed_from(buf, next, (count - 1) as nat);
                (seq![e] + rest, broken)
            },
        }
    }
}

/// What a manifest with contents says.
pub open spec fn packed_says(buf: Seq<u8>) -> (Seq<Packed>, Option<Seq<char>>) {
    match header_count(Magic::Full, buf) {
        Err(e) => (Seq::empty(), Some(e)),
        Ok(count) => packed_from(buf, 14, count as nat),
    }
}

fn read_packed(buf: &[u8], pos: usize) -> (r: Result<(FullEntry, usize), String>)
    requires
        pos <= buf@.len(),
    ensures
        match packed_at(buf@, pos as int) {
            Ok((e, next)) => r matches Ok(t) && t.0@ == e && t.1 == next && next <= buf@.len(),
            Err(e) => r matches Err(f) && f@ == e,
        },
{
    reveal(packed_at);
    let (rel, at) = match read_text(
        buf,
        pos,
        "vault 数据损坏 (path)",
        "vault 路径不是有效 UTF-8",
    ) {
        Ok(t) => t,
        Err(e) => {
            return Err(e);
        },
    };
    if !is_safe_path(rel.as_str()) {
        return Err(String::from_str("拒绝不安全的路径: ").concat(rel.as_str()));
    }
    if at >= buf.len() {
        return Err(String::from_str("vault 数据损坏 (kind)"));
    }
    let kind: u8 = buf[at];
    if buf.len() - at < 9 {
        return Err(String::from_str("vault 数据损坏 (u64)"));
    }
    let n: u64 = get_le64(buf, at + 1);
    let left: usize = buf.len() - at - 9;
    if (left as u64) < n {
        return Err(String::from_str("vault 数据损坏 (data)"));
    }
    let end: usize = at + 9 + n as usize;
    let mut data: Vec<u8> = Vec::new();
    data.extend_from_slice(slice_subrange(buf, at + 9, end));
    assert(data@ =~= buf@.subrange(at + 9, end as int));
    Ok((FullEntry { rel, is_dir: kind == 1, data }, end))
}

/// What was read of a manifest with contents.
pub struct ParsedFull {
    /// The entries in front of the first broken one.
    pub entries: Vec<FullEntry>,
    /// The message of what is broken, if anything is.
    pub broken: Option<String>,
    /// The number of entries that the header announces.
    pub announced: u32,
}

/// Read a manifest with contents up to the first broken entry.
pub fn parse_full(buf: &[u8]) -> (p: ParsedFull)
    ensures
        (packed_view(p.entries@), text_view(p.broken)) == packed_says(buf@),
        p.announced == announced(Magic::Full, buf@),
{
    let mut entries: Vec<FullEntry> = Vec::new();
    let count: u32 = match read_header(Magic::Full, buf) {
        Ok(n) => n,
        Err(e) => {
            assert(packed_view(entries@) =~= Seq::empty());
            return ParsedFull { entries, broken: Some(e), announced: 0 };
        },
    };
    let mut pos: usize = 14;
    let mut left: u32 = count;
    let ghost all = packed_from(buf@, 14, count as nat);
    assert(packed_view(entries@) + all.0 =~= all.0);
    while left > 0
        invariant
            pos <= buf@.len(),
            header_count(Magic::Full, buf@) matches Ok(n) && n == count,
            packed_says(buf@) == (
                packed_view(entries@) + packed_from(buf@, pos as int, left as nat).0,
                packed_from(buf@, pos as int, left as nat).1,
            ),
        decreases left,
    {
        match read_packed(buf, pos) {
            Ok((e, next)) => {
                proof {
                    let rest = packed_from(buf@, next as int, (left - 1) as nat).0;
                    assert(packed_view(entries@) + (seq![e@] + rest) =~= packed_view(
                        entries@.push(e),
                    ) + rest);
                }
                entries.push(e);
                pos = next;
            },
            Err(e) => {
                assert(packed_view(entries@) + Seq::<Packed>::empty() =~= packed_view(entries@));
                return ParsedFull { entries, broken: Some(e), announced: count };
            },
        }
        left = left - 1;
    }
    assert(packed_view(entries@) + Seq::<Packed>::empty() =~= packed_view(entries@));
    ParsedFull { entries, broken: None, announced: count }
}

/// How many of the entries from a position on are files, going by the lengths
/// alone.
pub open spec fn files_from(buf: Seq<u8>, pos: int, count: nat) -> Result<nat, Seq<char>>
    decreases count,
{
    if count == 0 {
        Ok(0)
    } else if pos + 4 > buf.len() {
        Err("vault 数据损坏 (u32)"@)
    } else {
        let at = pos + 4 + from_le32(buf.subrange(pos, pos + 4));
        if at >= buf.len() {
            Err("vault 数据损坏 (kind)"@)
        } else if at + 9 > buf.len() {
            Err("vault 数据损坏 (u64)"@)
        } else {
            let next = at + 9 + from_le64(buf.subrange(at + 1, at + 9));
            match files_from(buf, next, (count - 1) as nat) {
                Ok(n) => Ok(if buf[at] == 0 { n + 1 } else { n }),
                Err(e) => Err(e),
            }
        }
    }
}

/// How many files a manifest with contents announces.
pub open spec fn files_announced(buf: Seq<u8>) -> Result<nat, Seq<char>> {
    match header_count(Magic::Full, buf) {
        Err(e) => Err(e),
        Ok(count) => files_from(buf, 14, count as nat),
    }
}

/// Count the file (non-dir) entries in a manifest with contents.
pub fn manifest_file_count_full(buf: &[u8]) -> (r: Result<usize, String>)
    ensures
        match files_announced(buf@) {
            Ok(n) => r matches Ok(m) && m == n,
            Err(e) => r matches Err(f) && f@ == e,
        },
{
    let count: u32 = match read_header(Magic::Full, buf) {
        Ok(n) => n,
        Err(e) => {
            return Err(e);
        },
    };
    let mut pos: usize = 14;
    let mut left: u32 = count;
    let mut files: usize = 0;
    while left > 0
        invariant
            files + left <= count,
            files_announced(buf@) == match files_from(buf@, pos as int, left as nat) {
                Ok(n) => Ok((files + n) as nat),
                Err(e) => Err(e),
            },
        decreases left,
    {
        if buf.len() < 4 || buf.len() - 4 < pos {
            return Err(String::from_str("vault 数据损坏 (u32)"));
        }
        let n: usize = get_le32(buf, pos) as usize;
        if buf.len() - pos - 4 <= n {
            return Err(String::from_str("vault 数据损坏 (kind)"));
        }
        let at: usize = pos + 4 + n;
        if buf.len() - at < 9 {
            return Err(String::from_str("vault 数据损坏 (u64)"));
        }
        let d: u64 = get_le64(buf, at + 1);
        let kind: u8 = buf[at];
        let room: usize = usize::MAX - (at + 9);
        let ghost next = at + 9 + d;
        if d <= room as u64 {
            pos = at + 9 + d as usize;
        } else {
            pos = usize::MAX;
            assert(buf.len() <= usize::MAX);
            assert(files_from(buf@, next, (left - 1) as nat) == files_from(
                buf@,
                pos as int,
                (left - 1) as nat,
            ));
        }
        if kind == 0 {
            files = files + 1;
        }
        left = left - 1;
    }
    Ok(files)
}

// ── what is written and read ──

/// A manifest begins with `FLOCKVLT`, `FLOCKLIT` or `FLOCKMOV` by its kind, its version
/// in two bytes and the number of its entries in four, the lowest first.
#[verifier::rlimit(30)]
pub proof fn header_is_laid_out(magic: Magic, entries: &Vec<SimpleEntry>, buf: Vec<u8>)
    requires
        call_ensures(serialize_manifest, (magic, entries), buf),
        entries@.len() <= 0xFFFF_FFFF,
    ensures
        buf@.len() >= 14,
        buf@.take(5) == seq![70u8, 76, 79, 67, 75],
        buf@.subrange(5, 8) == match magic {
            Magic::Full => seq![86u8, 76, 84],
            Magic::Simple => seq![76u8, 73, 84],
            Magic::Move => seq![77u8, 79, 86],
        },
        buf@[8] == if magic == Magic::Full {
            3u8
        } else {
            1u8
        },
        buf@[9] == 0,
        buf@[10] + 256 * buf@[11] + 65536 * buf@[12] + 16777216 * buf@[13] == entries@.len(),
        buf@.skip(14) == entries_bytes(entries_view(entries@)),
{
    let list = entries_view(entries@);
    let n = list.len() as int;
    le32_round_trip(n);
    assert(buf@.subrange(10, 14) =~= le32(n));
    assert(buf@.take(5) =~= magic_bytes(magic).take(5));
    assert(magic_bytes(magic).take(5) =~= seq![70u8, 76, 79, 67, 75]);
    assert(buf@.subrange(5, 8) =~= magic_bytes(magic).subrange(5, 8));
    assert(magic_bytes(Magic::Full).subrange(5, 8) =~= seq![86u8, 76, 84]);
    assert(magic_bytes(Magic::Simple).subrange(5, 8) =~= seq![76u8, 73, 84]);
    assert(magic_bytes(Magic::Move).subrange(5, 8) =~= seq![77u8, 79, 86]);
    assert(buf@.subrange(8, 10) =~= le16(version_of(magic)));
    assert(buf@[8] == buf@.subrange(8, 10)[0] && buf@[9] == buf@.subrange(8, 10)[1]);
    assert(buf@.skip(14) =~= entries_bytes(list));
}

/// An entry is the length of its path, its path, a byte that is 1 for a directory and 0
/// for a file, and the length and the bytes of the name that it is stored under, if it
/// has one; entries stand one behind the other.
#[verifier::rlimit(30)]
pub proof fn entry_is_laid_out(front: Seq<Entry>, e: Entry)
    requires
        encode_utf8(e.rel).len() <= 0xFFFF_FFFF,
        e.stream matches Some(name) ==> encode_utf8(name).len() <= 0xFFFF_FFFF,
    ensures
        entries_bytes(front.push(e)) == entries_bytes(front) + entry_bytes(e),
        ({
            let b = entry_bytes(e);
            let n = encode_utf8(e.rel).len() as int;
            &&& b.len() >= n + 5
            &&& from_le32(b.take(4)) == n
            &&& b.subrange(4, 4 + n) == encode_utf8(e.rel)
            &&& b[4 + n] == if e.is_dir {
                1u8
            } else {
                0u8
            }
            &&& e.stream is None ==> b.len() == n + 5
            &&& e.stream matches Some(name) ==> {
                &&& b.len() == n + 9 + encode_utf8(name).len()
                &&& from_le32(b.subrange(n + 5, n + 9)) == encode_utf8(name).len()
                &&& b.skip(n + 9) == encode_utf8(name)
            }
        }),
{
    let b = entry_bytes(e);
    let n = encode_utf8(e.rel).len() as int;
    le32_round_trip(n);
    assert(front.push(e).drop_last() =~= front);
    assert(b.take(4) =~= le32(n));
    assert(b.subrange(4, 4 + n) =~= encode_utf8(e.rel));
    if let Some(name) = e.stream {
        let m = encode_utf8(name).len() as int;
        le32_round_trip(m);
        assert(b.subrange(n + 5, n + 9) =~= le32(m));
        assert(b.skip(n + 9) =~= encode_utf8(name));
    }
}

/// A manifest that was written is read as the entries that it was written from.
#[verifier::rlimit(30)]
pub proof fn reading_undoes_writing(
    magic: Magic,
    reading: Reading,
    entries: &Vec<SimpleEntry>,
    buf: Vec<u8>,
    bytes: &[u8],
    p: Parsed,
)
    requires
        call_ensures(serialize_manifest, (magic, entries), buf),
        entries@.len() <= 0xFFFF_FFFF,
        forall|i: int|
            0 <= i < entries@.len() ==> writable(reading, #[trigger] entries_view(entries@)[i]),
        bytes@ == buf@,
        call_ensures(parse_manifest, (magic, reading, bytes), p),
    ensures
        p.broken is None,
        entries_view(p.entries@) == entries_view(entries@),
        p.announced == entries@.len(),
{
    let list = entries_view(entries@);
    manifest_round_trip(magic, version_of(magic), reading, list);
    le32_round_trip(list.len() as int);
    assert(buf@.take(8) =~= magic_bytes(magic));
    assert(buf@.subrange(10, 14) =~= le32(list.len() as int));
}

/// Whatever a manifest holds, what is read of it stays inside the folder, and inside the
/// container where names are used there.
#[verifier::rlimit(30)]
pub proof fn what_is_read_stays_inside(
    magic: Magic,
    reading: Reading,
    bytes: &[u8],
    p: Parsed,
    i: int,
)
    requires
        call_ensures(parse_manifest, (magic, reading, bytes), p),
        0 <= i < p.entries@.len(),
    ensures
        safe_path(p.entries@[i].rel@),
        reading == Reading::Container ==> (p.entries@[i].stream matches Some(name) ==> safe_name(
            name@,
        )),
        p.entries@.len() <= p.announced,
{
    let (list, broken) = manifest_says(magic, reading, bytes@);
    assert(list[i] == p.entries@[i]@);
    entries_are_safe(magic, reading, bytes@, i);
    if let Ok(count) = header_count(magic, bytes@) {
        lemma_no_more_than_announced(reading, bytes@, 14, count as nat);
    }
}

proof fn lemma_no_more_than_announced(reading: Reading, buf: Seq<u8>, pos: int, count: nat)
    ensures
        entries_at(reading, buf, pos, count).0.len() <= count,
    decreases count,
{
    if count > 0 {
        if let Ok((e, next)) = entry_at(reading, buf, pos) {
            lemma_no_more_than_announced(reading, buf, next, (count - 1) as nat);
        }
    }
}

/// A streamed vault numbers its streams exactly where the version of its metadata is 3.
pub proof fn version_three_numbers_streams(buf: &[u8], r: bool)
    requires
        call_ensures(has_numbered_streams, (buf,), r),
    ensures
        r <==> buf@.len() >= 10 && buf@[8] == 3 && buf@[9] == 0,
{
    if buf@.len() >= 10 {
        let v = buf@.subrange(8, 10);
        assert(v[0] == buf@[8] && v[1] == buf@[9]);
        if buf@[8] == 3 && buf@[9] == 0 {
            assert(v =~= le16(3));
        }
    }
}

} // verus!
