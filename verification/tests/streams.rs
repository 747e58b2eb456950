use folder_lock::crypto;
use folder_lock::stream::{
    decrypt_stream, encrypt_stream, stage_of, Awaits, Opener, Sealer, STREAM_CHUNK,
    STREAM_NONCE_LEN,
};

const KEY: crypto::Key = [7u8; 32];

fn hex(bytes: &[u8]) -> String {
    bytes.iter().map(|b| format!("{:02x}", b)).collect()
}

/// A stream of the given chunks under the nonce 1 to 7.
fn sealed(chunks: &[&[u8]]) -> Vec<u8> {
    let mut sealer = Sealer::with_nonce(&KEY, [1, 2, 3, 4, 5, 6, 7]);
    let mut out = sealer.preamble().to_vec();
    let mut left = chunks.iter();
    while !sealer.finished() {
        let chunk = left.next().map(|c| c.to_vec()).unwrap_or_default();
        if let Some(frame) = sealer.feed(&KEY, chunk).unwrap() {
            out.push(frame.flag);
            out.extend_from_slice(&frame.length);
            out.extend_from_slice(&frame.body);
        }
    }
    out
}

#[test]
fn a_stream_is_a_nonce_and_its_frames() {
    let one = sealed(&[b"hello"]);
    assert_eq!(hex(&one[..7]), "01020304050607");
    assert_eq!(one[7], 1);
    assert_eq!(one[8..12], [21, 0, 0, 0]);
    assert_eq!(hex(&one[12..]), "6fdefc53c8a53b5b93413fe7b36cf999326e9c7112");

    let empty = sealed(&[b""]);
    assert_eq!(empty[7], 1);
    assert_eq!(hex(&empty[12..]), "ca1c329d4253ee22769dbc5bc53e82f3");

    let two = sealed(&[b"ab", b"c"]);
    assert_eq!(two[7], 0);
    assert_eq!(two[8..12], [18, 0, 0, 0]);
    assert_eq!(hex(&two[12..30]), "afc45964b944eb35f47f0f8e6dff1f837a22");
    assert_eq!(two[30], 1);
    assert_eq!(two[31..35], [17, 0, 0, 0]);
    assert_eq!(hex(&two[35..]), "91e8655e68202ae5a18a0b80ef64b51bad");
}

#[test]
fn a_stream_reads_back_and_tells_where_it_ends() {
    for n in [0, 1, 100, STREAM_CHUNK - 1, STREAM_CHUNK, STREAM_CHUNK + 1, 2 * STREAM_CHUNK] {
        let content: Vec<u8> = (0..n).map(|i| (i % 251) as u8).collect();
        let mut bytes = b"front".to_vec();
        encrypt_stream(&KEY, &content, &mut bytes).unwrap();
        let frames = if n == 0 { 1 } else { (n + STREAM_CHUNK - 1) / STREAM_CHUNK };
        let length = bytes.len() - 5;
        assert_eq!(length, STREAM_NONCE_LEN + n + frames * (5 + crypto::TAG_LEN));
        bytes.extend_from_slice(b"behind");
        let mut out = b"before".to_vec();
        let read = decrypt_stream(&KEY, &bytes[5..], &mut out).unwrap();
        assert_eq!(read, length);
        assert!(out[..6] == *b"before" && out[6..] == content[..]);
    }
}

#[test]
fn a_stream_under_another_key_is_refused() {
    let bytes = sealed(&[b"hello"]);
    let mut out = Vec::new();
    assert_eq!(
        decrypt_stream(&[8u8; 32], &bytes, &mut out),
        Err("解密失败：密码错误或数据已损坏".to_string())
    );
}

#[test]
fn frames_cannot_be_dropped_or_swapped() {
    let two = sealed(&[b"ab", b"c"]);
    let refused = Err("解密失败：密码错误或数据已损坏".to_string());
    let mut out = Vec::new();
    // Without the first frame, and with the first frame taken for the last.
    let mut dropped = two[..7].to_vec();
    dropped.extend_from_slice(&two[30..]);
    assert_eq!(decrypt_stream(&KEY, &dropped, &mut out), refused);
    let mut cut = two[..30].to_vec();
    cut[7] = 1;
    assert_eq!(decrypt_stream(&KEY, &cut, &mut out), refused);
}

#[test]
fn a_stream_that_is_cut_short_is_refused_by_the_part_that_is_missing() {
    let bytes = sealed(&[b"hello"]);
    let cut = |n: usize| {
        let mut out = Vec::new();
        decrypt_stream(&KEY, &bytes[..n], &mut out).unwrap_err()
    };
    assert_eq!(cut(0), "读取 nonce 失败: failed to fill whole buffer");
    assert_eq!(cut(6), "读取 nonce 失败: failed to fill whole buffer");
    assert_eq!(cut(7), "读取分块标志失败: failed to fill whole buffer");
    assert_eq!(cut(8), "读取分块长度失败: failed to fill whole buffer");
    assert_eq!(cut(11), "读取分块长度失败: failed to fill whole buffer");
    assert_eq!(cut(12), "读取分块失败: failed to fill whole buffer");
    assert_eq!(cut(bytes.len() - 1), "读取分块失败: failed to fill whole buffer");
}

#[test]
fn a_frame_without_a_tag_is_refused() {
    let mut bytes = sealed(&[b"hello"])[..7].to_vec();
    bytes.extend_from_slice(&[1, 0, 0, 0, 0]);
    let mut out = Vec::new();
    assert_eq!(
        decrypt_stream(&KEY, &bytes, &mut out),
        Err("解密失败：密码错误或数据已损坏".to_string())
    );
}

#[test]
fn an_opener_says_what_it_reads_next() {
    let bytes = sealed(&[b"ab", b"c"]);
    let mut opener = Opener::new();
    let mut at = 0;
    let mut seen = Vec::new();
    let mut content = Vec::new();
    while opener.awaits() != Awaits::Nothing {
        seen.push((opener.awaits(), opener.wants()));
        let end = at + opener.wants();
        content.extend(opener.feed(&KEY, &bytes[at..end]).unwrap());
        at = end;
    }
    assert_eq!(
        seen,
        [
            (Awaits::Nonce, 7),
            (Awaits::Flag, 1),
            (Awaits::Length { last: false }, 4),
            (Awaits::Body { last: false, len: 18 }, 18),
            (Awaits::Flag, 1),
            (Awaits::Length { last: true }, 4),
            (Awaits::Body { last: true, len: 17 }, 17),
        ]
    );
    assert_eq!(opener.awaits(), Awaits::Nothing);
    assert_eq!(content, b"abc");
    assert_eq!(at, bytes.len());
    assert_eq!(stage_of(Awaits::Flag), folder_lock::fault::Stage::ReadFlag);
}

#[test]
fn sealers_draw_fresh_nonces() {
    assert_ne!(Sealer::new(&KEY).preamble(), Sealer::new(&KEY).preamble());
}

#[test]
fn a_flag_that_is_none_is_refused() {
    let refused = Err("解密失败：密码错误或数据已损坏".to_string());
    for flag in [2, 255] {
        let mut two = sealed(&[b"ab", b"c"]);
        two[7] = flag;
        let mut out = Vec::new();
        assert_eq!(decrypt_stream(&KEY, &two, &mut out), refused);
        assert!(out.is_empty());
        let mut two = sealed(&[b"ab", b"c"]);
        two[30] = flag;
        assert_eq!(decrypt_stream(&KEY, &two, &mut out), refused);
        assert_eq!(out, b"ab");
    }
    let mut opener = Opener::new();
    assert_eq!(opener.feed(&KEY, &[1, 2, 3, 4, 5, 6, 7]), Ok(Vec::new()));
    assert_eq!(opener.feed(&KEY, &[2]), refused.map(|_: usize| Vec::new()));
}

#[test]
fn a_failed_read_leaves_the_chunks_that_opened() {
    let content: Vec<u8> = (0..2 * STREAM_CHUNK + 5).map(|i| (i % 251) as u8).collect();
    let mut bytes = Vec::new();
    encrypt_stream(&KEY, &content, &mut bytes).unwrap();
    let frame = 21 + STREAM_CHUNK;
    for (cut, chunks) in [
        (0, 0),
        (6, 0),
        (7, 0),
        (7 + frame - 1, 0),
        (7 + frame, 1),
        (7 + 2 * frame - 1, 1),
        (7 + 2 * frame, 2),
        (bytes.len() - 1, 2),
    ] {
        let mut out = b"before".to_vec();
        assert!(decrypt_stream(&KEY, &bytes[..cut], &mut out).is_err());
        assert!(out[..6] == *b"before" && out[6..] == content[..chunks * STREAM_CHUNK]);
    }
    let mut out = Vec::new();
    assert!(decrypt_stream(&[8u8; 32], &bytes, &mut out).is_err());
    assert!(out.is_empty());
}

#[test]
fn a_stream_is_laid_out_in_full_frames() {
    for n in [0, 1, STREAM_CHUNK, STREAM_CHUNK + 1, 2 * STREAM_CHUNK + 7] {
        let mut bytes = Vec::new();
        encrypt_stream(&KEY, &vec![3u8; n], &mut bytes).unwrap();
        let count = std::cmp::max(1, (n + STREAM_CHUNK - 1) / STREAM_CHUNK);
        assert_eq!(bytes.len(), 7 + 21 * count + n);
        let mut at = 7;
        for i in 0..count {
            let last = i == count - 1;
            let chunk = if last { n - i * STREAM_CHUNK } else { STREAM_CHUNK };
            assert_eq!(bytes[at], last as u8);
            assert_eq!(bytes[at + 1..at + 5], (chunk as u32 + 16).to_le_bytes());
            at += 21 + chunk;
        }
        assert_eq!(at, bytes.len());
    }
}

#[test]
fn a_stream_of_another_number_is_refused() {
    let mut sealer = Sealer::numbered(&KEY, 0x01_0203_0405_0607);
    assert_eq!(sealer.preamble(), [7, 6, 5, 4, 3, 2, 1]);
    assert!(sealer.feed(&KEY, b"hello".to_vec()).unwrap().is_none());
    let nonce = sealer.preamble();
    let mut due = Opener::numbered(Some(0x01_0203_0405_0607));
    assert_eq!(due.feed(&KEY, &nonce), Ok(Vec::new()));
    assert_eq!(due.awaits(), Awaits::Flag);
    let mut any = Opener::numbered(None);
    assert_eq!(any.feed(&KEY, &nonce), Ok(Vec::new()));
    let mut other = Opener::numbered(Some(0x01_0203_0405_0608));
    assert_eq!(other.feed(&KEY, &nonce), Err("解密失败：密码错误或数据已损坏".to_string()));
}

#[test]
fn a_frame_that_was_changed_ends_the_reading() {
    let refused = Err("解密失败：密码错误或数据已损坏".to_string());
    let two = sealed(&[b"ab", b"c"]);
    // Every byte of the two ciphertexts, tags included.
    for i in (12..30).chain(35..two.len()) {
        let mut bytes = two.clone();
        bytes[i] ^= 1;
        let mut out = Vec::new();
        assert_eq!(decrypt_stream(&KEY, &bytes, &mut out), refused);
        assert_eq!(out, if i < 30 { &b""[..] } else { &b"ab"[..] });
    }
}
