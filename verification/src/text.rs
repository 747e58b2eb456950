//! Text and number helpers: decimal digits, little-endian integers, search.

use vstd::prelude::*;
use vstd::utf8::{encode_utf8, valid_utf8};

verus! {

// ── characters ──

/// The characters of a text.
pub(crate) fn chars_of(s: &str) -> (v: Vec<char>)
    ensures
        v@ == s@,
{
    let mut v: Vec<char> = Vec::new();
    for c in it: s.chars()
        invariant
            v@ == it.seq().take(it.index() as int),
            it.seq() == s@,
    {
        proof {
            assert(it.seq().take(it.index() + 1) =~= it.seq().take(it.index() as int).push(c));
        }
        v.push(c);
    }
    assert(v@ =~= s@);
    v
}

// ── decimal numbers ──

/// The character of a decimal digit.
pub open spec fn digit(d: nat) -> char {
    (48 + d) as char
}

/// A number in decimal, without leading zeros.
pub open spec fn decimal(n: nat) -> Seq<char>
    decreases n,
{
    if n < 10 {
        seq![digit(n)]
    } else {
        decimal(n / 10).push(digit(n % 10))
    }
}

/// A number in decimal, with zeros in front up to the given width.
pub open spec fn padded(n: nat, width: nat) -> Seq<char> {
    let d = decimal(n);
    if d.len() < width {
        Seq::new((width - d.len()) as nat, |i: int| '0') + d
    } else {
        d
    }
}

/// The value of a sequence of decimal digits.
pub open spec fn digits_value(s: Seq<char>) -> int
    decreases s.len(),
{
    if s.len() == 0 {
        0
    } else {
        10 * digits_value(s.drop_last()) + (s.last() as int - 48)
    }
}

proof fn lemma_decimal_value(n: nat)
    ensures
        digits_value(decimal(n)) == n,
        decimal(n).len() >= 1,
    decreases n,
{
    reveal_with_fuel(digits_value, 2);
    if n < 10 {
        assert(decimal(n).drop_last() =~= Seq::empty());
        assert(decimal(n).last() == digit(n));
    } else {
        lemma_decimal_value(n / 10);
        assert(decimal(n).drop_last() =~= decimal(n / 10));
        assert(decimal(n).last() == digit(n % 10));
    }
}

proof fn lemma_leading_zeros(k: nat, d: Seq<char>)
    ensures
        digits_value(Seq::new(k, |i: int| '0') + d) == digits_value(d),
    decreases k + d.len(),
{
    let z = Seq::new(k, |i: int| '0');
    if d.len() > 0 {
        lemma_leading_zeros(k, d.drop_last());
        assert((z + d).drop_last() =~= z + d.drop_last());
        assert((z + d).last() == d.last());
    } else if k > 0 {
        lemma_leading_zeros((k - 1) as nat, d);
        assert((z + d).drop_last() =~= Seq::new((k - 1) as nat, |i: int| '0') + d);
        assert((z + d).last() == '0');
    } else {
        assert(z + d =~= d);
    }
}

/// Padding a number keeps its value, so different numbers are written differently.
pub proof fn padded_is_injective(a: nat, b: nat, width: nat)
    requires
        padded(a, width) == padded(b, width),
    ensures
        a == b,
{
    lemma_decimal_value(a);
    lemma_decimal_value(b);
    if decimal(a).len() < width {
        lemma_leading_zeros((width - decimal(a).len()) as nat, decimal(a));
    }
    if decimal(b).len() < width {
        lemma_leading_zeros((width - decimal(b).len()) as nat, decimal(b));
    }
}

fn digit_text(d: usize) -> (s: &'static str)
    requires
        d < 10,
    ensures
        s@ == seq![digit(d as nat)],
{
    proof {
        reveal_strlit("0");
        reveal_strlit("1");
        reveal_strlit("2");
        reveal_strlit("3");
        reveal_strlit("4");
        reveal_strlit("5");
        reveal_strlit("6");
        reveal_strlit("7");
        reveal_strlit("8");
        reveal_strlit("9");
    }
    match d {
        0 => "0",
        1 => "1",
        2 => "2",
        3 => "3",
        4 => "4",
        5 => "5",
        6 => "6",
        7 => "7",
        8 => "8",
        _ => "9",
    }
}

/// Write a number in decimal.
pub fn decimal_text(n: usize) -> (s: String)
    ensures
        s@ == decimal(n as nat),
    decreases n,
{
    if n < 10 {
        String::from_str(digit_text(n))
    } else {
        let mut s = decimal_text(n / 10);
        s.append(digit_text(n % 10));
        assert(s@ =~= decimal(n as nat));
        s
    }
}

/// Write a number in decimal with at least `width` digits.
pub fn padded_text(n: usize, width: usize) -> (s: String)
    ensures
        s@ == padded(n as nat, width as nat),
{
    let d = decimal_text(n);
    let have: usize = d.as_str().unicode_len();
    let mut s = String::new();
    let mut i: usize = have;
    while i < width
        invariant
            s@ =~= Seq::new((if i >= have { i - have } else { 0 }) as nat, |j: int| '0'),
            have <= i,
            i <= width || i == have,
        decreases width - i,
    {
        proof {
            reveal_strlit("0");
        }
        s.append("0");
        i = i + 1;
    }
    s.append(d.as_str());
    assert(s@ =~= padded(n as nat, width as nat));
    s
}

proof fn lemma_decimal_digits(n: nat)
    ensures
        forall|i: int| 0 <= i < decimal(n).len() ==> '0' <= #[trigger] decimal(n)[i] <= '9',
        n > 0 ==> decimal(n)[0] != '0',
        n < 10 ==> decimal(n).len() == 1,
    decreases n,
{
    if n >= 10 {
        lemma_decimal_value(n / 10);
        lemma_decimal_digits(n / 10);
        assert forall|i: int| 0 <= i < decimal(n).len() implies '0' <= #[trigger] decimal(n)[i]
            <= '9' by {
            if i < decimal(n / 10).len() {
                assert(decimal(n)[i] == decimal(n / 10)[i]);
            }
        }
        assert(decimal(n)[0] == decimal(n / 10)[0]);
    }
}

/// A number is written in decimal digits that have its value, with no zero in front
/// but that of the number zero itself.
pub proof fn number_reads_back(n: usize, s: String)
    requires
        call_ensures(decimal_text, (n,), s),
    ensures
        digits_value(s@) == n,
        s@.len() >= 1,
        forall|i: int| 0 <= i < s@.len() ==> '0' <= #[trigger] s@[i] <= '9',
        s@[0] == '0' ==> n == 0 && s@.len() == 1,
{
    lemma_decimal_value(n as nat);
    lemma_decimal_digits(n as nat);
}

/// Digits that a number is padded to have its value, and there are at least as many as
/// were asked for, or as many as it takes.
pub proof fn padded_has_the_value(n: nat, width: nat)
    ensures
        digits_value(padded(n, width)) == n,
        padded(n, width).len() >= width,
        padded(n, width).len() > width ==> padded(n, width) == decimal(n),
        forall|i: int|
            0 <= i < padded(n, width).len() ==> '0' <= #[trigger] padded(n, width)[i] <= '9',
{
    let d = decimal(n);
    let s = padded(n, width);
    lemma_decimal_value(n);
    lemma_decimal_digits(n);
    if d.len() < width {
        let k = (width - d.len()) as nat;
        lemma_leading_zeros(k, d);
        assert forall|i: int| 0 <= i < s.len() implies '0' <= #[trigger] s[i] <= '9' by {
            if i >= k {
                assert(s[i] == d[i - k]);
            }
        }
    }
}

/// A number below a million has at most six digits.
pub proof fn decimal_is_short(n: nat)
    requires
        n < 1000000,
    ensures
        decimal(n).len() <= 6,
{
    reveal_with_fuel(decimal, 7);
}

/// A number that is written in at least so many digits has that many, or as many as it
/// takes, and they have its value.
pub proof fn padded_number_reads_back(n: usize, width: usize, s: String)
    requires
        call_ensures(padded_text, (n, width), s),
    ensures
        digits_value(s@) == n,
        s@.len() >= width,
        s@.len() > width ==> s@ == decimal(n as nat),
        forall|i: int| 0 <= i < s@.len() ==> '0' <= #[trigger] s@[i] <= '9',
{
    padded_has_the_value(n as nat, width as nat);
}

/// A text is found in another exactly where it stands there, character by character.
pub proof fn search_finds_what_is_there(text: &str, part: &str, r: bool)
    requires
        call_ensures(contains_text, (text, part), r),
    ensures
        r <==> exists|a: Seq<char>, b: Seq<char>| #[trigger] (a + part@ + b) == text@,
{
    let t = text@;
    let p = part@;
    if r {
        let i = choose|i: int| #[trigger] holds_at(t, p, i);
        let (a, b) = (t.take(i), t.skip(i + p.len()));
        assert(a + p + b =~= t);
    }
    if exists|a: Seq<char>, b: Seq<char>| #[trigger] (a + p + b) == t {
        let (a, b) = choose|a: Seq<char>, b: Seq<char>| #[trigger] (a + p + b) == t;
        let i = a.len() as int;
        assert(t.subrange(i, i + p.len()) =~= p);
        assert(holds_at(t, p, i));
    }
}

// ── UTF-8 ──

/// `std::str::from_utf8`, as an owned text: it succeeds exactly on valid UTF-8,
/// and the text's bytes are those given.
#[verifier::external_body]
pub(crate) fn utf8_text(bytes: &[u8]) -> (r: Option<String>)
    ensures
        r is Some <==> valid_utf8(bytes@),
        r matches Some(s) ==> encode_utf8(s@) == bytes@,
{
    std::str::from_utf8(bytes).ok().map(|s| s.to_string())
}

// ── search ──

/// Does a text hold another at a position?
pub open spec fn holds_at(text: Seq<char>, part: Seq<char>, i: int) -> bool {
    0 <= i && i + part.len() <= text.len() && text.subrange(i, i + part.len()) == part
}

/// Does a text hold another?
pub open spec fn holds(text: Seq<char>, part: Seq<char>) -> bool {
    exists|i: int| #[trigger] holds_at(text, part, i)
}

/// Does a text hold another?
pub fn contains_text(text: &str, part: &str) -> (r: bool)
    ensures
        r == holds(text@, part@),
{
    let t = chars_of(text);
    let p = chars_of(part);
    let n: usize = t.len();
    let m: usize = p.len();
    let mut i: usize = 0;
    while n - i >= m
        invariant
            n == t@.len(),
            m == p@.len(),
            i <= n,
            t@ == text@,
            p@ == part@,
            forall|k: int| 0 <= k < i ==> !#[trigger] holds_at(text@, part@, k),
        decreases n - i,
    {
        let mut j: usize = 0;
        while j < m && t[i + j] == p[j]
            invariant
                i + m <= n,
                n == t@.len(),
                m == p@.len(),
                j <= m,
                t@ == text@,
                p@ == part@,
                forall|k: int| 0 <= k < j ==> t@[i + k] == p@[k],
            decreases m - j,
        {
            j = j + 1;
        }
        if j == m {
            assert(text@.subrange(i as int, i + m) =~= part@);
            assert(holds_at(text@, part@, i as int));
            return true;
        }
        assert(!holds_at(text@, part@, i as int)) by {
            if text@.subrange(i as int, i + m) == part@ {
                assert(text@.subrange(i as int, i + m)[j as int] == text@[i + j]);
            }
        }
        i = i + 1;
    }
    assert forall|k: int| !#[trigger] holds_at(text@, part@, k) by {}
    false
}

// ── little-endian integers ──

/// A 16-bit number as two bytes, lowest first.
pub open spec fn le16(n: int) -> Seq<u8> {
    seq![(n % 0x100) as u8, (n / 0x100 % 0x100) as u8]
}

/// A 32-bit number as four bytes, lowest first.
pub open spec fn le32(n: int) -> Seq<u8> {
    seq![
        (n % 0x100) as u8,
        (n / 0x100 % 0x100) as u8,
        (n / 0x1_0000 % 0x100) as u8,
        (n / 0x100_0000 % 0x100) as u8,
    ]
}

/// The number that four bytes hold, lowest first.
pub open spec fn from_le32(b: Seq<u8>) -> int {
    b[0] + 0x100 * b[1] + 0x1_0000 * b[2] + 0x100_0000 * b[3]
}

/// The number that eight bytes hold, lowest first.
pub open spec fn from_le64(b: Seq<u8>) -> int {
    from_le32(b.take(4)) + 0x1_0000_0000 * from_le32(b.skip(4))
}

/// The low 56 bits of a number in little endian.
pub open spec fn le56(n: int) -> Seq<u8> {
    le32(n % 0x1_0000_0000) + seq![
        (n / 0x1_0000_0000 % 0x100) as u8,
        (n / 0x100_0000_0000 % 0x100) as u8,
        (n / 0x1_0000_0000_0000 % 0x100) as u8,
    ]
}

/// The number that seven bytes in little endian stand for.
pub open spec fn from_le56(b: Seq<u8>) -> int {
    from_le32(b.take(4)) + 0x1_0000_0000 * b[4] + 0x100_0000_0000 * b[5] + 0x1_0000_0000_0000 * b[6]
}

/// Seven bytes give back the number that they were written for.
pub proof fn le56_round_trip(n: int)
    requires
        0 <= n < 0x100_0000_0000_0000,
    ensures
        le56(n).len() == 7,
        from_le56(le56(n)) == n,
{
    let b = le56(n);
    let low = n % 0x1_0000_0000;
    let q4 = n / 0x1_0000_0000;
    let q5 = n / 0x100_0000_0000;
    let q6 = n / 0x1_0000_0000_0000;
    le32_round_trip(low);
    assert(b.take(4) =~= le32(low));
    assert(n == 0x1_0000_0000 * q4 + low);
    assert(q4 == 0x100 * q5 + b[4]);
    assert(q5 == 0x100 * q6 + b[5]);
    assert(q6 == b[6]);
}

/// Four little-endian bytes give back the number they were made from.
pub proof fn le32_round_trip(n: int)
    requires
        0 <= n <= 0xFFFF_FFFF,
    ensures
        le32(n).len() == 4,
        from_le32(le32(n)) == n,
{
    let b = le32(n);
    let q1 = n / 0x100;
    let q2 = n / 0x1_0000;
    let q3 = n / 0x100_0000;
    assert(n == 0x100 * q1 + b[0]);
    assert(q1 == 0x100 * q2 + b[1]);
    assert(q2 == 0x100 * q3 + b[2]);
    assert(q3 == b[3]);
}

/// A number read from four little-endian bytes is written as the same bytes.
pub proof fn from_le32_round_trip(b: Seq<u8>)
    requires
        b.len() == 4,
    ensures
        0 <= from_le32(b) <= 0xFFFF_FFFF,
        le32(from_le32(b)) == b,
{
    let n = from_le32(b);
    let q1 = b[1] + 0x100 * b[2] + 0x1_0000 * b[3];
    let q2 = b[2] + 0x100 * b[3];
    assert(n == 0x100 * q1 + b[0]);
    assert(n / 0x100 == q1 && n % 0x100 == b[0]);
    assert(n == 0x1_0000 * q2 + (0x100 * b[1] + b[0]));
    assert(n / 0x1_0000 == q2);
    assert(n / 0x100_0000 == b[3]);
    assert(q1 % 0x100 == b[1]);
    assert(q2 % 0x100 == b[2]);
    assert(le32(from_le32(b)) =~= b);
}

/// Append a 16-bit number to a buffer.
pub fn push_le16(buf: &mut Vec<u8>, n: u16)
    ensures
        final(buf)@ == old(buf)@ + le16(n as int),
{
    buf.push((n % 0x100) as u8);
    buf.push((n / 0x100) as u8);
    assert(buf@ =~= old(buf)@ + le16(n as int));
}

/// Append a 32-bit number to a buffer.
pub fn push_le32(buf: &mut Vec<u8>, n: u32)
    ensures
        final(buf)@ == old(buf)@ + le32(n as int),
{
    buf.push((n % 0x100) as u8);
    buf.push((n / 0x100 % 0x100) as u8);
    buf.push((n / 0x1_0000 % 0x100) as u8);
    buf.push((n / 0x100_0000) as u8);
    assert(buf@ =~= old(buf)@ + le32(n as int));
}

/// Read a 32-bit number at a position.
pub fn get_le32(buf: &[u8], pos: usize) -> (n: u32)
    requires
        pos + 4 <= buf@.len(),
    ensures
        n == from_le32(buf@.subrange(pos as int, pos + 4)),
{
    let b0: u32 = buf[pos] as u32;
    let b1: u32 = buf[pos + 1] as u32;
    let b2: u32 = buf[pos + 2] as u32;
    let b3: u32 = buf[pos + 3] as u32;
    b0 + 0x100 * b1 + 0x1_0000 * b2 + 0x100_0000 * b3
}

/// Read a 64-bit number at a position.
pub fn get_le64(buf: &[u8], pos: usize) -> (n: u64)
    requires
        pos + 8 <= buf@.len(),
    ensures
        n == from_le64(buf@.subrange(pos as int, pos + 8)),
{
    assert(buf.len() <= usize::MAX);
    let low: u64 = get_le32(buf, pos) as u64;
    let high: u64 = get_le32(buf, pos + 4) as u64;
    proof {
        let b = buf@.subrange(pos as int, pos + 8);
        assert(b.take(4) =~= buf@.subrange(pos as int, pos + 4));
        assert(b.skip(4) =~= buf@.subrange(pos + 4, pos + 8));
    }
    low + 0x1_0000_0000 * high
}

/// The low 56 bits of a number in little endian.
pub fn put_le56(n: u64) -> (bytes: [u8; 7])
    ensures
        bytes@ == le56(n as int),
{
    let low: u32 = (n % 0x1_0000_0000) as u32;
    let bytes: [u8; 7] = [
        (low % 0x100) as u8,
        (low / 0x100 % 0x100) as u8,
        (low / 0x1_0000 % 0x100) as u8,
        (low / 0x100_0000) as u8,
        (n / 0x1_0000_0000 % 0x100) as u8,
        (n / 0x100_0000_0000 % 0x100) as u8,
        (n / 0x1_0000_0000_0000 % 0x100) as u8,
    ];
    assert(bytes@ =~= le56(n as int));
    bytes
}

/// Read the 56-bit number at the front of the bytes.
pub fn get_le56(buf: &[u8]) -> (n: u64)
    requires
        buf@.len() >= 7,
    ensures
        n == from_le56(buf@.take(7)),
        n < 0x100_0000_0000_0000,
{
    let low: u64 = get_le32(buf, 0) as u64;
    let b4: u64 = buf[4] as u64;
    let b5: u64 = buf[5] as u64;
    let b6: u64 = buf[6] as u64;
    assert(buf@.take(7).take(4) =~= buf@.subrange(0, 4));
    low + 0x1_0000_0000 * b4 + 0x100_0000_0000 * b5 + 0x1_0000_0000_0000 * b6
}

// ── numbers in bytes ──

/// Numbers are written with the lowest byte first, behind what was there.
pub proof fn numbers_are_appended_lowest_first(
    a: &mut Vec<u8>,
    short: u16,
    b: &mut Vec<u8>,
    long: u32,
)
    requires
        call_ensures(push_le16, (a, short), ()),
        call_ensures(push_le32, (b, long), ()),
    ensures
        final(a)@.len() == old(a)@.len() + 2,
        final(a)@.take(old(a)@.len() as int) == old(a)@,
        ({
            let (x, n) = (final(a)@, old(a)@.len() as int);
            x[n] + 256 * x[n + 1] == short
        }),
        final(b)@.len() == old(b)@.len() + 4,
        final(b)@.take(old(b)@.len() as int) == old(b)@,
        ({
            let (x, n) = (final(b)@, old(b)@.len() as int);
            x[n] + 256 * x[n + 1] + 65536 * x[n + 2] + 16777216 * x[n + 3] == long
        }),
{
    assert(final(a)@.take(old(a)@.len() as int) =~= old(a)@);
    assert(final(b)@.take(old(b)@.len() as int) =~= old(b)@);
    le32_round_trip(long as int);
}

/// Numbers are read with the lowest byte first, from where they stand.
pub proof fn numbers_are_read_lowest_first(
    buf: &[u8],
    pos: usize,
    short: u32,
    long: u64,
)
    requires
        pos + 8 <= buf@.len(),
        call_ensures(get_le32, (buf, pos), short),
        call_ensures(get_le64, (buf, pos), long),
    ensures
        ({
            let (x, p) = (buf@, pos as int);
            &&& short == x[p] + 0x100 * x[p + 1] + 0x1_0000 * x[p + 2] + 0x100_0000 * x[p + 3]
            &&& long == x[p] + 0x100 * x[p + 1] + 0x1_0000 * x[p + 2] + 0x100_0000 * x[p + 3]
                + 0x1_0000_0000 * (x[p + 4] + 0x100 * x[p + 5] + 0x1_0000 * x[p + 6] + 0x100_0000
                * x[p + 7])
        }),
{
    let b = buf@.subrange(pos as int, pos + 8);
    assert(b.take(4)[0] == buf@[pos as int] && b.take(4)[1] == buf@[pos + 1] && b.take(4)[2]
        == buf@[pos + 2] && b.take(4)[3] == buf@[pos + 3]);
    assert(b.skip(4)[0] == buf@[pos + 4] && b.skip(4)[1] == buf@[pos + 5] && b.skip(4)[2]
        == buf@[pos + 6] && b.skip(4)[3] == buf@[pos + 7]);
}

/// A number below 2^56 is given back by the seven bytes that it was put into.
pub proof fn seven_bytes_give_the_number_back(n: u64, bytes: [u8; 7], buf: &[u8], m: u64)
    requires
        n < 0x100_0000_0000_0000,
        call_ensures(put_le56, (n,), bytes),
        buf@ == bytes@,
        call_ensures(get_le56, (buf,), m),
    ensures
        m == n,
        n == bytes@[0] + 0x100 * bytes@[1] + 0x1_0000 * bytes@[2] + 0x100_0000 * bytes@[3]
            + 0x1_0000_0000 * bytes@[4] + 0x100_0000_0000 * bytes@[5] + 0x1_0000_0000_0000
            * bytes@[6],
{
    le56_round_trip(n as int);
    assert(bytes@.take(7) =~= bytes@);
}

} // verus!
