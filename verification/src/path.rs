//! Relative paths inside a folder: text with `/` between the components.

use vstd::prelude::*;
use vstd::utf8::{char_is_scalar, encode_scalar, encode_utf8, encode_utf8_decode_utf8};

use crate::text::{
    chars_of, decimal_is_short, digits_value, padded, padded_has_the_value, padded_is_injective,
    padded_text,
};

verus! {

/// Visible name of the vault file inside the folder.
pub const VAULT_FILE: &'static str = ".flockvault";

/// The temporary file in the folder: a vault is written there before it takes its
/// place, and so is each file that is restored.
pub const TEMP_FILE: &'static str = ".flockvault.tmp";

/// Host file that carries ADS streams in simple mode.
pub const HOST_FILE: &'static str = ".flockhost";

/// Hidden container directory that holds relocated files in move-lock mode.
pub const DATA_DIR: &'static str = ".flockdata";

/// State-journal file: records the direction of an operation in progress, so
/// that an interrupted run can be resumed. It holds no secrets.
pub const STATE_FILE: &'static str = ".flockstate";

// ── names that are never packed ──

/// An ASCII letter in lower case; any other character as it is.
pub open spec fn ascii_lower(c: char) -> char {
    if 'A' <= c <= 'Z' {
        (c as u32 + 32) as char
    } else {
        c
    }
}

/// A text with its ASCII letters in lower case.
pub open spec fn lower(s: Seq<char>) -> Seq<char> {
    s.map_values(|c: char| ascii_lower(c))
}

/// Does the text end in the given one?
pub open spec fn ends_with(s: Seq<char>, end: Seq<char>) -> bool {
    s.len() >= end.len() && s.skip(s.len() - end.len()) == end
}

/// The names that are never packed: the vault, the temporary file, the host file,
/// the container, the journal, the folder's icon file, and programs.
pub open spec fn protected(name: Seq<char>) -> bool {
    let l = lower(name);
    ||| l == VAULT_FILE@
    ||| l == TEMP_FILE@
    ||| l == HOST_FILE@
    ||| l == DATA_DIR@
    ||| l == STATE_FILE@
    ||| l == "desktop.ini"@
    ||| ends_with(l, ".exe"@)
}

fn lowers_to(c: char, l: char) -> (r: bool)
    ensures
        r == (ascii_lower(c) == l),
{
    if 'A' <= c && c <= 'Z' {
        l as u32 == c as u32 + 32
    } else {
        c == l
    }
}

fn tail_lowers_to(name: &Vec<char>, from: usize, text: &str) -> (r: bool)
    requires
        from <= name@.len(),
    ensures
        r == (lower(name@).skip(from as int) == text@),
{
    let want = chars_of(text);
    if name.len() - from != want.len() {
        assert(lower(name@).skip(from as int).len() != text@.len());
        return false;
    }
    let mut i: usize = 0;
    while i < want.len()
        invariant
            i <= want@.len(),
            from + want@.len() == name@.len() <= usize::MAX,
            want@ == text@,
            forall|j: int| 0 <= j < i ==> lower(name@).skip(from as int)[j] == want@[j],
        decreases want.len() - i,
    {
        if !lowers_to(name[from + i], want[i]) {
            assert(lower(name@).skip(from as int)[i as int] != text@[i as int]);
            return false;
        }
        i = i + 1;
    }
    assert(lower(name@).skip(from as int) =~= text@);
    true
}

/// Names that must never be packed (the tool itself, vault, host, container).
pub fn is_protected_name(file_name: &str) -> (r: bool)
    ensures
        r == protected(file_name@),
{
    let name = chars_of(file_name);
    let n: usize = name.len();
    proof {
        reveal_strlit(".exe");
        assert(lower(name@).skip(0) =~= lower(name@));
    }
    tail_lowers_to(&name, 0, VAULT_FILE) || tail_lowers_to(&name, 0, TEMP_FILE)
        || tail_lowers_to(&name, 0, HOST_FILE) || tail_lowers_to(&name, 0, DATA_DIR)
        || tail_lowers_to(&name, 0, STATE_FILE) || tail_lowers_to(&name, 0, "desktop.ini") || (n
        >= 4 && tail_lowers_to(&name, n - 4, ".exe"))
}

/// Every file that the library itself keeps in a folder has a protected name, in
/// whatever case it is written.
pub proof fn own_files_are_protected(name: Seq<char>)
    requires
        lower(name) == lower(VAULT_FILE@) || lower(name) == lower(TEMP_FILE@) || lower(
            name,
        ) == lower(HOST_FILE@) || lower(name) == lower(DATA_DIR@) || lower(name) == lower(
            STATE_FILE@,
        ),
    ensures
        protected(name),
{
    reveal_strlit(".flockvault");
    reveal_strlit(".flockvault.tmp");
    reveal_strlit(".flockhost");
    reveal_strlit(".flockdata");
    reveal_strlit(".flockstate");
    assert(lower(VAULT_FILE@) =~= VAULT_FILE@);
    assert(lower(TEMP_FILE@) =~= TEMP_FILE@);
    assert(lower(HOST_FILE@) =~= HOST_FILE@);
    assert(lower(DATA_DIR@) =~= DATA_DIR@);
    assert(lower(STATE_FILE@) =~= STATE_FILE@);
}

/// Is this character the given one, or the capital of it where it is a small letter?
pub open spec fn same_letter(c: char, small: char) -> bool {
    c == small || ('a' <= small <= 'z' && c as int + 32 == small as int)
}

/// Does a text read like a word of small letters, in whatever case it is written?
pub open spec fn reads_as(text: Seq<char>, word: Seq<char>) -> bool {
    text.len() == word.len() && forall|i: int|
        0 <= i < word.len() ==> same_letter(#[trigger] text[i], word[i])
}

/// The names that a folder keeps for itself, whatever the case: `.flockvault`,
/// `.flockvault.tmp`, `.flockhost`, `.flockdata`, `.flockstate`, `desktop.ini`, and
/// those that end in `.exe`.
pub open spec fn kept_name(name: Seq<char>) -> bool {
    ||| reads_as(name, ".flockvault"@)
    ||| reads_as(name, ".flockvault.tmp"@)
    ||| reads_as(name, ".flockhost"@)
    ||| reads_as(name, ".flockdata"@)
    ||| reads_as(name, ".flockstate"@)
    ||| reads_as(name, "desktop.ini"@)
    ||| name.len() >= 4 && reads_as(name.skip(name.len() - 4), ".exe"@)
}

proof fn lemma_reads_as(text: Seq<char>, word: Seq<char>)
    requires
        forall|i: int| 0 <= i < word.len() ==> !('A' <= #[trigger] word[i] <= 'Z'),
    ensures
        reads_as(text, word) <==> lower(text) == word,
{
    if reads_as(text, word) {
        assert forall|i: int| 0 <= i < word.len() implies lower(text)[i] == word[i] by {
            assert(same_letter(text[i], word[i]));
        }
        assert(lower(text) =~= word);
    }
    if lower(text) == word {
        assert forall|i: int| 0 <= i < word.len() implies same_letter(
            #[trigger] text[i],
            word[i],
        ) by {
            assert(lower(text)[i] == ascii_lower(text[i]));
        }
    }
}

/// The protected names are the names that a folder keeps for itself and no others.
pub proof fn protected_names_are_the_kept_ones(name: Seq<char>)
    ensures
        protected(name) <==> kept_name(name),
{
    reveal_strlit(".flockvault");
    reveal_strlit(".flockvault.tmp");
    reveal_strlit(".flockhost");
    reveal_strlit(".flockdata");
    reveal_strlit(".flockstate");
    reveal_strlit("desktop.ini");
    reveal_strlit(".exe");
    lemma_reads_as(name, ".flockvault"@);
    lemma_reads_as(name, ".flockvault.tmp"@);
    lemma_reads_as(name, ".flockhost"@);
    lemma_reads_as(name, ".flockdata"@);
    lemma_reads_as(name, ".flockstate"@);
    lemma_reads_as(name, "desktop.ini"@);
    if name.len() >= 4 {
        lemma_reads_as(name.skip(name.len() - 4), ".exe"@);
        assert(lower(name.skip(name.len() - 4)) =~= lower(name).skip(name.len() - 4));
    }
}

/// A name is found protected exactly where the folder keeps it for itself: any other
/// file is one to lock.
pub proof fn only_kept_names_are_found_protected(name: &str, r: bool)
    requires
        call_ensures(is_protected_name, (name,), r),
    ensures
        r <==> kept_name(name@),
{
    protected_names_are_the_kept_ones(name@);
}

// ── paths that may be restored ──

/// Does a `..` component stand at a position?
pub open spec fn climbs_at(rel: Seq<char>, i: int) -> bool {
    &&& 0 <= i
    &&& i + 2 <= rel.len()
    &&& rel[i] == '.'
    &&& rel[i + 1] == '.'
    &&& i == 0 || rel[i - 1] == '/'
    &&& i + 2 == rel.len() || rel[i + 2] == '/'
}

/// A relative path that cannot leave the folder: no `..` component, no leading
/// separator and no backslash.
pub open spec fn safe_path(rel: Seq<char>) -> bool {
    &&& forall|i: int| !#[trigger] climbs_at(rel, i)
    &&& !(rel.len() > 0 && rel[0] == '/')
    &&& !rel.contains('\\')
}

/// Is this a path that cannot leave the folder?
pub fn is_safe_path(rel: &str) -> (r: bool)
    ensures
        r == safe_path(rel@),
{
    let s = chars_of(rel);
    let n: usize = s.len();
    if n > 0 && s[0] == '/' {
        return false;
    }
    let mut i: usize = 0;
    while i < n
        invariant
            n == s@.len(),
            i <= n,
            s@ == rel@,
            !(n > 0 && s@[0] == '/'),
            forall|j: int| 0 <= j < i ==> !#[trigger] climbs_at(s@, j),
            forall|j: int| 0 <= j < i ==> s@[j] != '\\',
        decreases n - i,
    {
        if s[i] == '\\' {
            assert(rel@.contains(rel@[i as int]));
            return false;
        }
        if n - i >= 2 && s[i] == '.' && s[i + 1] == '.' && (i == 0 || s[i - 1] == '/') && (n - i
            == 2 || s[i + 2] == '/') {
            assert(climbs_at(s@, i as int));
            return false;
        }
        i = i + 1;
    }
    true
}

/// A name that stays inside the container.
pub open spec fn safe_name(name: Seq<char>) -> bool {
    !name.contains('/') && !name.contains('\\') && name != ".."@
}

/// Is this a name that stays inside the container?
pub fn is_safe_name(name: &str) -> (r: bool)
    ensures
        r == safe_name(name@),
{
    let s = chars_of(name);
    let n: usize = s.len();
    let mut i: usize = 0;
    while i < n
        invariant
            n == s@.len(),
            i <= n,
            s@ == name@,
            forall|j: int| 0 <= j < i ==> s@[j] != '/' && s@[j] != '\\',
        decreases n - i,
    {
        if s[i] == '/' || s[i] == '\\' {
            assert(name@.contains(name@[i as int]));
            return false;
        }
        i = i + 1;
    }
    proof {
        reveal_strlit("..");
        if n == 2 && s@[0] == '.' && s@[1] == '.' {
            assert(name@ =~= ".."@);
        }
    }
    !(n == 2 && s[0] == '.' && s[1] == '.')
}

// ── names inside the container or on the host file ──

/// The name that the file at an index is stored under.
pub open spec fn stored_name(i: nat) -> Seq<char> {
    "fl_"@ + padded(i, 6)
}

/// Write the name that the file at an index is stored under.
pub fn stored_name_text(i: usize) -> (s: String)
    ensures
        s@ == stored_name(i as nat),
{
    String::from_str("fl_").concat(padded_text(i, 6).as_str())
}

/// Files at different indices are stored under different names.
pub proof fn stored_names_differ(a: nat, b: nat)
    requires
        stored_name(a) == stored_name(b),
    ensures
        a == b,
{
    assert(stored_name(a).skip("fl_"@.len() as int) =~= padded(a, 6));
    assert(stored_name(b).skip("fl_"@.len() as int) =~= padded(b, 6));
    padded_is_injective(a, b, 6);
}

// ── trees of paths ──

/// Is the first path a directory above the second?
pub open spec fn is_ancestor(dir: Seq<char>, rel: Seq<char>) -> bool {
    dir.len() < rel.len() && rel[dir.len() as int] == '/' && rel.take(dir.len() as int) == dir
}

/// The path of an entry of a directory; the folder itself is the empty path.
pub open spec fn child_path(dir: Seq<char>, name: Seq<char>) -> Seq<char> {
    if dir.len() == 0 {
        name
    } else {
        dir + "/"@ + name
    }
}

/// Write the path of an entry of a directory.
pub fn rel_path(dir: &str, name: &str) -> (s: String)
    ensures
        s@ == child_path(dir@, name@),
{
    if dir.is_empty() {
        String::from_str(name)
    } else {
        String::from_str(dir).concat("/").concat(name)
    }
}

// ── order ──

/// The rank of a byte in the order of paths: a separator comes before anything
/// else, so that paths are ordered component by component.
pub open spec fn rank(b: u8) -> int {
    if b == 47 {
        0
    } else {
        b + 1
    }
}

/// The order of paths on their UTF-8 bytes.
pub open spec fn bytes_le(a: Seq<u8>, b: Seq<u8>) -> bool
    decreases a.len(),
{
    if a.len() == 0 {
        true
    } else if b.len() == 0 {
        false
    } else if a[0] != b[0] {
        rank(a[0]) < rank(b[0])
    } else {
        bytes_le(a.drop_first(), b.drop_first())
    }
}

/// Does the first path come before the second, or are they the same?
pub open spec fn path_le(a: Seq<char>, b: Seq<char>) -> bool {
    bytes_le(encode_utf8(a), encode_utf8(b))
}

proof fn lemma_bytes_le_total(a: Seq<u8>, b: Seq<u8>)
    ensures
        bytes_le(a, b) || bytes_le(b, a),
    decreases a.len(),
{
    if a.len() > 0 && b.len() > 0 && a[0] == b[0] {
        lemma_bytes_le_total(a.drop_first(), b.drop_first());
    }
}

proof fn lemma_bytes_le_transitive(a: Seq<u8>, b: Seq<u8>, c: Seq<u8>)
    requires
        bytes_le(a, b),
        bytes_le(b, c),
    ensures
        bytes_le(a, c),
    decreases a.len(),
{
    if a.len() > 0 && b.len() > 0 && c.len() > 0 && a[0] == b[0] && b[0] == c[0] {
        lemma_bytes_le_transitive(a.drop_first(), b.drop_first(), c.drop_first());
    }
}

proof fn lemma_bytes_longer(a: Seq<u8>, b: Seq<u8>)
    requires
        b.len() > 0,
    ensures
        !bytes_le(a + b, a),
    decreases a.len(),
{
    if a.len() > 0 {
        lemma_bytes_longer(a.drop_first(), b);
        assert((a + b).drop_first() =~= a.drop_first() + b);
    } else {
        assert(a + b =~= b);
    }
}

proof fn lemma_encode_concat(a: Seq<char>, b: Seq<char>)
    ensures
        encode_utf8(a + b) == encode_utf8(a) + encode_utf8(b),
    decreases a.len(),
{
    if a.len() == 0 {
        assert(a + b =~= b);
        assert(encode_utf8(a) =~= Seq::empty());
        assert(encode_utf8(a) + encode_utf8(b) =~= encode_utf8(b));
    } else {
        lemma_encode_concat(a.drop_first(), b);
        assert((a + b).drop_first() =~= a.drop_first() + b);
        assert(encode_utf8(a + b) =~= encode_utf8(a) + encode_utf8(b));
    }
}

/// Of two paths one comes before the other, or they are the same.
pub proof fn path_le_is_total(a: Seq<char>, b: Seq<char>)
    ensures
        path_le(a, b) || path_le(b, a),
{
    lemma_bytes_le_total(encode_utf8(a), encode_utf8(b));
}

/// The order of paths is transitive.
pub proof fn path_le_is_transitive(a: Seq<char>, b: Seq<char>, c: Seq<char>)
    requires
        path_le(a, b),
        path_le(b, c),
    ensures
        path_le(a, c),
{
    lemma_bytes_le_transitive(encode_utf8(a), encode_utf8(b), encode_utf8(c));
}

proof fn lemma_bytes_le_antisymmetric(a: Seq<u8>, b: Seq<u8>)
    requires
        bytes_le(a, b),
        bytes_le(b, a),
    ensures
        a == b,
    decreases a.len(),
{
    if a.len() > 0 && b.len() > 0 {
        lemma_bytes_le_antisymmetric(a.drop_first(), b.drop_first());
        assert(a =~= seq![a[0]] + a.drop_first());
        assert(b =~= seq![b[0]] + b.drop_first());
    } else {
        assert(a =~= b);
    }
}

/// Two paths that come before each other are the same.
pub proof fn path_le_is_antisymmetric(a: Seq<char>, b: Seq<char>)
    requires
        path_le(a, b),
        path_le(b, a),
    ensures
        a == b,
{
    lemma_bytes_le_antisymmetric(encode_utf8(a), encode_utf8(b));
    encode_utf8_decode_utf8(a);
    encode_utf8_decode_utf8(b);
}

/// A directory never comes after what it holds.
pub proof fn ancestor_comes_first(dir: Seq<char>, rel: Seq<char>)
    requires
        is_ancestor(dir, rel),
    ensures
        !path_le(rel, dir),
{
    let tail = rel.skip(dir.len() as int);
    assert(rel =~= dir + tail);
    lemma_encode_concat(dir, tail);
    assert(encode_utf8(tail).len() > 0) by {
        assert(tail.len() > 0);
        assert(encode_utf8(tail) == encode_scalar(tail[0] as u32) + encode_utf8(tail.drop_first()));
        char_is_scalar(tail[0]);
    }
    lemma_bytes_longer(encode_utf8(dir), encode_utf8(tail));
}

/// Is the list in the order of paths?
pub open spec fn in_path_order(list: Seq<Seq<char>>) -> bool {
    forall|i: int, j: int| 0 <= i <= j < list.len() ==> path_le(#[trigger] list[i], #[trigger] list[j])
}

/// The texts of a list of strings.
pub open spec fn texts(list: Seq<String>) -> Seq<Seq<char>> {
    list.map_values(|s: String| s@)
}

/// Does the first path come before the second, or are they the same?
pub(crate) fn comes_before(a: &str, b: &str) -> (r: bool)
    ensures
        r == path_le(a@, b@),
{
    let x = a.as_bytes();
    let y = b.as_bytes();
    let mut i: usize = 0;
    proof {
        assert(x@.skip(0) =~= x@);
        assert(y@.skip(0) =~= y@);
    }
    while i < x.len() && i < y.len() && x[i] == y[i]
        invariant
            i <= x@.len(),
            i <= y@.len(),
            bytes_le(x@, y@) == bytes_le(x@.skip(i as int), y@.skip(i as int)),
        decreases x.len() - i,
    {
        proof {
            assert(x@.skip(i as int).drop_first() =~= x@.skip(i + 1));
            assert(y@.skip(i as int).drop_first() =~= y@.skip(i + 1));
        }
        i = i + 1;
    }
    if i == x.len() {
        true
    } else if i == y.len() {
        false
    } else if x[i] == 47 {
        true
    } else if y[i] == 47 {
        false
    } else {
        x[i] < y[i]
    }
}

// ── what the functions on paths say ──

/// Does a path climb between these parts: is it the one, two dots and the other, with a
/// slash or nothing on either side of the dots?
pub open spec fn climbs_between(rel: Seq<char>, a: Seq<char>, b: Seq<char>) -> bool {
    &&& rel == a + seq!['.', '.'] + b
    &&& a.len() == 0 || a.last() == '/'
    &&& b.len() == 0 || b[0] == '/'
}

/// A path is safe exactly where it does not begin with a slash, holds no backslash and
/// has no component of two dots.
pub proof fn safe_paths_stay_inside(rel: &str, r: bool)
    requires
        call_ensures(is_safe_path, (rel,), r),
    ensures
        !r <==> {
            ||| rel@.len() > 0 && rel@[0] == '/'
            ||| exists|i: int| 0 <= i < rel@.len() && #[trigger] rel@[i] == '\\'
            ||| exists|a: Seq<char>, b: Seq<char>| #[trigger] climbs_between(rel@, a, b)
        },
{
    let s = rel@;
    if exists|i: int| #[trigger] climbs_at(s, i) {
        let i = choose|i: int| #[trigger] climbs_at(s, i);
        assert(s =~= s.take(i) + seq!['.', '.'] + s.skip(i + 2));
        assert(climbs_between(s, s.take(i), s.skip(i + 2)));
    }
    if exists|a: Seq<char>, b: Seq<char>| #[trigger] climbs_between(s, a, b) {
        let (a, b) = choose|a: Seq<char>, b: Seq<char>| #[trigger] climbs_between(s, a, b);
        let i = a.len() as int;
        assert(s[i] == '.' && s[i + 1] == '.');
        if i > 0 {
            assert(s[i - 1] == a.last());
        }
        if b.len() > 0 {
            assert(s[i + 2] == b[0]);
        }
        assert(climbs_at(s, i));
    }
    if s.contains('\\') {
        assert(s[s.index_of('\\')] == '\\');
    }
}

/// A name is safe exactly where it holds neither a slash nor a backslash and is not two
/// dots.
pub proof fn safe_names_stay_inside(name: &str, r: bool)
    requires
        call_ensures(is_safe_name, (name,), r),
    ensures
        !r <==> {
            ||| exists|i: int|
                0 <= i < name@.len() && (#[trigger] name@[i] == '/' || name@[i] == '\\')
            ||| name@ == seq!['.', '.']
        },
{
    reveal_strlit("..");
    assert(".."@ =~= seq!['.', '.']);
    if name@.contains('/') {
        assert(name@[name@.index_of('/')] == '/');
    }
    if name@.contains('\\') {
        assert(name@[name@.index_of('\\')] == '\\');
    }
}

/// The path of an entry is its name in the folder itself, and below a directory the
/// directory, a slash and the name.
pub proof fn entry_path_is_joined(dir: &str, name: &str, s: String)
    requires
        call_ensures(rel_path, (dir, name), s),
    ensures
        dir@.len() == 0 ==> s@ == name@,
        dir@.len() > 0 ==> s@ == dir@ + seq!['/'] + name@,
{
    reveal_strlit("/");
    assert("/"@ =~= seq!['/']);
}

/// A file is stored under `fl_` and its index in six digits, or in as many as it takes.
pub proof fn stored_name_has_the_index(i: usize, s: String)
    requires
        call_ensures(stored_name_text, (i,), s),
    ensures
        s@.len() >= 9,
        s@.take(3) == seq!['f', 'l', '_'],
        digits_value(s@.skip(3)) == i,
        i < 1000000 ==> s@.len() == 9,
        is_safe_stored(s@),
{
    reveal_strlit("fl_");
    let d = padded(i as nat, 6);
    assert(s@.take(3) =~= seq!['f', 'l', '_']);
    assert(s@.skip(3) =~= d);
    padded_has_the_value(i as nat, 6);
    if i < 1000000 {
        decimal_is_short(i as nat);
    }
    assert forall|k: int| 0 <= k < s@.len() implies #[trigger] s@[k] != '/' && s@[k]
        != '\\' by {
        if k >= 3 {
            assert(s@[k] == d[k - 3]);
        }
    }
}

/// Does a name hold no separator?
pub open spec fn is_safe_stored(name: Seq<char>) -> bool {
    forall|k: int| 0 <= k < name.len() ==> #[trigger] name[k] != '/' && name[k] != '\\'
}

/// Paths are ordered by the first byte in which they differ, with a slash before
/// anything else, and a path comes before all that it is the front of.
pub proof fn first_difference_decides(
    front: Seq<u8>,
    x: u8,
    y: u8,
    a: Seq<u8>,
    b: Seq<u8>,
)
    requires
        x != y,
    ensures
        bytes_le(front + seq![x] + a, front + seq![y] + b) <==> x == 47 || (y != 47 && x < y),
        bytes_le(front, front + a),
        bytes_le(front + a, front) <==> a.len() == 0,
    decreases front.len(),
{
    let p = front + seq![x] + a;
    let q = front + seq![y] + b;
    if front.len() == 0 {
        assert(p[0] == x && q[0] == y);
        assert(front + a =~= a);
        lemma_prefix(a);
    } else {
        let rest = front.drop_first();
        first_difference_decides(rest, x, y, a, b);
        assert(p.drop_first() =~= rest + seq![x] + a);
        assert(q.drop_first() =~= rest + seq![y] + b);
        assert((front + a).drop_first() =~= rest + a);
        assert((front + a)[0] == front[0]);
    }
}

proof fn lemma_prefix(a: Seq<u8>)
    ensures
        bytes_le(Seq::empty(), a),
        bytes_le(a, Seq::empty()) <==> a.len() == 0,
{
}

} // verus!
