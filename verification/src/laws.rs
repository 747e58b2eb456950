//! The laws of locking and unlocking a folder.

use vstd::prelude::*;
use vstd::utf8::{encode_utf8, is_ascii_chars, is_ascii_chars_encode_utf8};

use crate::clearing::{clearing_leaves_only_pins, sorting_keeps_listing};
use crate::crypto::open_error;
use crate::disk::{
    content, gets_to, has_dir, has_file, lemma_do, lemma_one, lemma_then, lists, part_of,
    part_with_pins, perform, pins_hold, pins_only, rooted, run, running, store_of, stored_content,
    stores, with_store, with_tree, Disk, Tree, World,
};
use crate::job::{after, initial, loss_message, Action, Answer, Part, State, Step, Store, Task};
use crate::manifest::{
    manifest_round_trip, manifest_says, version_of, versioned_manifest, writable, Entry, Magic,
    Reading,
};
use crate::path::{safe_name, safe_path, stored_name, stored_names_differ};
use crate::restoring::{
    came_back, dirs_are_added, dirs_there, fits, lemma_dirs_underway, lemma_store_after,
    lemma_tree_after_dirs, lemma_tree_after_file, losses, names_tree, no_temporary_is_left, restored,
    stored_entries, survives, survivors, tree_after, underway, unlockable,
    unlocking_restores_survivors, with_dirs,
};
use crate::storing::{
    available, distinct, kept, locking_stores_every_file, midway, stashed, stashed_files_are_stored,
};
use crate::streaming::{
    as_streams, begins_with, draft_after, left_of, lemma_as_streams, lemma_draft_grows, lemma_file_has_place,
    lemma_opening_files, openable,
    opened, opening, opening_restores_every_file, plain_entries, reads_in_turn, reads_next, sealable,
    sealing_appends_streams, seals_well, streams_read_in_turn, with_draft,
};
use crate::stream::{
    joined, numbered_blob, numbered_blob_has_number, open_stream, read_through, stream_holds,
};
use crate::text::{decimal, from_le32, le16, le32, le32_round_trip, le56, padded};
use crate::vault::{
    begin_stream_vault, dir_entry, file_entry, files_among, is_lock_plan, lock_entries,
    lock_manifest, lock_plan, mode_byte, mode_magic, mode_of, named_pairs, number_due, numbering,
    numbers_from, open_entries, open_entry, open_manifest, report, resume_plan, salt_of, seal_files,
    seals, sorted_listing, store_files, stored_pairs, stream_number, stream_numbers_differ,
    unlock_entries, unlock_plan, write_vault, LockMode, Pair, PendingOp, MODE_FULL_STREAM,
};
use crate::walk::Listed;

verus! {

// ── folders that can be locked ──

/// A folder with its listing, in which everything stands in directories that are
/// there, and whose paths and number of entries fit the fields of a manifest. A
/// path that would lead out of the folder, or holds a backslash, cannot be unlocked
/// again.
pub open spec fn lockable(tree: Tree, pinned: Set<Seq<char>>, l: Listed) -> bool {
    &&& lists(l, tree)
    &&& rooted(tree)
    &&& pins_hold(tree, pinned)
    &&& tree.dom().finite()
    &&& forall|p: Seq<char>| #[trigger]
        tree.contains_key(p) ==> safe_path(p) && encode_utf8(p).len() <= 0xFFFF_FFFF
    &&& l.dirs.len() + l.files.len() <= 0xFFFF_FFFF
}

/// A world in which every folder can be listed, and every stream is read back.
pub open spec fn works(w: World) -> bool {
    &&& forall|t: Tree| t.dom().finite() ==> lists(#[trigger] (w.list)(t), t)
    &&& seals_well(w)
}

/// Where the contents go in a mode that does not encrypt them.
pub open spec fn mode_store(mode: LockMode) -> Store {
    match mode {
        LockMode::Simple => Store::Streams,
        _ => Store::Container,
    }
}

/// The contents of the files of a tree.
pub open spec fn contents_of(tree: Tree, files: Seq<Seq<char>>) -> Seq<Seq<u8>> {
    Seq::new(files.len(), |i: int| content(tree, files[i]))
}

// ── manifests of folders ──

/// Ten to a power.
pub open spec fn tens(k: nat) -> nat
    decreases k,
{
    if k == 0 {
        1
    } else {
        10 * tens((k - 1) as nat)
    }
}

proof fn lemma_decimal_shape(n: nat, k: nat)
    requires
        n < tens(k),
        k >= 1,
    ensures
        1 <= decimal(n).len() <= k,
        forall|i: int| 0 <= i < decimal(n).len() ==> '0' <= #[trigger] decimal(n)[i] <= '9',
    decreases k,
{
    reveal_with_fuel(tens, 2);
    if n >= 10 {
        lemma_decimal_shape(n / 10, (k - 1) as nat);
        assert forall|i: int| 0 <= i < decimal(n).len() implies '0' <= #[trigger] decimal(n)[i]
            <= '9' by {
            if i < decimal(n / 10).len() {
                assert(decimal(n)[i] == decimal(n / 10)[i]);
            }
        }
    }
}

proof fn lemma_stored_name(i: nat)
    requires
        i <= 0xFFFF_FFFF,
    ensures
        safe_name(stored_name(i)),
        encode_utf8(stored_name(i)).len() <= 0xFFFF_FFFF,
{
    reveal_with_fuel(tens, 11);
    assert(tens(10) == 10_000_000_000) by {
        reveal_with_fuel(tens, 11);
    }
    lemma_decimal_shape(i, 10);
    reveal_strlit("fl_");
    reveal_strlit("..");
    let name = stored_name(i);
    let p = padded(i, 6);
    assert forall|j: int| 0 <= j < p.len() implies '0' <= #[trigger] p[j] <= '9' by {
        let d = decimal(i);
        if d.len() < 6 {
            if j >= 6 - d.len() {
                assert(p[j] == d[j - (6 - d.len())]);
            }
        }
    }
    assert forall|j: int| 0 <= j < name.len() implies #[trigger] name[j] != '/' && name[j] != '\\'
        && name[j] as nat <= 127 by {
        if j >= 3 {
            assert(name[j] == p[j - 3]);
        }
    }
    assert(name[0] == 'f');
    assert(is_ascii_chars(name));
    is_ascii_chars_encode_utf8(name);
}

proof fn lemma_sorted(tree: Tree, pinned: Set<Seq<char>>, l: Listed)
    requires
        lockable(tree, pinned, l),
    ensures
        ({
            let s = sorted_listing(l);
            &&& lists(s, tree)
            &&& s.dirs.len() == l.dirs.len()
            &&& s.files.len() == l.files.len()
            &&& names_tree(tree, s.dirs, stored_pairs(s.files))
        }),
{
    let s = sorted_listing(l);
    let pairs = stored_pairs(s.files);
    sorting_keeps_listing(l.dirs);
    sorting_keeps_listing(l.files);
    assert(distinct(pairs)) by {
        assert forall|i: int, j: int|
            #![trigger pairs[i], pairs[j]]
            0 <= i < pairs.len() && 0 <= j < pairs.len() && i != j implies pairs[i].0 != pairs[j].0
            && pairs[i].1 != pairs[j].1 by {
            if pairs[i].1 == pairs[j].1 {
                stored_names_differ(i as nat, j as nat);
            }
        }
    }
    assert forall|i: int| 0 <= i < s.dirs.len() implies has_dir(tree, #[trigger] s.dirs[i]) by {
        assert(s.dirs.contains(s.dirs[i]));
    }
    assert forall|i: int| 0 <= i < pairs.len() implies has_file(tree, (#[trigger] pairs[i]).0) by {
        assert(s.files.contains(s.files[i]));
    }
    assert forall|p: Seq<char>| #[trigger] has_dir(tree, p) implies s.dirs.contains(p) by {
        assert(l.dirs.contains(p));
    }
    assert forall|p: Seq<char>| #[trigger] has_file(tree, p) implies exists|i: int|
        0 <= i < pairs.len() && #[trigger] pairs[i].0 == p by {
        assert(l.files.contains(p));
        assert(s.files.contains(p));
        let i = s.files.index_of(p);
        assert(pairs[i].0 == p);
    }
}

/// How a manifest of a mode is read.
pub open spec fn reads_mode(mode: LockMode, reading: Reading) -> bool {
    match mode {
        LockMode::Full => reading == Reading::Meta,
        LockMode::Simple => reading == Reading::Streams || reading == Reading::Resume,
        LockMode::Move => reading == Reading::Container || reading == Reading::Resume,
    }
}

/// The manifest of a folder reads back as its directories and files.
pub proof fn folder_manifest_round_trip(
    mode: LockMode,
    reading: Reading,
    tree: Tree,
    pinned: Set<Seq<char>>,
    l: Listed,
)
    requires
        lockable(tree, pinned, l),
        reads_mode(mode, reading),
    ensures
        manifest_says(mode_magic(mode), reading, lock_manifest(mode, sorted_listing(l))) == (
            lock_entries(mode, sorted_listing(l)),
            None::<Seq<char>>,
        ),
{
    versioned_manifest_round_trip(mode, version_of(mode_magic(mode)), reading, tree, pinned, l);
}

/// The manifest of a folder reads back under any version.
pub proof fn versioned_manifest_round_trip(
    mode: LockMode,
    version: int,
    reading: Reading,
    tree: Tree,
    pinned: Set<Seq<char>>,
    l: Listed,
)
    requires
        lockable(tree, pinned, l),
        reads_mode(mode, reading),
    ensures
        manifest_says(
            mode_magic(mode),
            reading,
            versioned_manifest(mode_magic(mode), version, lock_entries(mode, sorted_listing(l))),
        ) == (lock_entries(mode, sorted_listing(l)), None::<Seq<char>>),
{
    let s = sorted_listing(l);
    let entries = lock_entries(mode, s);
    lemma_sorted(tree, pinned, l);
    assert forall|i: int| 0 <= i < entries.len() implies writable(reading, #[trigger] entries[i]) by {
        if i < s.dirs.len() {
            assert(s.dirs.contains(s.dirs[i]));
            assert(entries[i] == dir_entry(s.dirs[i]));
            assert(tree.contains_key(s.dirs[i]));
        } else {
            let j = i - s.dirs.len();
            assert(s.files.contains(s.files[j]));
            assert(entries[i] == file_entry(mode, s.files, j));
            assert(tree.contains_key(s.files[j]));
            lemma_stored_name(j as nat);
        }
    }
    manifest_round_trip(mode_magic(mode), version, reading, entries);
}

proof fn lemma_stored_entries(mode: LockMode, s: Listed)
    ensures
        mode != LockMode::Full ==> lock_entries(mode, s) == stored_entries(
            s.dirs,
            stored_pairs(s.files),
        ),
        mode == LockMode::Full ==> lock_entries(mode, s) == plain_entries(s.dirs, s.files),
{
    if mode == LockMode::Full {
        assert(lock_entries(mode, s) =~= plain_entries(s.dirs, s.files));
    } else {
        assert(lock_entries(mode, s) =~= stored_entries(s.dirs, stored_pairs(s.files)));
    }
}

proof fn lemma_named_pairs(dirs: Seq<Seq<char>>, pairs: Seq<Pair>, k: nat)
    requires
        k <= dirs.len() + pairs.len(),
    ensures
        named_pairs(stored_entries(dirs, pairs), k) == if k <= dirs.len() {
            Seq::<Pair>::empty()
        } else {
            pairs.take(k - dirs.len())
        },
    decreases k,
{
    let entries = stored_entries(dirs, pairs);
    if k > 0 {
        lemma_named_pairs(dirs, pairs, (k - 1) as nat);
        if k <= dirs.len() {
            assert(entries[k - 1] == dir_entry(dirs[k - 1]));
        } else {
            let j = k - 1 - dirs.len();
            assert(entries[k - 1] == (Entry {
                rel: pairs[j].0,
                is_dir: false,
                stream: Some(pairs[j].1),
            }));
            assert(pairs.take(j + 1) =~= pairs.take(j).push(pairs[j]));
            assert(pairs.take(0) =~= Seq::empty());
        }
    }
}

proof fn lemma_files_among(dirs: Seq<Seq<char>>, files: Seq<Seq<char>>, k: nat)
    requires
        k <= dirs.len() + files.len(),
    ensures
        files_among(plain_entries(dirs, files), k) == if k <= dirs.len() {
            0
        } else {
            k - dirs.len()
        },
    decreases k,
{
    let entries = plain_entries(dirs, files);
    if k > 0 {
        lemma_files_among(dirs, files, (k - 1) as nat);
        if k <= dirs.len() {
            assert(entries[k - 1] == dir_entry(dirs[k - 1]));
        } else {
            let j = k - 1 - dirs.len();
            assert(entries[k - 1] == (Entry { rel: files[j], is_dir: false, stream: None }));
        }
    }
}

// ── vaults ──

/// The front of a streamed vault.
pub open spec fn stream_head(salt: Seq<u8>, ct: Seq<u8>) -> Seq<u8> {
    salt + seq![MODE_FULL_STREAM] + le32(ct.len() as int) + ct
}

/// A streamed vault up to the streams of the first `k` files.
pub open spec fn streams_upto(
    w: World,
    tree: Tree,
    s: Listed,
    salt: Seq<u8>,
    ct: Seq<u8>,
    k: nat,
) -> Seq<u8> {
    draft_after(w, numbers_from(ct), s.dirs.len(), tree, s.files, stream_head(salt, ct), k)
}

/// What is left to read of a streamed vault behind the streams of the first files.
pub open spec fn left_in(
    w: World,
    tree: Tree,
    s: Listed,
    salt: Seq<u8>,
    ct: Seq<u8>,
    v: Seq<u8>,
) -> spec_fn(nat) -> Seq<u8> {
    |k: nat|
        left_of(w, numbers_from(ct), s.dirs.len(), tree, s.files, stream_head(salt, ct), v, k)
}

/// The vault that locking a folder with the sorted listing writes, given its
/// encrypted manifest.
pub open spec fn vault_of(
    w: World,
    mode: LockMode,
    tree: Tree,
    s: Listed,
    salt: Seq<u8>,
    ct: Seq<u8>,
) -> Seq<u8> {
    match mode {
        LockMode::Full => streams_upto(w, tree, s, salt, ct, s.files.len()),
        _ => salt + seq![mode_byte(mode)] + ct,
    }
}

/// What is read of a vault to open its manifest: the encrypted metadata of a
/// streamed one, and otherwise all of it.
pub open spec fn vault_body(v: Seq<u8>) -> Seq<u8> {
    if v[16] == MODE_FULL_STREAM {
        v.subrange(21, 21 + from_le32(v.subrange(17, 21)))
    } else {
        v
    }
}

/// What is left to read of a vault once its manifest was opened.
pub open spec fn vault_rest(v: Seq<u8>) -> Seq<u8> {
    if v[16] == MODE_FULL_STREAM {
        v.skip(21 + from_le32(v.subrange(17, 21)))
    } else {
        Seq::empty()
    }
}

/// Does the encrypted manifest of a folder fit its length field, where it has one?
pub open spec fn meta_fits(mode: LockMode, ct: Seq<u8>) -> bool {
    mode == LockMode::Full ==> ct.len() <= 0xFFFF_FFFF
}

/// A streamed vault gives back the salt, the mode and the encrypted metadata at its
/// front, and what stands behind those is left to read.
pub proof fn stream_head_reads_back(salt: Seq<u8>, ct: Seq<u8>, v: Seq<u8>)
    requires
        salt.len() == 16,
        ct.len() <= 0xFFFF_FFFF,
        begins_with(v, stream_head(salt, ct)),
    ensures
        salt_of(v) == Ok::<Seq<u8>, Seq<char>>(salt),
        mode_of(v) == Ok::<u8, Seq<char>>(MODE_FULL_STREAM),
        vault_body(v) == ct,
        vault_rest(v) == v.skip(stream_head(salt, ct).len() as int),
{
    let head = stream_head(salt, ct);
    let n = ct.len() as int;
    assert(v.take(16) =~= head.take(16));
    assert(head.take(16) =~= salt);
    assert(v[16] == v.take(head.len() as int)[16]);
    le32_round_trip(n);
    assert(v.subrange(17, 21) =~= head.subrange(17, 21));
    assert(head.subrange(17, 21) =~= le32(n));
    assert(v.subrange(21, 21 + n) =~= head.subrange(21, 21 + n));
    assert(head.subrange(21, 21 + n) =~= ct);
    assert(head.len() == 21 + n);
}

/// A vault gives back the salt and the mode that it was written with, and the key
/// that the folder was locked with opens its manifest.
pub proof fn vault_opens(
    w: World,
    mode: LockMode,
    tree: Tree,
    s: Listed,
    salt: Seq<u8>,
    ct: Seq<u8>,
    manifest: Seq<u8>,
)
    requires
        salt.len() == 16,
        seals(w.key, manifest, ct),
        meta_fits(mode, ct),
    ensures
        salt_of(vault_of(w, mode, tree, s, salt, ct)) == Ok::<Seq<u8>, Seq<char>>(salt),
        mode_of(vault_of(w, mode, tree, s, salt, ct)) == Ok::<u8, Seq<char>>(mode_byte(mode)),
        open_manifest(
            mode_byte(mode),
            w.key,
            vault_body(vault_of(w, mode, tree, s, salt, ct)),
        ) == Ok::<Seq<u8>, Seq<char>>(manifest),
        mode == LockMode::Full ==> vault_body(vault_of(w, mode, tree, s, salt, ct)) == ct,
{
    let v = vault_of(w, mode, tree, s, salt, ct);
    if mode == LockMode::Full {
        let head = stream_head(salt, ct);
        lemma_draft_grows(w, numbers_from(ct), s.dirs.len(), tree, s.files, head, 0, s.files.len());
        stream_head_reads_back(salt, ct, v);
    } else {
        assert(v.take(16) =~= salt);
        assert(v.skip(17) =~= ct);
    }
}

/// The metadata of a folder numbers its streams, from the nonce that it is encrypted
/// under.
proof fn lemma_numbered(s: Listed, ct: Seq<u8>)
    ensures
        numbering(lock_manifest(LockMode::Full, s), ct) == Some(numbers_from(ct)),
{
    assert(lock_manifest(LockMode::Full, s).subrange(8, 10) =~= le16(3));
}

// ── finishing a lock ──

/// A folder whose lock was interrupted after its vault was written: the vault is
/// there, only things of the original tree are left in the folder, and in the modes
/// that do not encrypt them, the content of every file is to be had, in the folder
/// or else in the store.
pub open spec fn interrupted(
    mode: LockMode,
    original: Tree,
    pinned: Set<Seq<char>>,
    files: Seq<Seq<char>>,
    v: Seq<u8>,
    e: Disk,
) -> bool {
    &&& e.vault == Some(v)
    &&& e.pinned == pinned
    &&& part_of(e.tree, original)
    &&& pins_hold(e.tree, pinned)
    &&& mode != LockMode::Full ==> forall|i: int|
        0 <= i < files.len() ==> available(
            mode_store(mode),
            #[trigger] stored_pairs(files)[i],
            content(original, files[i]),
            e,
        )
}

/// A locked folder: the vault is there and the journal is not, nothing is left of
/// the tree but the directories that hold something protected, and in the modes
/// that do not encrypt them, the store has the content of every file.
pub open spec fn locked(
    mode: LockMode,
    original: Tree,
    pinned: Set<Seq<char>>,
    files: Seq<Seq<char>>,
    v: Seq<u8>,
    e: Disk,
) -> bool {
    &&& e.vault == Some(v)
    &&& e.state is None
    &&& e.pinned == pinned
    &&& e.tree == pins_only(original, pinned)
    &&& mode != LockMode::Full ==> forall|i: int|
        0 <= i < files.len() ==> stores(
            e,
            mode_store(mode),
            (#[trigger] stored_pairs(files)[i]).1,
        ) && stored_content(e, mode_store(mode), stored_pairs(files)[i].1) == content(
            original,
            files[i],
        )
}

proof fn lemma_part_finite(t: Tree, tree: Tree)
    requires
        tree.dom().finite(),
        part_of(t, tree),
    ensures
        t.dom().finite(),
{
    assert(t.dom().subset_of(tree.dom())) by {
        assert forall|p: Seq<char>| t.dom().contains(p) implies tree.dom().contains(p) by {
            assert(t.contains_key(p));
        }
    }
    vstd::set_lib::lemma_set_subset_finite(tree.dom(), t.dom());
}

/// The disk with a store that is there.
pub open spec fn prepared(store: Store, d: Disk) -> Disk {
    with_store(
        d,
        store,
        Some(
            match store_of(d, store) {
                Some(held) => held,
                None => Map::<Seq<char>, Seq<u8>>::empty(),
            },
        ),
    )
}

proof fn lemma_prepare(
    w: World,
    keeps: spec_fn(Disk) -> bool,
    store: Store,
    rest: Seq<Step>,
    count: nat,
    lost: Seq<Seq<char>>,
    d: Disk,
)
    requires
        keeps(d),
        keeps(prepared(store, d)),
    ensures
        gets_to(
            w,
            keeps,
            running(
                match store {
                    Store::Streams => seq![Task::PrepareHost, Task::Do(Action::HideHost)],
                    Store::Container => seq![
                        Task::Do(Action::LiftGuard),
                        Task::Do(Action::CreateData),
                    ],
                } + rest,
                count,
                lost,
            ),
            d,
            running(rest, count, lost),
            prepared(store, d),
        ),
{
    let e = prepared(store, d);
    match store {
        Store::Streams => {
            let hide = seq![Task::Do(Action::HideHost)] + rest;
            let all = seq![Task::PrepareHost, Task::Do(Action::HideHost)] + rest;
            let s = running(all, count, lost);
            assert(all =~= seq![Task::PrepareHost] + hide);
            assert(s.todo.drop_first() =~= hide);
            lemma_one(w, keeps, s, d);
            if d.streams is Some {
                assert(Seq::<Step>::empty() + hide =~= hide);
                assert(after(s, Answer::Found(true)) == running(hide, count, lost));
                assert(e =~= d);
            } else {
                let s1 = running(seq![Task::Do(Action::CreateHost)] + hide, count, lost);
                assert(after(s, Answer::Found(false)) == s1);
                assert(perform(w, d, Action::CreateHost).0 =~= e);
                lemma_do(w, keeps, Action::CreateHost, hide, count, lost, d);
                lemma_then(w, keeps, s, d, s1, d, running(hide, count, lost), e);
            }
            lemma_do(w, keeps, Action::HideHost, rest, count, lost, e);
            lemma_then(
                w,
                keeps,
                s,
                d,
                running(hide, count, lost),
                e,
                running(rest, count, lost),
                e,
            );
        },
        Store::Container => {
            let create = seq![Task::Do(Action::CreateData)] + rest;
            let all = seq![Task::Do(Action::LiftGuard), Task::Do(Action::CreateData)] + rest;
            assert(all =~= seq![Task::Do(Action::LiftGuard)] + create);
            lemma_do(w, keeps, Action::LiftGuard, create, count, lost, d);
            assert(perform(w, d, Action::CreateData).0 =~= e);
            lemma_do(w, keeps, Action::CreateData, rest, count, lost, d);
            lemma_then(
                w,
                keeps,
                running(all, count, lost),
                d,
                running(create, count, lost),
                d,
                running(rest, count, lost),
                e,
            );
        },
    }
}

/// The disk at the end of a lock, once its files are in the store.
pub open spec fn cleared(pinned: Set<Seq<char>>, original: Tree, d: Disk) -> Disk {
    Disk { tree: pins_only(original, pinned), state: None, ..d }
}

pub(crate) proof fn lemma_clear_and_end(
    w: World,
    keeps: spec_fn(Disk) -> bool,
    mode: LockMode,
    original: Tree,
    guard: Seq<Step>,
    count: nat,
    d: Disk,
)
    requires
        works(w),
        original.dom().finite(),
        part_of(d.tree, original),
        pins_hold(d.tree, d.pinned),
        pins_hold(original, d.pinned),
        guard == Seq::<Step>::empty() || guard == seq![
            Task::<Seq<char>, Seq<u8>>::Do(Action::GuardData),
        ],
        forall|t: Tree| #[trigger]
            part_with_pins(t, d.tree, d.pinned) ==> keeps(with_tree(d, t)),
        keeps(cleared(d.pinned, original, d)),
    ensures
        gets_to(
            w,
            keeps,
            running(
                seq![Task::Clear] + (guard + seq![Task::Do(Action::Unmark)]),
                count,
                Seq::empty(),
            ),
            d,
            running(Seq::empty(), count, Seq::empty()),
            cleared(d.pinned, original, d),
        ),
{
    let unmark = seq![Task::<Seq<char>, Seq<u8>>::Do(Action::Unmark)];
    let none = Seq::<Seq<char>>::empty();
    let e = with_tree(d, pins_only(d.tree, d.pinned));
    let f = cleared(d.pinned, original, d);
    let s = running(seq![Task::Clear] + (guard + unmark), count, none);
    lemma_part_finite(d.tree, original);
    clearing_leaves_only_pins(w, keeps, guard + unmark, count, none, d);
    assert(pins_only(d.tree, d.pinned) =~= pins_only(original, d.pinned));
    assert(part_with_pins(e.tree, d.tree, d.pinned));
    if guard.len() > 0 {
        lemma_do(w, keeps, Action::GuardData, unmark, count, none, e);
        lemma_then(
            w,
            keeps,
            s,
            d,
            running(guard + unmark, count, none),
            e,
            running(unmark, count, none),
            e,
        );
    } else {
        assert(guard + unmark =~= unmark);
    }
    assert(unmark =~= unmark + Seq::<Step>::empty());
    assert(perform(w, e, Action::Unmark).0 =~= f);
    lemma_do(w, keeps, Action::Unmark, Seq::empty(), count, none, e);
    lemma_then(
        w,
        keeps,
        s,
        d,
        running(unmark, count, none),
        e,
        running(Seq::empty(), count, none),
        f,
    );
}

/// The disk that finishing an interrupted lock ends with.
pub open spec fn finished_lock(
    mode: LockMode,
    original: Tree,
    files: Seq<Seq<char>>,
    d: Disk,
) -> Disk {
    match mode {
        LockMode::Full => cleared(d.pinned, original, d),
        _ => cleared(
            d.pinned,
            original,
            stashed(
                mode_store(mode),
                stored_pairs(files),
                prepared(mode_store(mode), d),
                files.len(),
            ),
        ),
    }
}

proof fn lemma_finish_store(
    w: World,
    keeps: spec_fn(Disk) -> bool,
    mode: LockMode,
    original: Tree,
    pinned: Set<Seq<char>>,
    l: Listed,
    v: Seq<u8>,
    progress: bool,
    d: Disk,
)
    requires
        works(w),
        mode != LockMode::Full,
        lockable(original, pinned, l),
        interrupted(mode, original, pinned, sorted_listing(l).files, v, d),
        forall|e: Disk| #[trigger]
            interrupted(mode, original, pinned, sorted_listing(l).files, v, e) ==> keeps(e),
    ensures
        gets_to(
            w,
            keeps,
            running(
                store_files(mode_store(mode), stored_pairs(sorted_listing(l).files), progress),
                0,
                Seq::empty(),
            ),
            d,
            running(Seq::empty(), l.files.len(), Seq::empty()),
            finished_lock(mode, original, sorted_listing(l).files, d),
        ),
        locked(
            mode,
            original,
            pinned,
            sorted_listing(l).files,
            v,
            finished_lock(mode, original, sorted_listing(l).files, d),
        ),
{
    let files = sorted_listing(l).files;
    let store = mode_store(mode);
    let pairs = stored_pairs(files);
    let contents = contents_of(original, files);
    let none = Seq::<Seq<char>>::empty();
    let n = pairs.len();
    lemma_sorted(original, pinned, l);
    let unmark = seq![Task::<Seq<char>, Seq<u8>>::Do(Action::Unmark)];
    let guard = match store {
        Store::Streams => Seq::<Step>::empty(),
        Store::Container => seq![Task::<Seq<char>, Seq<u8>>::Do(Action::GuardData)],
    };
    let tail = seq![Task::Clear] + (guard + unmark);
    let locks = crate::vault::lock_files(store, pairs, progress, n);
    let first = match store {
        Store::Streams => seq![Task::PrepareHost, Task::Do(Action::HideHost)],
        Store::Container => seq![Task::Do(Action::LiftGuard), Task::Do(Action::CreateData)],
    };
    let s = running(store_files(store, pairs, progress), 0, none);
    assert(store_files(store, pairs, progress) =~= first + (locks + tail));

    let d1 = prepared(store, d);
    assert(interrupted(mode, original, pinned, files, v, d1)) by {
        assert forall|i: int| 0 <= i < files.len() implies available(
            store,
            #[trigger] stored_pairs(files)[i],
            content(original, files[i]),
            d1,
        ) by {
            assert(available(store, pairs[i], content(original, files[i]), d));
        }
    }
    lemma_prepare(w, keeps, store, locks + tail, 0, none, d);

    assert(kept(store, pairs, contents, d1)) by {
        assert forall|i: int| 0 <= i < pairs.len() implies !has_dir(d1.tree, (#[trigger] pairs[i]).0)
            && available(store, pairs[i], contents[i], d1) by {
            assert(has_file(original, pairs[i].0));
        }
    }
    assert forall|e: Disk| #[trigger] midway(store, pairs, contents, d1, e) implies keeps(e) by {
        lemma_midway_interrupted(mode, original, pinned, files, v, d1, e);
    }
    locking_stores_every_file(
        w,
        keeps,
        store,
        pairs,
        contents,
        progress,
        n,
        tail,
        0,
        none,
        d1,
    );
    let d2 = stashed(store, pairs, d1, n);
    lemma_then(
        w,
        keeps,
        s,
        d,
        running(locks + tail, 0, none),
        d1,
        running(tail, n, none),
        d2,
    );
    stashed_files_are_stored(store, pairs, contents, d1, n);
    lemma_midway_interrupted(mode, original, pinned, files, v, d1, d2);
    let d3 = cleared(pinned, original, d2);
    assert forall|t: Tree| #[trigger] part_with_pins(t, d2.tree, pinned) implies keeps(
        with_tree(d2, t),
    ) by {
        lemma_cleared_interrupted(mode, original, pinned, files, v, d2, with_tree(d2, t));
    }
    assert(interrupted(mode, original, pinned, files, v, d3)) by {
        assert(part_with_pins(pins_only(original, pinned), d2.tree, pinned)) by {
            assert forall|p: Seq<char>| #[trigger]
                pins_only(original, pinned).contains_key(p) implies d2.tree.contains_key(p)
                && pins_only(original, pinned)[p] == d2.tree[p] by {
                assert(has_dir(d2.tree, p));
            }
        }
        lemma_cleared_interrupted(mode, original, pinned, files, v, d2, d3);
    }
    lemma_clear_and_end(w, keeps, mode, original, guard, n, d2);
    lemma_then(
        w,
        keeps,
        s,
        d,
        running(tail, n, none),
        d2,
        running(Seq::empty(), n, none),
        d3,
    );
    assert forall|i: int| 0 <= i < files.len() implies stores(
        d3,
        store,
        (#[trigger] stored_pairs(files)[i]).1,
    ) && stored_content(d3, store, stored_pairs(files)[i].1) == content(original, files[i]) by {
        assert(stores(d2, store, pairs[i].1));
    }
}

proof fn lemma_midway_interrupted(
    mode: LockMode,
    original: Tree,
    pinned: Set<Seq<char>>,
    files: Seq<Seq<char>>,
    v: Seq<u8>,
    d: Disk,
    e: Disk,
)
    requires
        mode != LockMode::Full,
        interrupted(mode, original, pinned, files, v, d),
        midway(
            mode_store(mode),
            stored_pairs(files),
            contents_of(original, files),
            d,
            e,
        ),
    ensures
        interrupted(mode, original, pinned, files, v, e),
{
    let pairs = stored_pairs(files);
    assert forall|p: Seq<char>| #[trigger] e.tree.contains_key(p) implies original.contains_key(p)
        && e.tree[p] == original[p] by {
        assert(d.tree.contains_key(p));
    }
    assert forall|p: Seq<char>| #[trigger] pinned.contains(p) implies has_dir(e.tree, p) by {
        assert(has_dir(d.tree, p));
    }
    assert forall|i: int| 0 <= i < files.len() implies available(
        mode_store(mode),
        #[trigger] stored_pairs(files)[i],
        content(original, files[i]),
        e,
    ) by {
        assert(available(mode_store(mode), pairs[i], contents_of(original, files)[i], e));
    }
}

/// Where all files are in the store, what is left of the tree does not matter.
proof fn lemma_cleared_interrupted(
    mode: LockMode,
    original: Tree,
    pinned: Set<Seq<char>>,
    files: Seq<Seq<char>>,
    v: Seq<u8>,
    d: Disk,
    e: Disk,
)
    requires
        interrupted(mode, original, pinned, files, v, d),
        part_with_pins(e.tree, d.tree, pinned),
        e.vault == d.vault,
        e.pinned == d.pinned,
        mode != LockMode::Full ==> {
            &&& store_of(e, mode_store(mode)) == store_of(d, mode_store(mode))
            &&& forall|i: int|
                0 <= i < files.len() ==> !has_file(
                    d.tree,
                    (#[trigger] stored_pairs(files)[i]).0,
                )
        },
    ensures
        interrupted(mode, original, pinned, files, v, e),
{
    let pairs = stored_pairs(files);
    assert forall|p: Seq<char>| #[trigger] e.tree.contains_key(p) implies original.contains_key(p)
        && e.tree[p] == original[p] by {
        assert(d.tree.contains_key(p));
    }
    assert forall|p: Seq<char>| #[trigger] pinned.contains(p) implies has_dir(e.tree, p) by {
        assert(has_dir(d.tree, p));
    }
    if mode != LockMode::Full {
        assert forall|i: int| 0 <= i < files.len() implies available(
            mode_store(mode),
            #[trigger] stored_pairs(files)[i],
            content(original, files[i]),
            e,
        ) by {
            assert(available(mode_store(mode), pairs[i], content(original, files[i]), d));
            assert(!has_file(d.tree, pairs[i].0));
        }
    }
}

/// A lock that was interrupted after its vault was written can be finished from
/// the vault alone: the manifest opens, and what is left to do ends with every file
/// counted and the folder locked. However often that is interrupted again, it can
/// be finished.
#[verifier::rlimit(30)]
pub proof fn interrupted_lock_can_be_finished(
    w: World,
    mode: LockMode,
    original: Tree,
    pinned: Set<Seq<char>>,
    l: Listed,
    salt: Seq<u8>,
    ct: Seq<u8>,
    progress: bool,
    d: Disk,
)
    requires
        works(w),
        lockable(original, pinned, l),
        seals(w.key, lock_manifest(mode, sorted_listing(l)), ct),
        salt.len() == 16,
        meta_fits(mode, ct),
        ({
            let files = sorted_listing(l).files;
            interrupted(
                mode,
                original,
                pinned,
                files,
                vault_of(w, mode, original, sorted_listing(l), salt, ct),
                d,
            )
        }),
    ensures
        ({
            let files = sorted_listing(l).files;
            let v = vault_of(w, mode, original, sorted_listing(l), salt, ct);
            &&& open_manifest(mode_byte(mode), w.key, vault_body(v)) matches Ok(manifest)
            &&& resume_plan(mode_byte(mode), manifest, progress) matches Ok(plan)
            &&& gets_to(
                w,
                |e: Disk| interrupted(mode, original, pinned, files, v, e),
                initial(plan.0, plan.1),
                d,
                running(Seq::empty(), l.files.len(), Seq::empty()),
                finished_lock(mode, original, files, d),
            )
            &&& locked(mode, original, pinned, files, v, finished_lock(mode, original, files, d))
        }),
{
    let s = sorted_listing(l);
    let files = s.files;
    let manifest = lock_manifest(mode, s);
    let v = vault_of(w, mode, original, s, salt, ct);
    let keeps = |e: Disk| interrupted(mode, original, pinned, files, v, e);
    let none = Seq::<Seq<char>>::empty();
    vault_opens(w, mode, original, s, salt, ct, manifest);
    lemma_sorted(original, pinned, l);
    lemma_stored_entries(mode, s);
    let entries = lock_entries(mode, s);
    if mode == LockMode::Full {
        folder_manifest_round_trip(mode, Reading::Meta, original, pinned, l);
        lemma_files_among(s.dirs, s.files, entries.len());
        let plan = seq![Task::<Seq<char>, Seq<u8>>::Clear, Task::Do(Action::Unmark)];
        let guard = Seq::<Step>::empty();
        assert(plan =~= seq![Task::Clear] + (guard + seq![Task::Do(Action::Unmark)]));
        assert forall|t: Tree| #[trigger] part_with_pins(t, d.tree, pinned) implies keeps(
            with_tree(d, t),
        ) by {
            lemma_cleared_interrupted(mode, original, pinned, files, v, d, with_tree(d, t));
        }
        let e = cleared(pinned, original, d);
        assert(part_with_pins(pins_only(original, pinned), d.tree, pinned)) by {
            assert forall|p: Seq<char>| #[trigger]
                pins_only(original, pinned).contains_key(p) implies d.tree.contains_key(p)
                && pins_only(original, pinned)[p] == d.tree[p] by {
                assert(has_dir(d.tree, p));
            }
        }
        lemma_cleared_interrupted(mode, original, pinned, files, v, d, e);
        lemma_clear_and_end(w, keeps, mode, original, guard, files.len(), d);
    } else {
        folder_manifest_round_trip(mode, Reading::Resume, original, pinned, l);
        lemma_named_pairs(s.dirs, stored_pairs(files), entries.len());
        assert(stored_pairs(files).take(files.len() as int) =~= stored_pairs(files));
        if files.len() == 0 {
            assert(stored_pairs(files) =~= Seq::empty());
        }
        lemma_finish_store(w, keeps, mode, original, pinned, l, v, progress, d);
    }
}

// ── locking ──

/// A disk on which locking has changed neither the tree nor the vault nor a store.
pub open spec fn untouched(d: Disk, e: Disk) -> bool {
    e == (Disk { draft: e.draft, state: e.state, ..d })
}

/// What locking keeps at all times: nothing of the folder has changed, or its vault
/// is there and the lock can be finished.
pub open spec fn finishable(
    mode: LockMode,
    files: Seq<Seq<char>>,
    v: Seq<u8>,
    d: Disk,
) -> spec_fn(Disk) -> bool {
    |e: Disk| untouched(d, e) || interrupted(mode, d.tree, d.pinned, files, v, e)
}

/// The disk once the vault was written and the direction marked.
pub open spec fn committed(d: Disk, v: Seq<u8>) -> Disk {
    Disk { vault: Some(v), draft: None, state: Some(PendingOp::Encrypt), ..d }
}

proof fn lemma_write_vault(
    w: World,
    keeps: spec_fn(Disk) -> bool,
    salt: Seq<u8>,
    byte: u8,
    ct: Seq<u8>,
    rest: Seq<Step>,
    d: Disk,
)
    requires
        forall|e: Disk| #[trigger] untouched(d, e) ==> keeps(e),
        forall|e: Disk| #[trigger]
            untouched(committed(d, salt + seq![byte] + ct), e) ==> keeps(e),
    ensures
        gets_to(
            w,
            keeps,
            running(write_vault(salt, byte, ct) + rest, 0, Seq::empty()),
            d,
            running(rest, 0, Seq::empty()),
            committed(d, salt + seq![byte] + ct),
        ),
{
    let none = Seq::<Seq<char>>::empty();
    let v = salt + seq![byte] + ct;
    let a0 = Action::CreateVault;
    let a1 = Action::WriteVault { part: Part::Salt, bytes: salt };
    let a2 = Action::WriteVault { part: Part::Mode, bytes: seq![byte] };
    let a3 = Action::WriteVault { part: Part::Manifest, bytes: ct };
    let a4 = Action::CommitVault;
    let a5 = Action::Mark(PendingOp::Encrypt);
    let t5 = seq![Task::Do(a5)] + rest;
    let t4 = seq![Task::Do(a4)] + t5;
    let t3 = seq![Task::Do(a3)] + t4;
    let t2 = seq![Task::Do(a2)] + t3;
    let t1 = seq![Task::Do(a1)] + t2;
    let t0 = seq![Task::Do(a0)] + t1;
    assert(write_vault(salt, byte, ct) + rest =~= t0);
    let d1 = with_draft(d, Seq::empty());
    let d2 = with_draft(d, salt);
    let d3 = with_draft(d, salt + seq![byte]);
    let d4 = with_draft(d, v);
    let d5 = Disk { vault: Some(v), draft: None, ..d };
    let d6 = committed(d, v);
    assert(untouched(d, d) && untouched(d, d1) && untouched(d, d2) && untouched(d, d3)
        && untouched(d, d4));
    assert(untouched(d6, d5) && untouched(d6, d6));
    let s = running(t0, 0, none);
    lemma_do(w, keeps, a0, t1, 0, none, d);
    assert(Seq::<u8>::empty() + salt =~= salt);
    lemma_do(w, keeps, a1, t2, 0, none, d1);
    lemma_then(w, keeps, s, d, running(t1, 0, none), d1, running(t2, 0, none), d2);
    lemma_do(w, keeps, a2, t3, 0, none, d2);
    lemma_then(w, keeps, s, d, running(t2, 0, none), d2, running(t3, 0, none), d3);
    lemma_do(w, keeps, a3, t4, 0, none, d3);
    lemma_then(w, keeps, s, d, running(t3, 0, none), d3, running(t4, 0, none), d4);
    assert(perform(w, d4, a4).0 =~= d5);
    lemma_do(w, keeps, a4, t5, 0, none, d4);
    lemma_then(w, keeps, s, d, running(t4, 0, none), d4, running(t5, 0, none), d5);
    assert(perform(w, d5, a5).0 =~= d6);
    lemma_do(w, keeps, a5, rest, 0, none, d5);
    lemma_then(w, keeps, s, d, running(t5, 0, none), d5, running(rest, 0, none), d6);
}

#[verifier::rlimit(30)]
proof fn lemma_write_stream_vault(
    w: World,
    keeps: spec_fn(Disk) -> bool,
    l: Listed,
    salt: Seq<u8>,
    ct: Seq<u8>,
    progress: bool,
    rest: Seq<Step>,
    d: Disk,
)
    requires
        sealable(d.tree, l.files),
        forall|e: Disk| #[trigger] untouched(d, e) ==> keeps(e),
        forall|e: Disk| #[trigger]
            untouched(
                committed(d, vault_of(w, LockMode::Full, d.tree, l, salt, ct)),
                e,
            ) ==> keeps(e),
    ensures
        gets_to(
            w,
            keeps,
            running(
                begin_stream_vault(salt, ct) + seal_files(
                    numbers_from(ct),
                    l.dirs.len(),
                    l.files,
                    progress,
                    l.files.len(),
                ) + (seq![
                    Task::Do(Action::FlushVault),
                    Task::Do(Action::CommitVault),
                    Task::Do(Action::Mark(PendingOp::Encrypt)),
                ] + rest),
                0,
                Seq::empty(),
            ),
            d,
            running(rest, l.files.len(), Seq::empty()),
            committed(d, vault_of(w, LockMode::Full, d.tree, l, salt, ct)),
        ),
{
    let none = Seq::<Seq<char>>::empty();
    let from = numbers_from(ct);
    let at = l.dirs.len();
    let n = l.files.len();
    let head = stream_head(salt, ct);
    let v = vault_of(w, LockMode::Full, d.tree, l, salt, ct);
    let a0 = Action::CreateVault;
    let a1 = Action::WriteVault { part: Part::Salt, bytes: salt };
    let a2 = Action::WriteVault { part: Part::Mode, bytes: seq![MODE_FULL_STREAM] };
    let a3 = Action::WriteVault { part: Part::MetaLength, bytes: le32(ct.len() as int) };
    let a4 = Action::WriteVault { part: Part::Meta, bytes: ct };
    let a6 = Action::FlushVault;
    let a7 = Action::CommitVault;
    let a8 = Action::Mark(PendingOp::Encrypt);
    let t8 = seq![Task::Do(a8)] + rest;
    let t7 = seq![Task::Do(a7)] + t8;
    let t6 = seq![Task::Do(a6)] + t7;
    let t5 = seal_files(from, at, l.files, progress, n) + t6;
    let t4 = seq![Task::Do(a4)] + t5;
    let t3 = seq![Task::Do(a3)] + t4;
    let t2 = seq![Task::Do(a2)] + t3;
    let t1 = seq![Task::Do(a1)] + t2;
    let t0 = seq![Task::Do(a0)] + t1;
    assert(begin_stream_vault(salt, ct) + seal_files(from, at, l.files, progress, n) + (seq![
        Task::Do(Action::FlushVault),
        Task::Do(Action::CommitVault),
        Task::Do(Action::Mark(PendingOp::Encrypt)),
    ] + rest) =~= t0);
    let d1 = with_draft(d, Seq::empty());
    let d2 = with_draft(d, salt);
    let d3 = with_draft(d, salt + seq![MODE_FULL_STREAM]);
    let d4 = with_draft(d, salt + seq![MODE_FULL_STREAM] + le32(ct.len() as int));
    let d5 = with_draft(d, head);
    let d6 = with_draft(d, v);
    let d7 = Disk { vault: Some(v), draft: None, ..d };
    let d8 = committed(d, v);
    assert forall|b: Seq<u8>| keeps(#[trigger] with_draft(d, b)) by {
        assert(untouched(d, with_draft(d, b)));
    }
    assert(untouched(d, d));
    assert(untouched(d8, d7) && untouched(d8, d8));
    let s = running(t0, 0, none);
    lemma_do(w, keeps, a0, t1, 0, none, d);
    assert(Seq::<u8>::empty() + salt =~= salt);
    lemma_do(w, keeps, a1, t2, 0, none, d1);
    lemma_then(w, keeps, s, d, running(t1, 0, none), d1, running(t2, 0, none), d2);
    lemma_do(w, keeps, a2, t3, 0, none, d2);
    lemma_then(w, keeps, s, d, running(t2, 0, none), d2, running(t3, 0, none), d3);
    lemma_do(w, keeps, a3, t4, 0, none, d3);
    lemma_then(w, keeps, s, d, running(t3, 0, none), d3, running(t4, 0, none), d4);
    lemma_do(w, keeps, a4, t5, 0, none, d4);
    lemma_then(w, keeps, s, d, running(t4, 0, none), d4, running(t5, 0, none), d5);
    sealing_appends_streams(w, keeps, from, at, l.files, progress, n, t6, 0, none, d, head);
    lemma_then(w, keeps, s, d, running(t5, 0, none), d5, running(t6, n, none), d6);
    lemma_do(w, keeps, a6, t7, n, none, d6);
    lemma_then(w, keeps, s, d, running(t6, n, none), d6, running(t7, n, none), d6);
    assert(perform(w, d6, a7).0 =~= d7);
    lemma_do(w, keeps, a7, t8, n, none, d6);
    lemma_then(w, keeps, s, d, running(t7, n, none), d6, running(t8, n, none), d7);
    assert(perform(w, d7, a8).0 =~= d8);
    lemma_do(w, keeps, a8, rest, n, none, d7);
    lemma_then(w, keeps, s, d, running(t8, n, none), d7, running(rest, n, none), d8);
}

/// Locking a folder counts every file and leaves the folder locked. Whenever it is
/// interrupted, either nothing of the folder has changed, or its vault is there and
/// the lock can be finished.
#[verifier::rlimit(30)]
pub proof fn locking_locks(
    w: World,
    mode: LockMode,
    l: Listed,
    salt: Seq<u8>,
    ct: Seq<u8>,
    progress: bool,
    d: Disk,
)
    requires
        works(w),
        lockable(d.tree, d.pinned, l),
        seals(w.key, lock_manifest(mode, sorted_listing(l)), ct),
        mode == LockMode::Full ==> sealable(d.tree, sorted_listing(l).files),
    ensures
        ({
            let files = sorted_listing(l).files;
            let v = vault_of(w, mode, d.tree, sorted_listing(l), salt, ct);
            let e = finished_lock(mode, d.tree, files, committed(d, v));
            &&& gets_to(
                w,
                finishable(mode, files, v, d),
                initial(lock_plan(mode, salt, ct, sorted_listing(l), progress), 0),
                d,
                running(Seq::empty(), l.files.len(), Seq::empty()),
                e,
            )
            &&& locked(mode, d.tree, d.pinned, files, v, e)
        }),
{
    let s = sorted_listing(l);
    let files = s.files;
    let v = vault_of(w, mode, d.tree, sorted_listing(l), salt, ct);
    let keeps = finishable(mode, files, v, d);
    let none = Seq::<Seq<char>>::empty();
    let d1 = committed(d, v);
    let e = finished_lock(mode, d.tree, files, d1);
    let plan = lock_plan(mode, salt, ct, s, progress);
    lemma_sorted(d.tree, d.pinned, l);
    assert forall|f: Disk| #[trigger] untouched(d1, f) implies interrupted(
        mode,
        d.tree,
        d.pinned,
        files,
        v,
        f,
    ) by {
        if mode != LockMode::Full {
            assert forall|i: int| 0 <= i < files.len() implies available(
                mode_store(mode),
                #[trigger] stored_pairs(files)[i],
                content(d.tree, files[i]),
                f,
            ) by {
                assert(has_file(d.tree, stored_pairs(files)[i].0));
            }
        }
    }
    assert(untouched(d1, d1));
    if mode == LockMode::Full {
        let rest = seq![Task::<Seq<char>, Seq<u8>>::Clear, Task::Do(Action::Unmark)];
        assert(plan =~= begin_stream_vault(salt, ct) + seal_files(
            numbers_from(ct),
            s.dirs.len(),
            files,
            progress,
            files.len(),
        ) + (seq![
            Task::Do(Action::FlushVault),
            Task::Do(Action::CommitVault),
            Task::Do(Action::Mark(PendingOp::Encrypt)),
        ] + rest));
        lemma_write_stream_vault(w, keeps, s, salt, ct, progress, rest, d);
        let guard = Seq::<Step>::empty();
        assert(rest =~= seq![Task::Clear] + (guard + seq![Task::Do(Action::Unmark)]));
        assert forall|t: Tree| #[trigger] part_with_pins(t, d1.tree, d1.pinned) implies keeps(
            with_tree(d1, t),
        ) by {
            lemma_cleared_interrupted(
                mode,
                d.tree,
                d.pinned,
                files,
                v,
                d1,
                with_tree(d1, t),
            );
        }
        assert(part_with_pins(pins_only(d.tree, d.pinned), d.tree, d.pinned));
        lemma_cleared_interrupted(mode, d.tree, d.pinned, files, v, d1, e);
        lemma_clear_and_end(w, keeps, mode, d.tree, guard, files.len(), d1);
        lemma_then(
            w,
            keeps,
            running(plan, 0, none),
            d,
            running(rest, files.len(), none),
            d1,
            running(Seq::empty(), files.len(), none),
            e,
        );
    } else {
        let rest = store_files(mode_store(mode), stored_pairs(files), progress);
        lemma_write_vault(w, keeps, salt, mode_byte(mode), ct, rest, d);
        lemma_finish_store(w, keeps, mode, d.tree, d.pinned, l, v, progress, d1);
        lemma_then(
            w,
            keeps,
            running(plan, 0, none),
            d,
            running(rest, 0, none),
            d1,
            running(Seq::empty(), files.len(), none),
            e,
        );
    }
}

// ── unlocking ──

/// Has a tree got back all of the original, and nothing but what it had?
pub open spec fn got_back(original: Tree, before: Tree, tree: Tree) -> bool {
    &&& forall|p: Seq<char>| #[trigger]
        original.contains_key(p) ==> tree.contains_key(p) && tree[p] == original[p]
    &&& forall|p: Seq<char>| #[trigger]
        tree.contains_key(p) ==> original.contains_key(p) || before.contains_key(p)
}

/// A disk on which an unlock from a store can start anew, with the same files to
/// be had as on another.
pub open spec fn can_restart(
    original: Tree,
    store: Store,
    pairs: Seq<Pair>,
    v: Seq<u8>,
    d: Disk,
    e: Disk,
) -> bool {
    &&& e.vault == Some(v)
    &&& unlockable(original, store, pairs, e)
    &&& forall|i: int|
        0 <= i < pairs.len() ==> (survives(store, #[trigger] pairs[i], d) <==> survives(
            store,
            pairs[i],
            e,
        ))
}

/// Are all files to be had?
pub open spec fn nothing_lost(store: Store, pairs: Seq<Pair>, d: Disk) -> bool {
    forall|i: int| 0 <= i < pairs.len() ==> survives(store, #[trigger] pairs[i], d)
}

pub(crate) proof fn lemma_losses(store: Store, pairs: Seq<Pair>, d: Disk, k: nat)
    requires
        k <= pairs.len(),
    ensures
        losses(store, pairs, d, k).len() + survivors(store, pairs, d, k) == k,
        losses(store, pairs, d, k).len() == 0 <==> (forall|i: int|
            0 <= i < k ==> survives(store, #[trigger] pairs[i], d)),
    decreases k,
{
    if k > 0 {
        lemma_losses(store, pairs, d, (k - 1) as nat);
    }
}

/// What an unlock from a store leaves in the tree: all the directories, every file
/// that was to be had, with its original content, and no file that was not.
pub proof fn unlocked_tree(
    original: Tree,
    store: Store,
    dirs: Seq<Seq<char>>,
    pairs: Seq<Pair>,
    d: Disk,
)
    requires
        names_tree(original, dirs, pairs),
        unlockable(original, store, pairs, d),
    ensures
        ({
            let tree = restored(original, store, dirs, pairs, d, pairs.len()).tree;
            &&& forall|p: Seq<char>| #[trigger]
                has_dir(original, p) ==> tree.contains_key(p) && tree[p] == original[p]
            &&& forall|i: int|
                0 <= i < pairs.len() ==> if survives(store, #[trigger] pairs[i], d) {
                    tree.contains_key(pairs[i].0) && tree[pairs[i].0] == original[pairs[i].0]
                } else {
                    !has_file(tree, pairs[i].0)
                }
            &&& forall|p: Seq<char>| #[trigger]
                tree.contains_key(p) ==> original.contains_key(p) || d.tree.contains_key(p)
        }),
{
    let made = with_tree(d, with_dirs(d.tree, dirs, dirs.len()));
    let n = pairs.len();
    let tree = restored(original, store, dirs, pairs, d, n).tree;
    lemma_dirs_underway(original, store, dirs, pairs, d, dirs.len());
    dirs_are_added(original, dirs, d.tree, dirs.len());
    assert(dirs_there(original, made.tree)) by {
        assert forall|p: Seq<char>| #[trigger] has_dir(original, p) implies has_dir(
            made.tree,
            p,
        ) by {
            assert(dirs.contains(p));
            let i = dirs.index_of(p);
            assert(has_dir(made.tree, dirs[i]));
        }
    }
    lemma_tree_after_dirs(original, store, dirs, pairs, made, n);
    assert(tree == tree_after(original, store, pairs, made, n));
    assert forall|i: int| 0 <= i < pairs.len() implies if survives(
        store,
        #[trigger] pairs[i],
        d,
    ) {
        tree.contains_key(pairs[i].0) && tree[pairs[i].0] == original[pairs[i].0]
    } else {
        !has_file(tree, pairs[i].0)
    } by {
        lemma_tree_after_file(original, store, pairs, made, n, i);
        assert(survives(store, pairs[i], d) <==> survives(store, pairs[i], made));
        assert(has_file(original, pairs[i].0));
        if !stores(made, store, pairs[i].1) && has_file(made.tree, pairs[i].0) {
            assert(content(made.tree, pairs[i].0) == content(original, pairs[i].0));
        }
    }
    assert forall|p: Seq<char>| #[trigger] tree.contains_key(p) implies original.contains_key(p)
        || d.tree.contains_key(p) by {
        if came_back(store, pairs, made, n, p) {
            let i = choose|i: int|
                0 <= i < n && stores(made, store, (#[trigger] pairs[i]).1) && pairs[i].0 == p;
            assert(has_file(original, pairs[i].0));
        } else {
            assert(made.tree.contains_key(p));
            if !d.tree.contains_key(p) {
                assert(has_dir(original, p));
            }
        }
    }
}

/// The disk at the end of an unlock from a store.
pub open spec fn unlocked(
    original: Tree,
    store: Store,
    dirs: Seq<Seq<char>>,
    pairs: Seq<Pair>,
    d: Disk,
) -> Disk {
    Disk {
        vault: None,
        state: None,
        ..with_store(restored(original, store, dirs, pairs, d, pairs.len()), store, None)
    }
}

/// The disk with an unlock marked.
pub open spec fn marked(d: Disk) -> Disk {
    Disk { state: Some(PendingOp::Decrypt), ..d }
}

/// The disk on which an unlock from a store ends with a loss: what was to be had is
/// back, and the vault and the journal are kept.
pub open spec fn unlocked_with_loss(
    original: Tree,
    store: Store,
    dirs: Seq<Seq<char>>,
    pairs: Seq<Pair>,
    d: Disk,
) -> Disk {
    marked(restored(original, store, dirs, pairs, d, pairs.len()))
}

/// What an unlock from a store keeps at all times: it can start anew, or it is done.
pub open spec fn restartable(
    original: Tree,
    store: Store,
    pairs: Seq<Pair>,
    v: Seq<u8>,
    d: Disk,
) -> spec_fn(Disk) -> bool {
    |e: Disk|
        can_restart(original, store, pairs, v, d, e) || (e.vault is None && got_back(
            original,
            d.tree,
            e.tree,
        ))
}

proof fn lemma_settle(
    w: World,
    original: Tree,
    store: Store,
    dirs: Seq<Seq<char>>,
    pairs: Seq<Pair>,
    v: Seq<u8>,
    d: Disk,
)
    requires
        names_tree(original, dirs, pairs),
        d.vault == Some(v),
        unlockable(original, store, pairs, d),
        nothing_lost(store, pairs, d),
    ensures
        gets_to(
            w,
            restartable(original, store, pairs, v, d),
            running(
                seq![Task::Settle(store)] + seq![
                    Task::Do(Action::DropVault),
                    Task::Do(Action::Unmark),
                ],
                pairs.len(),
                Seq::empty(),
            ),
            unlocked_with_loss(original, store, dirs, pairs, d),
            running(Seq::empty(), pairs.len(), Seq::empty()),
            unlocked(original, store, dirs, pairs, d),
        ),
        got_back(original, d.tree, unlocked(original, store, dirs, pairs, d).tree),
{
    let keeps = restartable(original, store, pairs, v, d);
    let none = Seq::<Seq<char>>::empty();
    let n = pairs.len();
    let e0 = unlocked_with_loss(original, store, dirs, pairs, d);
    let e1 = with_store(e0, store, None);
    let e2 = Disk { vault: None, ..e1 };
    let e3 = unlocked(original, store, dirs, pairs, d);
    let drop = Action::DropStore(store);
    let unmark = seq![Task::<Seq<char>, Seq<u8>>::Do(Action::Unmark)];
    let rest = seq![Task::<Seq<char>, Seq<u8>>::Do(Action::DropVault)] + unmark;
    unlocked_tree(original, store, dirs, pairs, d);
    assert(got_back(original, d.tree, e0.tree)) by {
        assert forall|p: Seq<char>| #[trigger] original.contains_key(p) implies e0.tree.contains_key(
            p,
        ) && e0.tree[p] == original[p] by {
            if has_file(original, p) {
                let i = choose|i: int| 0 <= i < pairs.len() && #[trigger] pairs[i].0 == p;
                assert(survives(store, pairs[i], d));
            } else {
                assert(has_dir(original, p));
            }
        }
    }
    assert(keeps(e0)) by {
        lemma_unlocked_restarts(original, store, dirs, pairs, v, d, e0);
    }
    assert(keeps(e1)) by {
        lemma_unlocked_restarts(original, store, dirs, pairs, v, d, e1);
    }
    let s = running(seq![Task::Settle(store)] + (rest + Seq::empty()), n, none);
    assert(rest + Seq::<Step>::empty() =~= rest);
    assert((seq![Task::Settle(store)] + rest).drop_first() =~= rest);
    assert(s == running(seq![Task::Do(drop)] + rest, n, none));
    assert(seq![Task::<Seq<char>, Seq<u8>>::Settle(store)] + seq![
        Task::Do(Action::DropVault),
        Task::Do(Action::Unmark),
    ] =~= seq![Task::Settle(store)] + rest);
    lemma_do(w, keeps, drop, rest, n, none, e0);
    assert(perform(w, e0, drop).0 == e1);
    lemma_do(w, keeps, Action::DropVault, unmark, n, none, e1);
    assert(perform(w, e1, Action::DropVault).0 =~= e2);
    lemma_then(w, keeps, s, e0, running(rest, n, none), e1, running(unmark, n, none), e2);
    assert(unmark =~= unmark + Seq::<Step>::empty());
    assert(perform(w, e2, Action::Unmark).0 =~= e3);
    lemma_do(w, keeps, Action::Unmark, Seq::empty(), n, none, e2);
    lemma_then(
        w,
        keeps,
        s,
        e0,
        running(unmark, n, none),
        e2,
        running(Seq::empty(), n, none),
        e3,
    );
}

/// Once everything is back, an unlock can start anew with or without the store.
proof fn lemma_unlocked_restarts(
    original: Tree,
    store: Store,
    dirs: Seq<Seq<char>>,
    pairs: Seq<Pair>,
    v: Seq<u8>,
    d: Disk,
    e: Disk,
)
    requires
        names_tree(original, dirs, pairs),
        d.vault == Some(v),
        e.vault == Some(v),
        unlockable(original, store, pairs, d),
        nothing_lost(store, pairs, d),
        e.tree == restored(original, store, dirs, pairs, d, pairs.len()).tree,
        store_of(e, store) is None || store_of(e, store) == store_of(
            restored(original, store, dirs, pairs, d, pairs.len()),
            store,
        ),
    ensures
        can_restart(original, store, pairs, v, d, e),
{
    let n = pairs.len();
    let made = with_tree(d, with_dirs(d.tree, dirs, dirs.len()));
    let r = restored(original, store, dirs, pairs, d, n);
    unlocked_tree(original, store, dirs, pairs, d);
    lemma_dirs_underway(original, store, dirs, pairs, d, dirs.len());
    lemma_tree_after_dirs(original, store, dirs, pairs, made, n);
    assert forall|i: int| 0 <= i < pairs.len() implies !stores(e, store, (#[trigger] pairs[i]).1)
        && has_file(e.tree, pairs[i].0) && content(e.tree, pairs[i].0) == content(
        original,
        pairs[i].0,
    ) by {
        assert(survives(store, pairs[i], d));
        assert(has_file(original, pairs[i].0));
        lemma_store_after(store, pairs, made, r, n, i);
    }
}

proof fn lemma_marked(original: Tree, store: Store, pairs: Seq<Pair>, v: Seq<u8>, d: Disk)
    requires
        unlockable(original, store, pairs, d),
    ensures
        unlockable(original, store, pairs, marked(d)),
        nothing_lost(store, pairs, marked(d)) == nothing_lost(store, pairs, d),
        restartable(original, store, pairs, v, marked(d)) == restartable(
            original,
            store,
            pairs,
            v,
            d,
        ),
{
    let m = marked(d);
    assert forall|i: int| 0 <= i < pairs.len() implies survives(store, #[trigger] pairs[i], m)
        == survives(store, pairs[i], d) by {}
    assert forall|i: int| 0 <= i < pairs.len() && stores(
        m,
        store,
        (#[trigger] pairs[i]).1,
    ) implies stored_content(m, store, pairs[i].1) == content(original, pairs[i].0) by {
        assert(stores(d, store, pairs[i].1));
    }
    if nothing_lost(store, pairs, d) {
        assert(nothing_lost(store, pairs, m)) by {
            assert forall|i: int| 0 <= i < pairs.len() implies survives(
                store,
                #[trigger] pairs[i],
                m,
            ) by {
                assert(survives(store, pairs[i], d));
            }
        }
    }
    if nothing_lost(store, pairs, m) {
        assert(nothing_lost(store, pairs, d)) by {
            assert forall|i: int| 0 <= i < pairs.len() implies survives(
                store,
                #[trigger] pairs[i],
                d,
            ) by {
                assert(survives(store, pairs[i], m));
            }
        }
    }
    let f = restartable(original, store, pairs, v, m);
    let g = restartable(original, store, pairs, v, d);
    assert forall|e: Disk| #[trigger] f(e) == g(e) by {
        if can_restart(original, store, pairs, v, m, e) {
            assert forall|i: int| 0 <= i < pairs.len() implies (survives(
                store,
                #[trigger] pairs[i],
                d,
            ) <==> survives(store, pairs[i], e)) by {
                assert(survives(store, pairs[i], m) <==> survives(store, pairs[i], e));
            }
        }
        if can_restart(original, store, pairs, v, d, e) {
            assert forall|i: int| 0 <= i < pairs.len() implies (survives(
                store,
                #[trigger] pairs[i],
                m,
            ) <==> survives(store, pairs[i], e)) by {
                assert(survives(store, pairs[i], d) <==> survives(store, pairs[i], e));
            }
        }
    }
    assert(f =~= g);
}

/// The reading for an unlock from a store.
pub open spec fn store_reading(store: Store) -> Reading {
    match store {
        Store::Streams => Reading::Streams,
        Store::Container => Reading::Container,
    }
}

proof fn lemma_unlock_to_settle(
    w: World,
    mode: LockMode,
    original: Tree,
    pinned: Set<Seq<char>>,
    l: Listed,
    v: Seq<u8>,
    from: Option<u64>,
    progress: bool,
    d: Disk,
)
    requires
        mode != LockMode::Full,
        lockable(original, pinned, l),
        d.vault == Some(v),
        unlockable(original, mode_store(mode), stored_pairs(sorted_listing(l).files), d),
    ensures
        ({
            let s = sorted_listing(l);
            let store = mode_store(mode);
            let pairs = stored_pairs(s.files);
            gets_to(
                w,
                restartable(original, store, pairs, v, d),
                initial(
                    unlock_plan(mode_byte(mode), w.key, lock_manifest(mode, s), from, progress),
                    0,
                ),
                d,
                running(
                    seq![Task::Settle(store)] + seq![
                        Task::Do(Action::DropVault),
                        Task::Do(Action::Unmark),
                    ],
                    survivors(store, pairs, marked(d), pairs.len()),
                    losses(store, pairs, marked(d), pairs.len()),
                ),
                restored(original, store, s.dirs, pairs, marked(d), pairs.len()),
            )
        }),
{
    let s = sorted_listing(l);
    let store = mode_store(mode);
    let pairs = stored_pairs(s.files);
    let manifest = lock_manifest(mode, s);
    let magic = mode_magic(mode);
    let none = Seq::<Seq<char>>::empty();
    let keeps = restartable(original, store, pairs, v, d);
    let m = marked(d);
    lemma_sorted(original, pinned, l);
    lemma_stored_entries(mode, s);
    folder_manifest_round_trip(mode, store_reading(store), original, pinned, l);
    let entries = stored_entries(s.dirs, pairs);
    assert(manifest_says(magic, store_reading(store), manifest) == (entries, None::<Seq<char>>));
    let total = crate::manifest::announced(magic, manifest);
    let steps = unlock_entries(store, entries, progress, total, entries.len());
    let end = seq![Task::<Seq<char>, Seq<u8>>::Settle(store)] + seq![
        Task::Do(Action::DropVault),
        Task::Do(Action::Unmark),
    ];
    let plan = unlock_plan(mode_byte(mode), w.key, manifest, from, progress);
    let mark = Action::Mark(PendingOp::Decrypt);
    let lift = Action::LiftGuard;
    let lifts = match store {
        Store::Streams => Seq::<Step>::empty(),
        Store::Container => seq![Task::<Seq<char>, Seq<u8>>::Do(lift)],
    };
    assert(plan =~= seq![Task::Do(mark)] + (lifts + (steps + end)));
    lemma_marked(original, store, pairs, v, d);
    assert(keeps(d)) by {
        assert(can_restart(original, store, pairs, v, d, d));
    }
    assert forall|e: Disk| #[trigger] underway(original, store, pairs, m, e) implies keeps(e) by {
        assert(can_restart(original, store, pairs, v, m, e));
        assert(restartable(original, store, pairs, v, m)(e));
    }
    assert(underway(original, store, pairs, m, m)) by {
        assert(m =~= with_store(
            Disk { tree: m.tree, draft: m.draft, ..m },
            store,
            store_of(m, store),
        ));
    }
    let st = running(plan, 0, none);
    assert(perform(w, d, mark) == (m, Answer::Done));
    lemma_do(w, keeps, mark, lifts + (steps + end), 0, none, d);
    if store == Store::Container {
        lemma_do(w, keeps, lift, steps + end, 0, none, m);
        lemma_then(
            w,
            keeps,
            st,
            d,
            running(lifts + (steps + end), 0, none),
            m,
            running(steps + end, 0, none),
            m,
        );
    } else {
        assert(lifts + (steps + end) =~= steps + end);
    }
    unlocking_restores_survivors(
        w,
        keeps,
        original,
        store,
        s.dirs,
        pairs,
        progress,
        total,
        pairs.len(),
        end,
        0,
        none,
        m,
    );
    let lost = losses(store, pairs, m, pairs.len());
    assert(none + lost =~= lost);
    lemma_then(
        w,
        keeps,
        st,
        d,
        running(steps + end, 0, none),
        m,
        running(end, survivors(store, pairs, m, pairs.len()), lost),
        restored(original, store, s.dirs, pairs, m, pairs.len()),
    );
}

/// Unlocking from a store, where all files are to be had, counts every file, gives
/// back the original tree with every content, and removes the vault, the journal
/// and the store. That holds of a locked folder, of one whose unlock was
/// interrupted, and of one that was unlocked already; and whenever it is
/// interrupted, it can start anew.
#[verifier::rlimit(30)]
pub proof fn unlocking_from_store_restores(
    w: World,
    mode: LockMode,
    original: Tree,
    pinned: Set<Seq<char>>,
    l: Listed,
    salt: Seq<u8>,
    ct: Seq<u8>,
    progress: bool,
    d: Disk,
)
    requires
        mode != LockMode::Full,
        lockable(original, pinned, l),
        seals(w.key, lock_manifest(mode, sorted_listing(l)), ct),
        salt.len() == 16,
        d.vault == Some(vault_of(w, mode, original, sorted_listing(l), salt, ct)),
        unlockable(original, mode_store(mode), stored_pairs(sorted_listing(l).files), d),
        nothing_lost(mode_store(mode), stored_pairs(sorted_listing(l).files), d),
    ensures
        ({
            let s = sorted_listing(l);
            let store = mode_store(mode);
            let pairs = stored_pairs(s.files);
            let v = vault_of(w, mode, original, s, salt, ct);
            let e = unlocked(original, store, s.dirs, pairs, marked(d));
            &&& open_manifest(mode_byte(mode), w.key, vault_body(v)) matches Ok(manifest)
            &&& gets_to(
                w,
                restartable(original, store, pairs, v, d),
                initial(
                    unlock_plan(
                        mode_byte(mode),
                        w.key,
                        manifest,
                        numbering(manifest, vault_body(v)),
                        progress,
                    ),
                    0,
                ),
                d,
                running(Seq::empty(), l.files.len(), Seq::empty()),
                e,
            )
            &&& got_back(original, d.tree, e.tree)
            &&& e.vault is None
            &&& e.state is None
            &&& store_of(e, store) is None
        }),
{
    let s = sorted_listing(l);
    let store = mode_store(mode);
    let pairs = stored_pairs(s.files);
    let manifest = lock_manifest(mode, s);
    let v = vault_of(w, mode, original, s, salt, ct);
    let m = marked(d);
    let e = unlocked(original, store, s.dirs, pairs, m);
    vault_opens(w, mode, original, s, salt, ct, manifest);
    lemma_sorted(original, pinned, l);
    lemma_marked(original, store, pairs, v, d);
    let from = numbering(manifest, vault_body(v));
    lemma_unlock_to_settle(w, mode, original, pinned, l, v, from, progress, d);
    lemma_losses(store, pairs, m, pairs.len());
    assert(losses(store, pairs, m, pairs.len()) =~= Seq::empty());
    lemma_settle(w, original, store, s.dirs, pairs, v, m);
    let back = restored(original, store, s.dirs, pairs, m, pairs.len());
    assert(marked(back) =~= back);
    lemma_then(
        w,
        restartable(original, store, pairs, v, d),
        initial(unlock_plan(mode_byte(mode), w.key, manifest, from, progress), 0),
        d,
        running(
            seq![Task::Settle(store)] + seq![
                Task::Do(Action::DropVault),
                Task::Do(Action::Unmark),
            ],
            pairs.len(),
            Seq::empty(),
        ),
        back,
        running(Seq::empty(), pairs.len(), Seq::empty()),
        e,
    );
}

/// Unlocking from a store, where some files are lost, gives back every directory
/// and every other file, fails with a message that counts the files that are back
/// and names those that are lost, and keeps the vault and the journal.
#[verifier::rlimit(30)]
pub proof fn losses_are_reported(
    w: World,
    mode: LockMode,
    original: Tree,
    pinned: Set<Seq<char>>,
    l: Listed,
    salt: Seq<u8>,
    ct: Seq<u8>,
    progress: bool,
    d: Disk,
)
    requires
        mode != LockMode::Full,
        lockable(original, pinned, l),
        seals(w.key, lock_manifest(mode, sorted_listing(l)), ct),
        salt.len() == 16,
        d.vault == Some(vault_of(w, mode, original, sorted_listing(l), salt, ct)),
        unlockable(original, mode_store(mode), stored_pairs(sorted_listing(l).files), d),
        !nothing_lost(mode_store(mode), stored_pairs(sorted_listing(l).files), d),
    ensures
        ({
            let s = sorted_listing(l);
            let store = mode_store(mode);
            let pairs = stored_pairs(s.files);
            let v = vault_of(w, mode, original, s, salt, ct);
            let e = unlocked_with_loss(original, store, s.dirs, pairs, marked(d));
            let back = survivors(store, pairs, marked(d), pairs.len());
            let lost = losses(store, pairs, marked(d), pairs.len());
            &&& open_manifest(mode_byte(mode), w.key, vault_body(v)) matches Ok(manifest)
            &&& gets_to(
                w,
                restartable(original, store, pairs, v, d),
                initial(
                    unlock_plan(
                        mode_byte(mode),
                        w.key,
                        manifest,
                        numbering(manifest, vault_body(v)),
                        progress,
                    ),
                    0,
                ),
                d,
                State {
                    todo: Seq::empty(),
                    count: back,
                    lost,
                    outcome: Some(Err(loss_message(back, lost))),
                },
                e,
            )
            &&& e.vault == Some(v)
            &&& e.state == Some(PendingOp::Decrypt)
            &&& lost.len() + back == l.files.len()
            &&& forall|p: Seq<char>| #[trigger]
                has_dir(original, p) ==> e.tree.contains_key(p) && e.tree[p] == original[p]
            &&& forall|i: int|
                0 <= i < pairs.len() ==> if survives(store, #[trigger] pairs[i], d) {
                    e.tree.contains_key(pairs[i].0) && e.tree[pairs[i].0] == original[pairs[i].0]
                } else {
                    !has_file(e.tree, pairs[i].0)
                }
        }),
{
    let s = sorted_listing(l);
    let store = mode_store(mode);
    let pairs = stored_pairs(s.files);
    let manifest = lock_manifest(mode, s);
    let v = vault_of(w, mode, original, s, salt, ct);
    let m = marked(d);
    let back = restored(original, store, s.dirs, pairs, m, pairs.len());
    vault_opens(w, mode, original, s, salt, ct, manifest);
    lemma_sorted(original, pinned, l);
    lemma_marked(original, store, pairs, v, d);
    let from = numbering(manifest, vault_body(v));
    lemma_unlock_to_settle(w, mode, original, pinned, l, v, from, progress, d);
    lemma_losses(store, pairs, m, pairs.len());
    unlocked_tree(original, store, s.dirs, pairs, m);
    assert(marked(back) =~= back);
    assert forall|i: int| 0 <= i < pairs.len() implies survives(store, #[trigger] pairs[i], m)
        == survives(store, pairs[i], d) by {}
    let end = seq![Task::<Seq<char>, Seq<u8>>::Settle(store)] + seq![
        Task::Do(Action::DropVault),
        Task::Do(Action::Unmark),
    ];
    let c = survivors(store, pairs, m, pairs.len());
    let lost = losses(store, pairs, m, pairs.len());
    assert(lost.len() > 0) by {
        if lost.len() == 0 {
            assert(nothing_lost(store, pairs, m));
        }
    }
    assert(end[0] == Task::<Seq<char>, Seq<u8>>::Settle(store));
    assert(running(end, c, lost) == (State {
        todo: Seq::empty(),
        count: c,
        lost,
        outcome: Some(Err(loss_message(c, lost))),
    }));
}

/// The disk with its vault opened and read up to its first stream.
pub open spec fn reopened(d: Disk) -> Disk {
    Disk { unread: vault_rest(d.vault->0), ..d }
}

/// Can the unlock of a streamed vault start anew?
pub open spec fn reopens(original: Tree, files: Seq<Seq<char>>, v: Seq<u8>, e: Disk) -> bool {
    e.vault == Some(v) && openable(original, files, e)
}

/// What an unlock of a streamed vault keeps at all times: it can start anew, or it
/// is done.
pub open spec fn reopenable(
    original: Tree,
    files: Seq<Seq<char>>,
    v: Seq<u8>,
    d: Disk,
) -> spec_fn(Disk) -> bool {
    |e: Disk|
        reopens(original, files, v, e) || (e.vault is None && got_back(original, d.tree, e.tree))
}

/// The disk at the end of unlocking a streamed vault, where `left` is what is left to
/// read of it after some of the files.
pub open spec fn stream_unlocked(
    original: Tree,
    l: Listed,
    left: spec_fn(nat) -> Seq<u8>,
    d: Disk,
) -> Disk {
    let s = sorted_listing(l);
    Disk {
        vault: None,
        state: None,
        ..opened(original, s.dirs, s.files, left, marked(reopened(d)), s.files.len())
    }
}

pub(crate) proof fn lemma_openable_marked(original: Tree, files: Seq<Seq<char>>, d: Disk, e: Disk)
    requires
        openable(original, files, d),
        e.tree == d.tree,
    ensures
        openable(original, files, e),
{
    let pairs = stored_pairs(files);
    let u = as_streams(original, files, d);
    let v = as_streams(original, files, e);
    assert(store_of(u, Store::Streams)->0 =~= store_of(v, Store::Streams)->0);
    assert forall|i: int| 0 <= i < pairs.len() && stores(
        v,
        Store::Streams,
        (#[trigger] pairs[i]).1,
    ) implies stored_content(v, Store::Streams, pairs[i].1) == content(original, pairs[i].0) by {
        assert(stores(u, Store::Streams, pairs[i].1));
    }
}

proof fn lemma_left_in(
    w: World,
    original: Tree,
    s: Listed,
    salt: Seq<u8>,
    ct: Seq<u8>,
    v: Seq<u8>,
    n: nat,
)
    requires
        n <= s.files.len(),
        salt.len() == 16,
        ct.len() <= 0xFFFF_FFFF,
        seals_well(w),
        sealable(original, s.files),
        begins_with(v, streams_upto(w, original, s, salt, ct, n)),
    ensures
        begins_with(v, stream_head(salt, ct)),
        vault_body(v) == ct,
        vault_rest(v) == left_in(w, original, s, salt, ct, v)(0),
        reads_in_turn(
            w,
            Some(numbers_from(ct)),
            s.dirs.len(),
            original,
            s.files,
            left_in(w, original, s, salt, ct, v),
            n,
        ),
{
    let from = numbers_from(ct);
    let at = s.dirs.len();
    let head = stream_head(salt, ct);
    let left = left_in(w, original, s, salt, ct, v);
    let front = streams_upto(w, original, s, salt, ct, n);
    lemma_draft_grows(w, from, at, original, s.files, head, 0, n);
    assert(v.take(head.len() as int) =~= front.take(head.len() as int));
    stream_head_reads_back(salt, ct, v);
    assert forall|k: nat| k < n implies #[trigger] reads_next(
        w,
        Some(from),
        at,
        original,
        s.files,
        left,
        k,
    ) by {
        streams_read_in_turn(w, from, at, original, s.files, head, v, n, k);
    }
}

/// Unlocking a streamed vault gets to the entries behind the first `k` files, where
/// the streams of those are read in turn.
proof fn lemma_open_upto(
    w: World,
    keeps: spec_fn(Disk) -> bool,
    original: Tree,
    pinned: Set<Seq<char>>,
    l: Listed,
    from: Option<u64>,
    left: spec_fn(nat) -> Seq<u8>,
    progress: bool,
    v: Seq<u8>,
    k: nat,
    rest: Seq<Step>,
    d: Disk,
)
    requires
        lockable(original, pinned, l),
        k <= l.files.len(),
        vault_rest(v) == left(0),
        reads_in_turn(
            w,
            from,
            sorted_listing(l).dirs.len(),
            original,
            sorted_listing(l).files,
            left,
            k,
        ),
        d.vault == Some(v),
        openable(original, sorted_listing(l).files, d),
        forall|e: Disk| #[trigger]
            reopens(original, sorted_listing(l).files, v, e) ==> keeps(e),
    ensures
        ({
            let s = sorted_listing(l);
            let m = marked(reopened(d));
            let e = opened(original, s.dirs, s.files, left, m, k);
            &&& gets_to(
                w,
                keeps,
                running(
                    seq![Task::Do(Action::Mark(PendingOp::Decrypt))] + (open_entries(
                        from,
                        plain_entries(s.dirs, s.files),
                        progress,
                        s.dirs.len() + k,
                    ) + rest),
                    0,
                    Seq::empty(),
                ),
                reopened(d),
                running(rest, k, Seq::empty()),
                e,
            )
            &&& reopens(original, s.files, v, e)
            &&& openable(original, s.files, m)
        }),
{
    let s = sorted_listing(l);
    let files = s.files;
    let none = Seq::<Seq<char>>::empty();
    let r = reopened(d);
    let m = marked(r);
    let mark = Action::Mark(PendingOp::Decrypt);
    let steps = open_entries(from, plain_entries(s.dirs, files), progress, s.dirs.len() + k);
    lemma_sorted(original, pinned, l);
    lemma_openable_marked(original, files, d, r);
    lemma_openable_marked(original, files, d, m);
    assert(reopens(original, files, v, r) && reopens(original, files, v, m));
    assert(perform(w, r, mark) == (m, Answer::Done));
    lemma_do(w, keeps, mark, steps + rest, 0, none, r);
    assert forall|e: Disk| #[trigger] opening(original, files, m, e) implies keeps(e) by {
        assert(reopens(original, files, v, e));
    }
    opening_restores_every_file(
        w,
        keeps,
        from,
        original,
        s.dirs,
        files,
        left,
        progress,
        k,
        rest,
        0,
        none,
        m,
    );
    lemma_opening_files(original, s.dirs, files, left, m, k);
    lemma_then(
        w,
        keeps,
        running(seq![Task::Do(mark)] + (steps + rest), 0, none),
        r,
        running(steps + rest, 0, none),
        m,
        running(rest, k, none),
        opened(original, s.dirs, files, left, m, k),
    );
}

/// Unlocking a streamed vault whose streams are all read in turn ends with every file
/// counted and the tree back.
#[verifier::rlimit(30)]
proof fn lemma_open_all(
    w: World,
    original: Tree,
    pinned: Set<Seq<char>>,
    l: Listed,
    from: Option<u64>,
    left: spec_fn(nat) -> Seq<u8>,
    manifest: Seq<u8>,
    progress: bool,
    v: Seq<u8>,
    d: Disk,
)
    requires
        lockable(original, pinned, l),
        manifest_says(Magic::Full, Reading::Meta, manifest) == (
            plain_entries(sorted_listing(l).dirs, sorted_listing(l).files),
            None::<Seq<char>>,
        ),
        vault_rest(v) == left(0),
        reads_in_turn(
            w,
            from,
            sorted_listing(l).dirs.len(),
            original,
            sorted_listing(l).files,
            left,
            l.files.len(),
        ),
        d.vault == Some(v),
        openable(original, sorted_listing(l).files, d),
    ensures
        gets_to(
            w,
            reopenable(original, sorted_listing(l).files, v, d),
            initial(unlock_plan(MODE_FULL_STREAM, w.key, manifest, from, progress), 0),
            reopened(d),
            running(Seq::empty(), l.files.len(), Seq::empty()),
            stream_unlocked(original, l, left, d),
        ),
        got_back(original, d.tree, stream_unlocked(original, l, left, d).tree),
{
    let s = sorted_listing(l);
    let files = s.files;
    let n = files.len();
    let none = Seq::<Seq<char>>::empty();
    let keeps = reopenable(original, files, v, d);
    let r = reopened(d);
    let m = marked(r);
    lemma_sorted(original, pinned, l);
    let entries = plain_entries(s.dirs, files);
    let steps = open_entries(from, entries, progress, entries.len());
    let mark = Action::Mark(PendingOp::Decrypt);
    let unmark = seq![Task::<Seq<char>, Seq<u8>>::Do(Action::Unmark)];
    let end = seq![Task::<Seq<char>, Seq<u8>>::Do(Action::DropVault)] + unmark;
    let plan = unlock_plan(MODE_FULL_STREAM, w.key, manifest, from, progress);
    assert(plan =~= seq![Task::Do(mark)] + (steps + end));
    let st = running(plan, 0, none);
    lemma_open_upto(w, keeps, original, pinned, l, from, left, progress, v, n, end, d);
    let e0 = opened(original, s.dirs, files, left, m, n);
    assert(got_back(original, d.tree, e0.tree)) by {
        lemma_opened_tree(original, s.dirs, files, left, m);
    }
    let e1 = Disk { vault: None, ..e0 };
    let e2 = stream_unlocked(original, l, left, d);
    lemma_do(w, keeps, Action::DropVault, unmark, n, none, e0);
    assert(perform(w, e0, Action::DropVault).0 =~= e1);
    lemma_then(w, keeps, st, r, running(end, n, none), e0, running(unmark, n, none), e1);
    assert(unmark =~= unmark + Seq::<Step>::empty());
    assert(perform(w, e1, Action::Unmark).0 =~= e2);
    lemma_do(w, keeps, Action::Unmark, Seq::empty(), n, none, e1);
    lemma_then(
        w,
        keeps,
        st,
        r,
        running(unmark, n, none),
        e1,
        running(Seq::empty(), n, none),
        e2,
    );
}

/// Unlocking a streamed vault counts every file, gives back the original tree with
/// every content, and removes the vault and the journal. That holds of a locked
/// folder and of one whose unlock was interrupted; and whenever it is interrupted,
/// it can start anew.
pub proof fn unlocking_streams_restores(
    w: World,
    original: Tree,
    pinned: Set<Seq<char>>,
    l: Listed,
    salt: Seq<u8>,
    ct: Seq<u8>,
    progress: bool,
    d: Disk,
)
    requires
        works(w),
        lockable(original, pinned, l),
        seals(w.key, lock_manifest(LockMode::Full, sorted_listing(l)), ct),
        salt.len() == 16,
        meta_fits(LockMode::Full, ct),
        sealable(original, sorted_listing(l).files),
        d.vault == Some(
            vault_of(w, LockMode::Full, original, sorted_listing(l), salt, ct),
        ),
        openable(original, sorted_listing(l).files, d),
    ensures
        ({
            let s = sorted_listing(l);
            let v = vault_of(w, LockMode::Full, original, s, salt, ct);
            let e = stream_unlocked(original, l, left_in(w, original, s, salt, ct, v), d);
            &&& open_manifest(MODE_FULL_STREAM, w.key, vault_body(v)) matches Ok(manifest)
            &&& gets_to(
                w,
                reopenable(original, s.files, v, d),
                initial(
                    unlock_plan(
                        MODE_FULL_STREAM,
                        w.key,
                        manifest,
                        numbering(manifest, vault_body(v)),
                        progress,
                    ),
                    0,
                ),
                reopened(d),
                running(Seq::empty(), l.files.len(), Seq::empty()),
                e,
            )
            &&& got_back(original, d.tree, e.tree)
            &&& e.vault is None
            &&& e.state is None
        }),
{
    let mode = LockMode::Full;
    let s = sorted_listing(l);
    let manifest = lock_manifest(mode, s);
    let v = vault_of(w, mode, original, s, salt, ct);
    let left = left_in(w, original, s, salt, ct, v);
    vault_opens(w, mode, original, s, salt, ct, manifest);
    lemma_sorted(original, pinned, l);
    lemma_stored_entries(mode, s);
    lemma_numbered(s, ct);
    folder_manifest_round_trip(mode, Reading::Meta, original, pinned, l);
    assert(v.take(v.len() as int) =~= v);
    lemma_left_in(w, original, s, salt, ct, v, s.files.len());
    let from = Some(numbers_from(ct));
    lemma_open_all(w, original, pinned, l, from, left, manifest, progress, v, d);
}

// ── streamed vaults of an earlier version ──

/// The metadata of a folder under a given version.
pub open spec fn versioned_meta(version: int, s: Listed) -> Seq<u8> {
    versioned_manifest(Magic::Full, version, lock_entries(LockMode::Full, s))
}

/// Does each stream hold the content of its file, under whatever nonce?
pub open spec fn hold_contents(
    key: Seq<u8>,
    tree: Tree,
    files: Seq<Seq<char>>,
    streams: Seq<Seq<u8>>,
) -> bool {
    &&& streams.len() == files.len()
    &&& forall|i: int|
        0 <= i < files.len() ==> stream_holds(key, #[trigger] streams[i], content(tree, files[i]))
}

/// What is left of some streams behind the first ones.
pub open spec fn left_among(streams: Seq<Seq<u8>>) -> spec_fn(nat) -> Seq<u8> {
    |k: nat| joined(streams.skip(k as int))
}

proof fn lemma_joined_first(streams: Seq<Seq<u8>>)
    requires
        streams.len() > 0,
    ensures
        joined(streams) == streams[0] + joined(streams.skip(1)),
    decreases streams.len(),
{
    if streams.len() > 1 {
        let front = streams.drop_last();
        lemma_joined_first(front);
        assert(streams.skip(1).drop_last() =~= front.skip(1));
        assert(streams.skip(1).last() == streams.last());
        assert(streams[0] + joined(front.skip(1)) + streams.last() =~= streams[0] + (joined(
            front.skip(1),
        ) + streams.last()));
    } else {
        assert(streams.drop_last() =~= Seq::empty());
        assert(streams.skip(1) =~= Seq::empty());
        assert(Seq::<u8>::empty() + streams[0] =~= streams[0] + Seq::<u8>::empty());
    }
}

proof fn lemma_reads_among(
    w: World,
    at: nat,
    tree: Tree,
    files: Seq<Seq<char>>,
    streams: Seq<Seq<u8>>,
)
    requires
        hold_contents(w.key, tree, files, streams),
    ensures
        reads_in_turn(w, None, at, tree, files, left_among(streams), files.len()),
{
    let left = left_among(streams);
    assert forall|k: nat| k < files.len() implies #[trigger] reads_next(
        w,
        None,
        at,
        tree,
        files,
        left,
        k,
    ) by {
        let behind = streams.skip(k as int);
        lemma_joined_first(behind);
        assert(behind.skip(1) =~= streams.skip((k + 1) as int));
        assert(stream_holds(w.key, streams[k as int], content(tree, files[k as int])));
        assert(left(k) == streams[k as int] + left(k + 1));
        assert(open_stream(w.key, streams[k as int] + left(k + 1)) == read_through(
            content(tree, files[k as int]),
            left(k + 1),
        ));
    }
}

/// Unlocking a streamed vault whose metadata does not number the streams, with
/// streams under any nonces, counts every file, gives back the original tree with
/// every content, and removes the vault and the journal; and whenever it is
/// interrupted, it can start anew.
pub proof fn unlocking_unnumbered_streams_restores(
    w: World,
    original: Tree,
    pinned: Set<Seq<char>>,
    l: Listed,
    version: int,
    salt: Seq<u8>,
    ct: Seq<u8>,
    streams: Seq<Seq<u8>>,
    progress: bool,
    d: Disk,
)
    requires
        lockable(original, pinned, l),
        le16(version) != le16(3),
        seals(w.key, versioned_meta(version, sorted_listing(l)), ct),
        salt.len() == 16,
        meta_fits(LockMode::Full, ct),
        hold_contents(w.key, original, sorted_listing(l).files, streams),
        d.vault == Some(stream_head(salt, ct) + joined(streams)),
        openable(original, sorted_listing(l).files, d),
    ensures
        ({
            let v = d.vault->0;
            let e = stream_unlocked(original, l, left_among(streams), d);
            &&& salt_of(v) == Ok::<Seq<u8>, Seq<char>>(salt)
            &&& mode_of(v) == Ok::<u8, Seq<char>>(MODE_FULL_STREAM)
            &&& open_manifest(MODE_FULL_STREAM, w.key, vault_body(v)) matches Ok(manifest)
            &&& numbering(manifest, vault_body(v)) is None
            &&& gets_to(
                w,
                reopenable(original, sorted_listing(l).files, v, d),
                initial(
                    unlock_plan(
                        MODE_FULL_STREAM,
                        w.key,
                        manifest,
                        numbering(manifest, vault_body(v)),
                        progress,
                    ),
                    0,
                ),
                reopened(d),
                running(Seq::empty(), l.files.len(), Seq::empty()),
                e,
            )
            &&& got_back(original, d.tree, e.tree)
            &&& e.vault is None
            &&& e.state is None
        }),
{
    let mode = LockMode::Full;
    let s = sorted_listing(l);
    let manifest = versioned_meta(version, s);
    let head = stream_head(salt, ct);
    let v = d.vault->0;
    let left = left_among(streams);
    assert(v.take(head.len() as int) =~= head);
    stream_head_reads_back(salt, ct, v);
    assert(v.skip(head.len() as int) =~= joined(streams));
    assert(streams.skip(0) =~= streams);
    assert(manifest.subrange(8, 10) =~= le16(version));
    lemma_sorted(original, pinned, l);
    lemma_stored_entries(mode, s);
    versioned_manifest_round_trip(mode, version, Reading::Meta, original, pinned, l);
    lemma_reads_among(w, s.dirs.len(), original, s.files, streams);
    lemma_open_all(w, original, pinned, l, None, left, manifest, progress, v, d);
}

proof fn lemma_opened_tree(
    original: Tree,
    dirs: Seq<Seq<char>>,
    files: Seq<Seq<char>>,
    left: spec_fn(nat) -> Seq<u8>,
    d: Disk,
)
    requires
        names_tree(original, dirs, stored_pairs(files)),
        openable(original, files, d),
    ensures
        got_back(
            original,
            d.tree,
            opened(original, dirs, files, left, d, files.len()).tree,
        ),
{
    let pairs = stored_pairs(files);
    let v = as_streams(original, files, d);
    let tree = opened(original, dirs, files, left, d, files.len()).tree;
    unlocked_tree(original, Store::Streams, dirs, pairs, v);
    let made = with_tree(d, with_dirs(d.tree, dirs, dirs.len()));
    assert(as_streams(original, files, made) == with_tree(v, with_dirs(v.tree, dirs, dirs.len())));
    assert(tree == restored(original, Store::Streams, dirs, pairs, v, pairs.len()).tree);
    assert forall|p: Seq<char>| #[trigger] original.contains_key(p) implies tree.contains_key(p)
        && tree[p] == original[p] by {
        if has_file(original, p) {
            let i = choose|i: int| 0 <= i < pairs.len() && #[trigger] pairs[i].0 == p;
            lemma_as_streams(original, files, d, i);
            assert(survives(Store::Streams, pairs[i], v));
        } else {
            assert(has_dir(original, p));
        }
    }
}

/// The entries behind some are restored after them.
proof fn lemma_open_entries_split(
    from: Option<u64>,
    entries: Seq<Entry>,
    progress: bool,
    m: nat,
    n: nat,
) -> (rest: Seq<Step>)
    requires
        m <= n,
    ensures
        open_entries(from, entries, progress, n) == open_entries(from, entries, progress, m) + rest,
    decreases n,
{
    let front = open_entries(from, entries, progress, m);
    if m == n {
        assert(front + Seq::<Step>::empty() =~= front);
        Seq::empty()
    } else {
        let j = (n - 1) as nat;
        let before = lemma_open_entries_split(from, entries, progress, m, j);
        let one = open_entry(number_due(from, j), entries[j as int]);
        let told = report(progress, n, entries.len());
        assert(front + before + one + told =~= front + (before + one + told));
        before + one + told
    }
}

/// What an unlock of a streamed vault that fails keeps at all times: it can start
/// anew.
pub open spec fn keeps_reopening(
    original: Tree,
    files: Seq<Seq<char>>,
    v: Seq<u8>,
) -> spec_fn(Disk) -> bool {
    |e: Disk| reopens(original, files, v, e)
}

/// The disk on which an unlock stops because the stream behind the first `k` files is
/// not the one that is due.
pub open spec fn stopped_disk(
    w: World,
    original: Tree,
    s: Listed,
    salt: Seq<u8>,
    ct: Seq<u8>,
    k: nat,
    d: Disk,
) -> Disk {
    Disk {
        draft: Some(Seq::empty()),
        ..opened(
            original,
            s.dirs,
            s.files,
            left_in(w, original, s, salt, ct, d.vault->0),
            marked(reopened(d)),
            k,
        )
    }
}

/// A job that stopped because a stream is not the one that is due.
pub open spec fn stopped_job(count: nat) -> State {
    State { todo: Seq::empty(), count, lost: Seq::empty(), outcome: Some(Err(open_error())) }
}

/// A stream that is not the one that is due is refused: where a vault holds the
/// streams of the first `k` files, and then bytes that do not begin with the nonce of
/// the next one, unlocking restores those files, fails with the message for a wrong
/// password or damaged data, and keeps the vault.
#[verifier::rlimit(30)]
pub proof fn stream_that_is_not_due_is_refused(
    w: World,
    original: Tree,
    pinned: Set<Seq<char>>,
    l: Listed,
    salt: Seq<u8>,
    ct: Seq<u8>,
    progress: bool,
    k: nat,
    other: Seq<u8>,
    d: Disk,
)
    requires
        works(w),
        lockable(original, pinned, l),
        seals(w.key, lock_manifest(LockMode::Full, sorted_listing(l)), ct),
        salt.len() == 16,
        meta_fits(LockMode::Full, ct),
        sealable(original, sorted_listing(l).files),
        k < l.files.len(),
        other.len() >= 7,
        other.take(7) != le56(stream_number(numbers_from(ct), l.dirs.len() + k) as int),
        d.vault == Some(streams_upto(w, original, sorted_listing(l), salt, ct, k) + other),
        openable(original, sorted_listing(l).files, d),
    ensures
        ({
            let s = sorted_listing(l);
            let v = d.vault->0;
            let e = stopped_disk(w, original, s, salt, ct, k, d);
            &&& open_manifest(MODE_FULL_STREAM, w.key, vault_body(v)) matches Ok(manifest)
            &&& gets_to(
                w,
                keeps_reopening(original, s.files, v),
                initial(
                    unlock_plan(
                        MODE_FULL_STREAM,
                        w.key,
                        manifest,
                        numbering(manifest, vault_body(v)),
                        progress,
                    ),
                    0,
                ),
                reopened(d),
                stopped_job(k),
                e,
            )
            &&& e.vault == Some(v)
            &&& e.state == Some(PendingOp::Decrypt)
        }),
{
    let mode = LockMode::Full;
    let s = sorted_listing(l);
    let files = s.files;
    let none = Seq::<Seq<char>>::empty();
    let from = Some(numbers_from(ct));
    let at = s.dirs.len();
    let manifest = lock_manifest(mode, s);
    let front = streams_upto(w, original, s, salt, ct, k);
    let v = d.vault->0;
    let keeps = keeps_reopening(original, files, v);
    let r = reopened(d);
    let m = marked(r);
    lemma_sorted(original, pinned, l);
    lemma_stored_entries(mode, s);
    lemma_numbered(s, ct);
    folder_manifest_round_trip(mode, Reading::Meta, original, pinned, l);
    assert(v.take(front.len() as int) =~= front);
    lemma_left_in(w, original, s, salt, ct, v, k);
    let left = left_in(w, original, s, salt, ct, v);
    let entries = plain_entries(s.dirs, files);
    let rel = files[k as int];
    let due = number_due(from, at + k);
    let parents = Action::MakeParents { rel };
    let open = Action::OpenFile { rel, due };
    let told = report(progress, at + k + 1, entries.len());
    let behind = lemma_open_entries_split(from, entries, progress, at + k + 1, entries.len());
    let end = seq![Task::<Seq<char>, Seq<u8>>::Do(Action::DropVault), Task::Do(Action::Unmark)];
    let tail = seq![Task::Do(open)] + (told + behind + end);
    let rest = seq![Task::Do(parents)] + tail;
    let steps = open_entries(from, entries, progress, at + k);
    let mark = Action::Mark(PendingOp::Decrypt);
    let plan = unlock_plan(MODE_FULL_STREAM, w.key, manifest, from, progress);
    assert(entries[(at + k) as int] == (Entry { rel, is_dir: false, stream: None }));
    assert(open_entry(due, entries[(at + k) as int]) =~= seq![Task::Do(parents), Task::Do(open)]);
    assert(plan =~= seq![Task::Do(mark)] + (steps + rest));
    let st = running(plan, 0, none);
    lemma_open_upto(w, keeps, original, pinned, l, from, left, progress, v, k, rest, d);
    let e0 = opened(original, s.dirs, files, left, m, k);
    let e = stopped_disk(w, original, s, salt, ct, k, d);
    lemma_file_has_place(w, original, s.dirs, files, left, m, k);
    lemma_do(w, keeps, parents, tail, k, none, e0);
    lemma_then(w, keeps, st, r, running(rest, k, none), e0, running(tail, k, none), e0);
    assert(left(k) =~= other);
    assert(perform(w, e0, open) == (e, Answer::Failed(open_error())));
    lemma_openable_marked(original, files, e0, e);
    let s1 = running(tail, k, none);
    assert(s1.todo[0] == Task::<Seq<char>, Seq<u8>>::Do(open));
    lemma_one(w, keeps, s1, e0);
    let stopped = after(s1, Answer::Failed(open_error()));
    assert(stopped == stopped_job(k));
    lemma_then(w, keeps, st, r, s1, e0, stopped, e);
}

/// The stream of one entry in the place of another is refused, as where the streams
/// of two files were exchanged: no number comes twice in a vault.
pub proof fn misplaced_stream_is_refused(
    w: World,
    original: Tree,
    pinned: Set<Seq<char>>,
    l: Listed,
    salt: Seq<u8>,
    ct: Seq<u8>,
    progress: bool,
    k: nat,
    j: nat,
    tail: Seq<u8>,
    d: Disk,
)
    requires
        works(w),
        lockable(original, pinned, l),
        seals(w.key, lock_manifest(LockMode::Full, sorted_listing(l)), ct),
        salt.len() == 16,
        meta_fits(LockMode::Full, ct),
        sealable(original, sorted_listing(l).files),
        k < l.files.len(),
        j < l.files.len(),
        j != k,
        d.vault == Some(
            streams_upto(w, original, sorted_listing(l), salt, ct, k) + numbered_blob(
                w.key,
                stream_number(numbers_from(ct), l.dirs.len() + j),
                content(original, sorted_listing(l).files[j as int]),
            ) + tail,
        ),
        openable(original, sorted_listing(l).files, d),
    ensures
        ({
            let s = sorted_listing(l);
            let v = d.vault->0;
            let e = stopped_disk(w, original, s, salt, ct, k, d);
            &&& open_manifest(MODE_FULL_STREAM, w.key, vault_body(v)) matches Ok(manifest)
            &&& gets_to(
                w,
                keeps_reopening(original, s.files, v),
                initial(
                    unlock_plan(
                        MODE_FULL_STREAM,
                        w.key,
                        manifest,
                        numbering(manifest, vault_body(v)),
                        progress,
                    ),
                    0,
                ),
                reopened(d),
                stopped_job(k),
                e,
            )
            &&& e.vault == Some(v)
            &&& e.state == Some(PendingOp::Decrypt)
        }),
{
    let s = sorted_listing(l);
    let at = l.dirs.len();
    let from = numbers_from(ct);
    let c = content(original, s.files[j as int]);
    let number = stream_number(from, at + j);
    let front = streams_upto(w, original, s, salt, ct, k);
    let blob = numbered_blob(w.key, number, c);
    let other = blob + tail;
    assert(front + blob + tail =~= front + other);
    numbered_blob_has_number(w.key, number, c, tail);
    stream_numbers_differ(from, at + j, at + k);
    stream_that_is_not_due_is_refused(
        w,
        original,
        pinned,
        l,
        salt,
        ct,
        progress,
        k,
        other,
        d,
    );
}

// ── locking again ──

/// Locking a locked folder again gives zero files and does nothing at all, in
/// whatever mode and with whatever key, where no directory was left behind for
/// something protected in it.
pub proof fn locking_again_does_nothing(
    w: World,
    mode: LockMode,
    original: Tree,
    files: Seq<Seq<char>>,
    v: Seq<u8>,
    e: Disk,
    again: LockMode,
    key: Seq<u8>,
    salt: Seq<u8>,
    l: Listed,
    progress: bool,
    plan: Seq<Step>,
    n: nat,
)
    requires
        locked(mode, original, Set::empty(), files, v, e),
        lists(l, e.tree),
        is_lock_plan(again, key, salt, l, progress, plan),
    ensures
        initial(plan, 0).outcome == Some(Ok::<nat, Seq<char>>(0)),
        run(w, n, initial(plan, 0), e) == (initial(plan, 0), e),
{
    if l.dirs.len() > 0 {
        assert(l.dirs.contains(l.dirs[0]));
        assert(has_dir(e.tree, l.dirs[0]));
    }
    if l.files.len() > 0 {
        assert(l.files.contains(l.files[0]));
        assert(has_file(e.tree, l.files[0]));
    }
}

// ── there and back ──

pub(crate) proof fn lemma_locked_unlockable(
    mode: LockMode,
    original: Tree,
    pinned: Set<Seq<char>>,
    l: Listed,
    v: Seq<u8>,
    e: Disk,
)
    requires
        lockable(original, pinned, l),
        locked(mode, original, pinned, sorted_listing(l).files, v, e),
    ensures
        mode != LockMode::Full ==> {
            let pairs = stored_pairs(sorted_listing(l).files);
            &&& unlockable(original, mode_store(mode), pairs, e)
            &&& nothing_lost(mode_store(mode), pairs, e)
        },
        mode == LockMode::Full ==> openable(original, sorted_listing(l).files, e),
{
    let files = sorted_listing(l).files;
    let pairs = stored_pairs(files);
    let store = if mode == LockMode::Full {
        Store::Streams
    } else {
        mode_store(mode)
    };
    let u = if mode == LockMode::Full {
        as_streams(original, files, e)
    } else {
        e
    };
    lemma_sorted(original, pinned, l);
    assert forall|i: int| 0 <= i < pairs.len() implies stores(u, store, (#[trigger] pairs[i]).1)
        && stored_content(u, store, pairs[i].1) == content(original, pairs[i].0) by {
        if mode == LockMode::Full {
            lemma_as_streams(original, files, e, i);
        } else {
            assert(stores(e, mode_store(mode), stored_pairs(files)[i].1));
        }
    }
    assert(fits(u.tree, original));
    assert(unlockable(original, store, pairs, u));
}

/// What unlocking keeps at all times: it can start anew, or it is done.
pub open spec fn unlocking_keeps(
    mode: LockMode,
    original: Tree,
    files: Seq<Seq<char>>,
    v: Seq<u8>,
    d: Disk,
) -> spec_fn(Disk) -> bool {
    match mode {
        LockMode::Full => reopenable(original, files, v, d),
        _ => restartable(original, mode_store(mode), stored_pairs(files), v, d),
    }
}

/// The disk at the end of unlocking a folder whose vault was opened.
pub open spec fn unlocked_disk(
    w: World,
    mode: LockMode,
    original: Tree,
    l: Listed,
    salt: Seq<u8>,
    ct: Seq<u8>,
    d: Disk,
) -> Disk {
    let s = sorted_listing(l);
    match mode {
        LockMode::Full => stream_unlocked(
            original,
            l,
            left_in(w, original, s, salt, ct, d.vault->0),
            d,
        ),
        _ => unlocked(original, mode_store(mode), s.dirs, stored_pairs(s.files), marked(d)),
    }
}

proof fn lemma_stashing_keeps_draft(store: Store, pairs: Seq<Pair>, d: Disk, k: nat)
    ensures
        stashed(store, pairs, d, k).draft == d.draft,
    decreases k,
{
    if k > 0 {
        lemma_stashing_keeps_draft(store, pairs, d, (k - 1) as nat);
    }
}

proof fn lemma_no_draft_is_left(
    w: World,
    mode: LockMode,
    original: Tree,
    l: Listed,
    salt: Seq<u8>,
    ct: Seq<u8>,
    d: Disk,
)
    requires
        d.draft is None,
    ensures
        unlocked_disk(
            w,
            mode,
            original,
            l,
            salt,
            ct,
            reopened(finished_lock(mode, original, sorted_listing(l).files, d)),
        ).draft is None,
{
    let s = sorted_listing(l);
    let pairs = stored_pairs(s.files);
    let r = reopened(finished_lock(mode, original, s.files, d));
    let store = mode_store(mode);
    lemma_stashing_keeps_draft(store, pairs, prepared(store, d), s.files.len());
    let made = with_tree(marked(r), with_dirs(r.tree, s.dirs, s.dirs.len()));
    no_temporary_is_left(store, pairs, made, pairs.len());
}

/// Locking a folder and unlocking it again with the same key gives back exactly the
/// tree that it held, every directory and every file with its content, in every
/// mode, and leaves neither vault nor journal nor store nor temporary file.
#[verifier::rlimit(30)]
pub proof fn unlocking_undoes_locking(
    w: World,
    mode: LockMode,
    l: Listed,
    salt: Seq<u8>,
    ct: Seq<u8>,
    progress: bool,
    d: Disk,
)
    requires
        works(w),
        lockable(d.tree, d.pinned, l),
        seals(w.key, lock_manifest(mode, sorted_listing(l)), ct),
        salt.len() == 16,
        meta_fits(mode, ct),
        mode == LockMode::Full ==> sealable(d.tree, sorted_listing(l).files),
    ensures
        ({
            let files = sorted_listing(l).files;
            let v = vault_of(w, mode, d.tree, sorted_listing(l), salt, ct);
            let e = finished_lock(mode, d.tree, files, committed(d, v));
            let r = reopened(e);
            let back = unlocked_disk(w, mode, d.tree, l, salt, ct, r);
            let done = running(Seq::empty(), l.files.len(), Seq::empty());
            &&& gets_to(
                w,
                finishable(mode, files, v, d),
                initial(lock_plan(mode, salt, ct, sorted_listing(l), progress), 0),
                d,
                done,
                e,
            )
            &&& e.vault == Some(v)
            &&& e.tree == pins_only(d.tree, d.pinned)
            &&& open_manifest(mode_byte(mode), w.key, vault_body(v)) matches Ok(manifest)
            &&& gets_to(
                w,
                unlocking_keeps(mode, d.tree, files, v, r),
                initial(
                    unlock_plan(
                        mode_byte(mode),
                        w.key,
                        manifest,
                        numbering(manifest, vault_body(v)),
                        progress,
                    ),
                    0,
                ),
                r,
                done,
                back,
            )
            &&& back.tree == d.tree
            &&& back.vault is None
            &&& back.state is None
            &&& back.draft is None
            &&& mode != LockMode::Full ==> store_of(back, mode_store(mode)) is None
        }),
{
    let s = sorted_listing(l);
    let files = s.files;
    let v = vault_of(w, mode, d.tree, sorted_listing(l), salt, ct);
    let e = finished_lock(mode, d.tree, files, committed(d, v));
    let r = reopened(e);
    let back = unlocked_disk(w, mode, d.tree, l, salt, ct, r);
    locking_locks(w, mode, l, salt, ct, progress, d);
    lemma_locked_unlockable(mode, d.tree, d.pinned, l, v, e);
    if mode == LockMode::Full {
        lemma_openable_marked(d.tree, files, e, r);
        assert(reopened(r) == r);
        unlocking_streams_restores(w, d.tree, d.pinned, l, salt, ct, progress, r);
    } else {
        let store = mode_store(mode);
        let pairs = stored_pairs(files);
        lemma_unread_does_not_matter(d.tree, store, pairs, e);
        unlocking_from_store_restores(w, mode, d.tree, d.pinned, l, salt, ct, progress, r);
    }
    lemma_no_draft_is_left(w, mode, d.tree, l, salt, ct, committed(d, v));
    lemma_exactly_back(d.tree, d.pinned, r.tree, back.tree);
}

pub(crate) proof fn lemma_exactly_back(original: Tree, pinned: Set<Seq<char>>, before: Tree, tree: Tree)
    requires
        got_back(original, before, tree),
        before == pins_only(original, pinned),
    ensures
        tree == original,
{
    assert forall|p: Seq<char>| tree.contains_key(p) implies original.contains_key(p) by {
        if before.contains_key(p) {
            assert(has_dir(original, p));
        }
    }
    assert(tree =~= original);
}

pub(crate) proof fn lemma_unread_does_not_matter(original: Tree, store: Store, pairs: Seq<Pair>, d: Disk)
    requires
        unlockable(original, store, pairs, d),
        nothing_lost(store, pairs, d),
    ensures
        unlockable(original, store, pairs, reopened(d)),
        nothing_lost(store, pairs, reopened(d)),
{
    let r = reopened(d);
    assert forall|i: int| 0 <= i < pairs.len() && stores(
        r,
        store,
        (#[trigger] pairs[i]).1,
    ) implies stored_content(r, store, pairs[i].1) == content(original, pairs[i].0) by {
        assert(stores(d, store, pairs[i].1));
    }
    assert forall|i: int| 0 <= i < pairs.len() implies survives(store, #[trigger] pairs[i], r) by {
        assert(survives(store, pairs[i], d));
    }
}

} // verus!
