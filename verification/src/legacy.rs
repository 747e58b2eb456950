//! Vaults of the first format, whose manifest holds the encrypted contents: they
//! are no longer written, and are still unlocked.

use vstd::prelude::*;
use vstd::utf8::encode_utf8;

use crate::crypto::blob_open;
use crate::disk::{
    content, file_fits, gets_to, has_dir, has_file, lemma_do, lemma_here, lemma_then, parents_fit,
    perform, rooted, running, with_file, with_parents, with_tree, Disk, Tree, World,
};
use crate::job::{initial, Action, Answer, Step, Task};
use crate::laws::{got_back, marked};
use crate::manifest::{
    announced, header_count, lemma_text_at, magic_bytes, packed_at, packed_from, packed_says,
    text_bytes, Magic, Packed,
};
use crate::path::{is_ancestor, safe_path};
use crate::restoring::{fits, with_dir};
use crate::storing::lemma_report;
use crate::text::{from_le64, le16, le32, le32_round_trip};
use crate::vault::{
    open_manifest, put_entries, put_entry, report, seals, unlock_plan, PendingOp, MODE_FULL,
};

verus! {

// ── the manifest ──

/// A 64-bit number as eight bytes, lowest first.
pub open spec fn le64(n: int) -> Seq<u8> {
    le32(n % 0x1_0000_0000) + le32(n / 0x1_0000_0000)
}

/// Eight little-endian bytes give back the number they were made from.
pub proof fn le64_round_trip(n: int)
    requires
        0 <= n <= 0xFFFF_FFFF_FFFF_FFFF,
    ensures
        le64(n).len() == 8,
        from_le64(le64(n)) == n,
{
    let low = n % 0x1_0000_0000;
    let high = n / 0x1_0000_0000;
    assert(0 <= high <= 0xFFFF_FFFF);
    le32_round_trip(low);
    le32_round_trip(high);
    assert(le64(n).take(4) =~= le32(low));
    assert(le64(n).skip(4) =~= le32(high));
}

/// An entry in the manifest: the path, the kind, and the content with its length.
pub open spec fn packed_bytes(p: Packed) -> Seq<u8> {
    text_bytes(p.rel) + seq![
        if p.is_dir {
            1u8
        } else {
            0u8
        },
    ] + le64(p.data.len() as int) + p.data
}

/// The entries of a manifest, one behind the other.
pub open spec fn packed_list_bytes(list: Seq<Packed>) -> Seq<u8>
    decreases list.len(),
{
    if list.len() == 0 {
        Seq::empty()
    } else {
        packed_bytes(list[0]) + packed_list_bytes(list.drop_first())
    }
}

/// A manifest with contents, under any version.
pub open spec fn packed_manifest(version: int, list: Seq<Packed>) -> Seq<u8> {
    magic_bytes(Magic::Full) + le16(version) + le32(list.len() as int) + packed_list_bytes(list)
}

/// Can an entry be written and read back?
pub open spec fn packable(p: Packed) -> bool {
    &&& safe_path(p.rel)
    &&& encode_utf8(p.rel).len() <= 0xFFFF_FFFF
    &&& p.data.len() <= 0xFFFF_FFFF_FFFF_FFFF
}

proof fn lemma_packed_at(buf: Seq<u8>, pos: int, p: Packed)
    requires
        packable(p),
        0 <= pos,
        pos + packed_bytes(p).len() <= buf.len(),
        buf.subrange(pos, pos + packed_bytes(p).len()) == packed_bytes(p),
    ensures
        packed_at(buf, pos) == Ok::<(Packed, int), Seq<char>>((p, pos + packed_bytes(p).len())),
{
    reveal(packed_at);
    let all = packed_bytes(p);
    let t = text_bytes(p.rel);
    let m = t.len() as int;
    let n = p.data.len() as int;
    let part = buf.subrange(pos, pos + all.len());
    le64_round_trip(n);
    assert(buf.subrange(pos, pos + m) =~= t) by {
        assert(part.take(m) =~= t);
        assert(part.take(m) =~= buf.subrange(pos, pos + m));
    }
    lemma_text_at(buf, pos, p.rel, "vault 数据损坏 (path)"@, "vault 路径不是有效 UTF-8"@);
    let at = pos + m;
    assert(buf[at] == part[m]);
    assert(buf.subrange(at + 1, at + 9) =~= le64(n)) by {
        assert(part.subrange(m + 1, m + 9) =~= le64(n));
        assert(part.subrange(m + 1, m + 9) =~= buf.subrange(at + 1, at + 9));
    }
    assert(buf.subrange(at + 9, at + 9 + n) =~= p.data) by {
        assert(part.subrange(m + 9, m + 9 + n) =~= p.data);
        assert(part.subrange(m + 9, m + 9 + n) =~= buf.subrange(at + 9, at + 9 + n));
    }
}

proof fn lemma_packed_from(buf: Seq<u8>, pos: int, list: Seq<Packed>)
    requires
        forall|i: int| 0 <= i < list.len() ==> packable(#[trigger] list[i]),
        0 <= pos,
        pos + packed_list_bytes(list).len() <= buf.len(),
        buf.subrange(pos, pos + packed_list_bytes(list).len()) == packed_list_bytes(list),
    ensures
        packed_from(buf, pos, list.len()) == (list, None::<Seq<char>>),
    decreases list.len(),
{
    if list.len() == 0 {
        assert(list =~= Seq::empty());
    } else {
        let rest = list.drop_first();
        let first = packed_bytes(list[0]);
        let behind = packed_list_bytes(rest);
        let all = packed_list_bytes(list);
        let part = buf.subrange(pos, pos + all.len());
        let next = pos + first.len();
        assert(buf.subrange(pos, next) =~= first) by {
            assert(part.take(first.len() as int) =~= first);
            assert(part.take(first.len() as int) =~= buf.subrange(pos, next));
        }
        assert(buf.subrange(next, next + behind.len()) =~= behind) by {
            assert(part.skip(first.len() as int) =~= behind);
            assert(part.skip(first.len() as int) =~= buf.subrange(next, next + behind.len()));
        }
        lemma_packed_at(buf, pos, list[0]);
        assert forall|i: int| 0 <= i < rest.len() implies packable(#[trigger] rest[i]) by {
            assert(rest[i] == list[i + 1]);
        }
        lemma_packed_from(buf, next, rest);
        assert(seq![list[0]] + rest =~= list);
    }
}

/// A manifest with contents reads back as the entries that it was written from.
pub proof fn packed_manifest_round_trip(version: int, list: Seq<Packed>)
    requires
        list.len() <= 0xFFFF_FFFF,
        forall|i: int| 0 <= i < list.len() ==> packable(#[trigger] list[i]),
    ensures
        packed_says(packed_manifest(version, list)) == (list, None::<Seq<char>>),
        announced(Magic::Full, packed_manifest(version, list)) == list.len(),
{
    let buf = packed_manifest(version, list);
    le32_round_trip(list.len() as int);
    assert(buf.take(8) =~= magic_bytes(Magic::Full));
    assert(buf.subrange(10, 14) =~= le32(list.len() as int));
    let n = packed_list_bytes(list).len() as int;
    assert(buf.subrange(14, 14 + n) =~= packed_list_bytes(list));
    lemma_packed_from(buf, 14, list);
}

/// Whatever bytes a manifest with contents holds, no entry that is read from it has a
/// path that leads out of the folder.
pub proof fn packed_entries_are_safe(buf: Seq<u8>, i: int)
    requires
        0 <= i < packed_says(buf).0.len(),
    ensures
        safe_path(packed_says(buf).0[i].rel),
{
    if let Ok(count) = header_count(Magic::Full, buf) {
        lemma_packed_safe(buf, 14, count as nat, i);
    }
}

proof fn lemma_packed_safe(buf: Seq<u8>, pos: int, count: nat, i: int)
    requires
        0 <= i < packed_from(buf, pos, count).0.len(),
    ensures
        safe_path(packed_from(buf, pos, count).0[i].rel),
    decreases count,
{
    reveal(packed_at);
    if let Ok((e, next)) = packed_at(buf, pos) {
        if i > 0 {
            lemma_packed_safe(buf, next, (count - 1) as nat, i - 1);
        }
    }
}

// ── unlocking ──

/// Do these entries hold a tree: every directory, and every file with its content
/// encrypted?
pub open spec fn packs(key: Seq<u8>, original: Tree, entries: Seq<Packed>) -> bool {
    &&& rooted(original)
    &&& forall|i: int|
        0 <= i < entries.len() ==> if (#[trigger] entries[i]).is_dir {
            has_dir(original, entries[i].rel)
        } else {
            &&& has_file(original, entries[i].rel)
            &&& blob_open(key, entries[i].data) == Ok::<Seq<u8>, Seq<char>>(
                content(original, entries[i].rel),
            )
        }
    &&& forall|p: Seq<char>| #[trigger]
        original.contains_key(p) ==> exists|i: int|
            0 <= i < entries.len() && (#[trigger] entries[i]).rel == p
}

/// A tree with an entry put back.
pub open spec fn with_entry(original: Tree, e: Packed, tree: Tree) -> Tree {
    if e.is_dir {
        with_dir(tree, e.rel)
    } else {
        with_file(with_parents(tree, e.rel), e.rel, content(original, e.rel))
    }
}

/// A tree with the first `k` entries put back.
pub open spec fn with_entries(original: Tree, entries: Seq<Packed>, tree: Tree, k: nat) -> Tree
    decreases k,
{
    if k == 0 {
        tree
    } else {
        with_entry(
            original,
            entries[k - 1],
            with_entries(original, entries, tree, (k - 1) as nat),
        )
    }
}

/// How many of the first `k` entries are files.
pub open spec fn files_in(entries: Seq<Packed>, k: nat) -> nat
    decreases k,
{
    if k == 0 {
        0
    } else {
        files_in(entries, (k - 1) as nat) + if entries[k - 1].is_dir {
            0nat
        } else {
            1nat
        }
    }
}

/// The disk with the first `k` entries put back; each file goes through the temporary
/// one.
pub open spec fn put_back(original: Tree, entries: Seq<Packed>, d: Disk, k: nat) -> Disk {
    Disk {
        tree: with_entries(original, entries, d.tree, k),
        draft: if files_in(entries, k) == 0 {
            d.draft
        } else {
            None
        },
        ..d
    }
}

/// A tree on the way: nothing stands in the way of the original tree, and everything
/// is of the original tree or was there before.
pub open spec fn on_the_way(original: Tree, before: Tree, tree: Tree) -> bool {
    &&& fits(tree, original)
    &&& forall|p: Seq<char>| #[trigger]
        tree.contains_key(p) ==> original.contains_key(p) || before.contains_key(p)
}

/// A disk on the way: only the tree and the temporary file have changed.
pub open spec fn putting_back(original: Tree, d: Disk, e: Disk) -> bool {
    &&& on_the_way(original, d.tree, e.tree)
    &&& e == (Disk { tree: e.tree, draft: e.draft, ..d })
}

/// The first `k` entries are back in a tree.
pub open spec fn first_back(original: Tree, entries: Seq<Packed>, tree: Tree, k: nat) -> bool {
    forall|i: int|
        0 <= i < k ==> tree.contains_key((#[trigger] entries[i]).rel) && tree[entries[i].rel]
            == original[entries[i].rel]
}

proof fn lemma_parents_on_the_way(
    key: Seq<u8>,
    original: Tree,
    entries: Seq<Packed>,
    before: Tree,
    tree: Tree,
    rel: Seq<char>,
)
    requires
        packs(key, original, entries),
        on_the_way(original, before, tree),
        original.contains_key(rel),
    ensures
        on_the_way(original, before, with_parents(tree, rel)),
        parents_fit(tree, rel),
{
    let above = with_parents(tree, rel);
    assert forall|p: Seq<char>| #[trigger] is_ancestor(p, rel) implies !has_file(tree, p)
        && has_dir(original, p) by {
        assert(original.contains_key(rel));
        assert(has_dir(original, p));
    }
}

proof fn lemma_entry_on_the_way(
    key: Seq<u8>,
    original: Tree,
    entries: Seq<Packed>,
    before: Tree,
    k: nat,
)
    requires
        packs(key, original, entries),
        on_the_way(original, before, before),
        k <= entries.len(),
    ensures
        on_the_way(original, before, with_entries(original, entries, before, k)),
        first_back(original, entries, with_entries(original, entries, before, k), k),
    decreases k,
{
    if k > 0 {
        let j = (k - 1) as nat;
        let t = with_entries(original, entries, before, j);
        let e = entries[j as int];
        let next = with_entries(original, entries, before, k);
        lemma_entry_on_the_way(key, original, entries, before, j);
        assert(original.contains_key(e.rel));
        lemma_parents_on_the_way(key, original, entries, before, t, e.rel);
        let above = with_parents(t, e.rel);
        assert(!is_ancestor(e.rel, e.rel));
        assert forall|i: int| 0 <= i < k implies next.contains_key((#[trigger] entries[i]).rel)
            && next[entries[i].rel] == original[entries[i].rel] by {
            assert(original.contains_key(entries[i].rel));
            if i < j {
                assert(t.contains_key(entries[i].rel));
            }
        }
    }
}

proof fn lemma_put_one(
    w: World,
    keeps: spec_fn(Disk) -> bool,
    original: Tree,
    entries: Seq<Packed>,
    j: nat,
    rest: Seq<Step>,
    count: nat,
    lost: Seq<Seq<char>>,
    d: Disk,
)
    requires
        packs(w.key, original, entries),
        on_the_way(original, d.tree, d.tree),
        j < entries.len(),
        forall|e: Disk| #[trigger] putting_back(original, d, e) ==> keeps(e),
    ensures
        gets_to(
            w,
            keeps,
            running(put_entry(w.key, entries[j as int]) + rest, count, lost),
            put_back(original, entries, d, j),
            running(
                rest,
                count + if entries[j as int].is_dir {
                    0nat
                } else {
                    1nat
                },
                lost,
            ),
            put_back(original, entries, d, j + 1),
        ),
{
    let e = entries[j as int];
    let t = with_entries(original, entries, d.tree, j);
    let here = put_back(original, entries, d, j);
    let next = put_back(original, entries, d, j + 1);
    lemma_entry_on_the_way(w.key, original, entries, d.tree, j);
    lemma_entry_on_the_way(w.key, original, entries, d.tree, j + 1);
    lemma_parents_on_the_way(w.key, original, entries, d.tree, t, e.rel);
    assert(putting_back(original, d, here));
    assert(putting_back(original, d, next));
    if e.is_dir {
        let make = Action::MakeDir { rel: e.rel };
        assert(perform(w, here, make) == (next, Answer::Done));
        lemma_do(w, keeps, make, rest, count, lost, here);
    } else {
        let above = with_parents(t, e.rel);
        let parents = Action::MakeParents { rel: e.rel };
        let put = Action::PutFile { rel: e.rel, bytes: content(original, e.rel) };
        let tail = seq![Task::Do(put)] + rest;
        assert(put_entry(w.key, e) + rest =~= seq![Task::Do(parents)] + tail);
        let mid = with_tree(here, above);
        assert(putting_back(original, d, mid));
        assert(perform(w, here, parents) == (mid, Answer::Done));
        lemma_do(w, keeps, parents, tail, count, lost, here);
        assert(file_fits(above, e.rel)) by {
            assert forall|p: Seq<char>| #[trigger] is_ancestor(p, e.rel) implies has_dir(
                above,
                p,
            ) by {
                assert(has_dir(original, p));
            }
            assert(has_file(original, e.rel));
            assert(!is_ancestor(e.rel, e.rel));
        }
        assert(perform(w, mid, put).0 =~= next);
        lemma_do(w, keeps, put, rest, count, lost, mid);
        lemma_then(
            w,
            keeps,
            running(put_entry(w.key, e) + rest, count, lost),
            here,
            running(tail, count, lost),
            mid,
            running(rest, count + 1, lost),
            next,
        );
    }
}

/// Putting back the entries of a manifest that holds a tree puts back every one of
/// them and counts the files; and at no time could it not start anew.
pub proof fn packed_entries_come_back(
    w: World,
    keeps: spec_fn(Disk) -> bool,
    original: Tree,
    entries: Seq<Packed>,
    progress: bool,
    total: nat,
    k: nat,
    rest: Seq<Step>,
    count: nat,
    lost: Seq<Seq<char>>,
    d: Disk,
)
    requires
        packs(w.key, original, entries),
        fits(d.tree, original),
        k <= entries.len(),
        forall|e: Disk| #[trigger] putting_back(original, d, e) ==> keeps(e),
    ensures
        gets_to(
            w,
            keeps,
            running(put_entries(w.key, entries, progress, total, k) + rest, count, lost),
            d,
            running(rest, count + files_in(entries, k), lost),
            put_back(original, entries, d, k),
        ),
        got_back(original, d.tree, with_entries(original, entries, d.tree, entries.len())),
    decreases k,
{
    assert(on_the_way(original, d.tree, d.tree));
    lemma_entry_on_the_way(w.key, original, entries, d.tree, entries.len());
    let s = running(put_entries(w.key, entries, progress, total, k) + rest, count, lost);
    if k == 0 {
        assert(put_entries(w.key, entries, progress, total, k) + rest =~= rest);
        assert(put_back(original, entries, d, 0) == d);
        assert(putting_back(original, d, d));
        lemma_here(w, keeps, s, d);
    } else {
        let j = (k - 1) as nat;
        let told = report(progress, k, total);
        let one = put_entry(w.key, entries[j as int]);
        let tail = one + (told + rest);
        let here = put_back(original, entries, d, j);
        let next = put_back(original, entries, d, k);
        let n = count + files_in(entries, j);
        let m = count + files_in(entries, k);
        lemma_entry_on_the_way(w.key, original, entries, d.tree, k);
        assert(putting_back(original, d, next));
        packed_entries_come_back(
            w,
            keeps,
            original,
            entries,
            progress,
            total,
            j,
            tail,
            count,
            lost,
            d,
        );
        assert(put_entries(w.key, entries, progress, total, k) + rest =~= put_entries(
            w.key,
            entries,
            progress,
            total,
            j,
        ) + tail);
        lemma_put_one(w, keeps, original, entries, j, told + rest, n, lost, d);
        lemma_then(
            w,
            keeps,
            s,
            d,
            running(tail, n, lost),
            here,
            running(told + rest, m, lost),
            next,
        );
        lemma_report(w, keeps, progress, k, total, rest, m, lost, next);
        lemma_then(w, keeps, s, d, running(told + rest, m, lost), next, running(rest, m, lost), next);
    }
}

/// The vault of the first format, given its encrypted manifest.
pub open spec fn packed_vault(salt: Seq<u8>, ct: Seq<u8>) -> Seq<u8> {
    salt + seq![MODE_FULL] + ct
}

/// What unlocking a vault of the first format keeps at all times: it can start anew,
/// or it is done.
pub open spec fn rereadable(original: Tree, v: Seq<u8>, d: Disk) -> spec_fn(Disk) -> bool {
    |e: Disk|
        (e.vault == Some(v) && fits(e.tree, original)) || (e.vault is None && got_back(
            original,
            d.tree,
            e.tree,
        ))
}

/// The disk at the end of unlocking a vault of the first format.
pub open spec fn packed_unlocked(original: Tree, entries: Seq<Packed>, d: Disk) -> Disk {
    Disk {
        vault: None,
        state: None,
        ..put_back(original, entries, d, entries.len())
    }
}

/// Unlocking a vault of the first format counts every file, gives back the tree that
/// its manifest holds with every content, and removes the vault and the journal,
/// whatever version the manifest carries; and whenever it is interrupted, it can start anew.
pub proof fn unlocking_packed_restores(
    w: World,
    original: Tree,
    entries: Seq<Packed>,
    version: int,
    salt: Seq<u8>,
    ct: Seq<u8>,
    from: Option<u64>,
    progress: bool,
    d: Disk,
)
    requires
        entries.len() <= 0xFFFF_FFFF,
        forall|i: int| 0 <= i < entries.len() ==> packable(#[trigger] entries[i]),
        packs(w.key, original, entries),
        salt.len() == 16,
        seals(w.key, packed_manifest(version, entries), ct),
        d.vault == Some(packed_vault(salt, ct)),
        fits(d.tree, original),
    ensures
        ({
            let v = packed_vault(salt, ct);
            let e = packed_unlocked(original, entries, d);
            &&& open_manifest(MODE_FULL, w.key, v) matches Ok(manifest)
            &&& gets_to(
                w,
                rereadable(original, v, d),
                initial(unlock_plan(MODE_FULL, w.key, manifest, from, progress), 0),
                d,
                running(Seq::empty(), files_in(entries, entries.len()), Seq::empty()),
                e,
            )
            &&& got_back(original, d.tree, e.tree)
            &&& e.vault is None
            &&& e.state is None
        }),
{
    let n = files_in(entries, entries.len());
    let none = Seq::<Seq<char>>::empty();
    let v = packed_vault(salt, ct);
    let manifest = packed_manifest(version, entries);
    let keeps = rereadable(original, v, d);
    let m = marked(d);
    assert(v.skip(17) =~= ct);
    packed_manifest_round_trip(version, entries);
    let steps = put_entries(w.key, entries, progress, entries.len(), entries.len());
    let mark = Action::Mark(PendingOp::Decrypt);
    let unmark = seq![Task::<Seq<char>, Seq<u8>>::Do(Action::Unmark)];
    let end = seq![Task::<Seq<char>, Seq<u8>>::Do(Action::DropVault)] + unmark;
    let plan = unlock_plan(MODE_FULL, w.key, manifest, from, progress);
    assert(plan =~= seq![Task::Do(mark)] + (steps + end));
    let st = running(plan, 0, none);
    assert(perform(w, d, mark) == (m, Answer::Done));
    lemma_do(w, keeps, mark, steps + end, 0, none, d);
    packed_entries_come_back(
        w,
        keeps,
        original,
        entries,
        progress,
        entries.len(),
        entries.len(),
        end,
        0,
        none,
        m,
    );
    let e0 = put_back(original, entries, m, entries.len());
    lemma_then(w, keeps, st, d, running(steps + end, 0, none), m, running(end, n, none), e0);
    lemma_entry_on_the_way(w.key, original, entries, d.tree, entries.len());
    let e1 = Disk { vault: None, ..e0 };
    let e2 = packed_unlocked(original, entries, d);
    assert(perform(w, e0, Action::DropVault).0 =~= e1);
    lemma_do(w, keeps, Action::DropVault, unmark, n, none, e0);
    lemma_then(w, keeps, st, d, running(end, n, none), e0, running(unmark, n, none), e1);
    assert(unmark =~= unmark + Seq::<Step>::empty());
    assert(perform(w, e1, Action::Unmark).0 =~= e2);
    lemma_do(w, keeps, Action::Unmark, Seq::empty(), n, none, e1);
    lemma_then(
        w,
        keeps,
        st,
        d,
        running(unmark, n, none),
        e1,
        running(Seq::empty(), n, none),
        e2,
    );
}

} // verus!
