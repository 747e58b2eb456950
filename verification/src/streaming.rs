//! Encrypting the files of a folder into the vault, and decrypting them out of it.

use vstd::prelude::*;

use crate::disk::{
    content, file_fits, gets_to, has_dir, has_file, lemma_do, lemma_here, lemma_then, parents_fit,
    perform, running, store_of, stored_content, stores, with_file, with_parents, with_tree, Disk,
    Tree, World,
};
use crate::job::{Action, Answer, Step, Store, Task};
use crate::manifest::Entry;
use crate::path::{is_ancestor, stored_names_differ};
use crate::restoring::{
    dirs_are_added, dirs_there, disk_after, disk_between, files_come_back_safely,
    lemma_dirs_underway, lemma_file_returns, lemma_nothing_back, lemma_store_after, names_tree,
    tree_after, unlockable, with_dirs,
};
use crate::storing::lemma_report;
use crate::stream::{
    chunk_count, numbered_blob, numbered_blob_has_number, open_numbered, open_stream, read_through,
    stream_holds, LAST_POSITION,
};
use crate::vault::{
    dir_entry, number_due, open_entries, open_entry, report, seal_files, stored_pairs, stream_number,
};

verus! {

// ── into the vault ──

/// Is every stream that is made with this key read back as the content that it was
/// made from?
pub open spec fn seals_well(w: World) -> bool {
    forall|number: u64, c: Seq<u8>|
        chunk_count(c.len()) <= LAST_POSITION + 1 ==> stream_holds(
            w.key,
            #[trigger] numbered_blob(w.key, number, c),
            c,
        )
}

/// Are these files of a tree, none of them too long for a stream?
pub open spec fn sealable(tree: Tree, files: Seq<Seq<char>>) -> bool {
    forall|i: int|
        0 <= i < files.len() ==> has_file(tree, #[trigger] files[i]) && chunk_count(
            content(tree, files[i]).len(),
        ) <= LAST_POSITION + 1
}

/// The temporary vault after the first `k` files were encrypted into it.
pub open spec fn draft_after(
    w: World,
    from: u64,
    at: nat,
    tree: Tree,
    files: Seq<Seq<char>>,
    start: Seq<u8>,
    k: nat,
) -> Seq<u8>
    decreases k,
{
    if k == 0 {
        start
    } else {
        let j = (k - 1) as nat;
        draft_after(w, from, at, tree, files, start, j) + numbered_blob(
            w.key,
            stream_number(from, at + j),
            content(tree, files[k - 1]),
        )
    }
}

/// What is left to read of a vault behind the first `k` files.
pub open spec fn left_of(
    w: World,
    from: u64,
    at: nat,
    tree: Tree,
    files: Seq<Seq<char>>,
    start: Seq<u8>,
    v: Seq<u8>,
    k: nat,
) -> Seq<u8> {
    v.skip(draft_after(w, from, at, tree, files, start, k).len() as int)
}

/// Does a vault begin with the given bytes?
pub open spec fn begins_with(v: Seq<u8>, front: Seq<u8>) -> bool {
    front.len() <= v.len() && v.take(front.len() as int) == front
}

pub(crate) proof fn lemma_draft_grows(w: World, from: u64, at: nat, tree: Tree, files: Seq<Seq<char>>, start: Seq<u8>, k: nat, n: nat)
    requires
        k <= n,
    ensures
        draft_after(w, from, at, tree, files, start, k).len() <= draft_after(w, from, at, tree, files, start, n).len(),
        draft_after(w, from, at, tree, files, start, n).take(
            draft_after(w, from, at, tree, files, start, k).len() as int,
        ) == draft_after(w, from, at, tree, files, start, k),
    decreases n - k,
{
    let a = draft_after(w, from, at, tree, files, start, k);
    if k < n {
        lemma_draft_grows(w, from, at, tree, files, start, k, (n - 1) as nat);
        let b = draft_after(w, from, at, tree, files, start, (n - 1) as nat);
        let c = draft_after(w, from, at, tree, files, start, n);
        assert(c.take(a.len() as int) =~= b.take(a.len() as int));
    } else {
        assert(a.take(a.len() as int) =~= a);
    }
}

/// The streams that a vault begins with are read one after the other, each as the
/// content of its file.
pub proof fn streams_read_in_turn(
    w: World,
    from: u64,
    at: nat,
    tree: Tree,
    files: Seq<Seq<char>>,
    start: Seq<u8>,
    v: Seq<u8>,
    n: nat,
    k: nat,
)
    requires
        k < n <= files.len(),
        seals_well(w),
        sealable(tree, files),
        begins_with(v, draft_after(w, from, at, tree, files, start, n)),
    ensures
        open_numbered(
            w.key,
            Some(stream_number(from, at + k)),
            left_of(w, from, at, tree, files, start, v, k),
        ) == read_through(
            content(tree, files[k as int]),
            left_of(w, from, at, tree, files, start, v, k + 1),
        ),
{
    let a = draft_after(w, from, at, tree, files, start, k);
    let b = draft_after(w, from, at, tree, files, start, k + 1);
    let all = draft_after(w, from, at, tree, files, start, n);
    let c = content(tree, files[k as int]);
    let number = stream_number(from, at + k);
    let blob = numbered_blob(w.key, number, c);
    let rest = v.skip(b.len() as int);
    lemma_draft_grows(w, from, at, tree, files, start, k + 1, n);
    assert(b == a + blob);
    assert(v.take(b.len() as int) =~= b) by {
        assert(v.take(all.len() as int).take(b.len() as int) =~= v.take(b.len() as int));
    }
    assert(v.skip(a.len() as int) =~= blob + rest) by {
        assert(v =~= b + rest);
    }
    assert(stream_holds(w.key, blob, c));
    assert(open_stream(w.key, blob + rest) == read_through(c, rest));
    numbered_blob_has_number(w.key, number, c, rest);
}

/// The disk with another temporary vault.
pub open spec fn with_draft(d: Disk, b: Seq<u8>) -> Disk {
    Disk { draft: Some(b), ..d }
}

/// Encrypting the files puts one stream after the other behind what the temporary
/// vault holds, and leaves the tree as it is.
pub proof fn sealing_appends_streams(
    w: World,
    keeps: spec_fn(Disk) -> bool,
    from: u64,
    at: nat,
    files: Seq<Seq<char>>,
    progress: bool,
    k: nat,
    rest: Seq<Step>,
    count: nat,
    lost: Seq<Seq<char>>,
    d: Disk,
    start: Seq<u8>,
)
    requires
        k <= files.len(),
        sealable(d.tree, files),
        forall|b: Seq<u8>| keeps(#[trigger] with_draft(d, b)),
    ensures
        gets_to(
            w,
            keeps,
            running(seal_files(from, at, files, progress, k) + rest, count, lost),
            with_draft(d, start),
            running(rest, count + k, lost),
            with_draft(d, draft_after(w, from, at, d.tree, files, start, k)),
        ),
    decreases k,
{
    if k == 0 {
        assert(seal_files(from, at, files, progress, k) + rest =~= rest);
        lemma_here(w, keeps, running(rest, count, lost), with_draft(d, start));
    } else {
        let j = (k - 1) as nat;
        let a = Action::SealFile { rel: files[j as int], number: stream_number(from, at + j) };
        let told = report(progress, k, files.len());
        let tail = seq![Task::Do(a)] + (told + rest);
        let here = with_draft(d, draft_after(w, from, at, d.tree, files, start, j));
        let next = with_draft(d, draft_after(w, from, at, d.tree, files, start, k));
        let s = running(seal_files(from, at, files, progress, k) + rest, count, lost);
        assert(seal_files(from, at, files, progress, k) + rest =~= seal_files(from, at, files, progress, j) + tail);
        sealing_appends_streams(w, keeps, from, at, files, progress, j, tail, count, lost, d, start);
        assert(has_file(d.tree, files[j as int]));
        assert(perform(w, here, a) == (next, Answer::Done));
        lemma_do(w, keeps, a, told + rest, count + j, lost, here);
        lemma_then(
            w,
            keeps,
            s,
            with_draft(d, start),
            running(tail, count + j, lost),
            here,
            running(told + rest, count + k, lost),
            next,
        );
        lemma_report(w, keeps, progress, k, files.len(), rest, count + k, lost, next);
        lemma_then(
            w,
            keeps,
            s,
            with_draft(d, start),
            running(told + rest, count + k, lost),
            next,
            running(rest, count + k, lost),
            next,
        );
    }
}

// ── out of the vault ──

/// The entries of the metadata of a streamed vault.
pub open spec fn plain_entries(dirs: Seq<Seq<char>>, files: Seq<Seq<char>>) -> Seq<Entry> {
    dirs.map_values(|rel: Seq<char>| dir_entry(rel)) + files.map_values(
        |rel: Seq<char>| Entry { rel, is_dir: false, stream: None },
    )
}

/// The index of the file that is stored under a name.
pub open spec fn index_named(files: Seq<Seq<char>>, n: Seq<char>) -> int {
    choose|i: int| 0 <= i < files.len() && #[trigger] stored_pairs(files)[i].1 == n
}

/// A folder whose vault holds the contents, seen as one whose streams do.
pub open spec fn as_streams(original: Tree, files: Seq<Seq<char>>, d: Disk) -> Disk {
    Disk {
        streams: Some(
            Map::new(
                |n: Seq<char>|
                    exists|i: int| 0 <= i < files.len() && #[trigger] stored_pairs(files)[i].1 == n,
                |n: Seq<char>| content(original, files[index_named(files, n)]),
            ),
        ),
        ..d
    }
}

/// A disk on which a streamed vault can be unlocked: what is there does not stand
/// in the way of the original tree.
pub open spec fn openable(original: Tree, files: Seq<Seq<char>>, d: Disk) -> bool {
    unlockable(original, Store::Streams, stored_pairs(files), as_streams(original, files, d))
}

/// A disk on the way of unlocking a streamed vault.
pub open spec fn opening(original: Tree, files: Seq<Seq<char>>, d: Disk, e: Disk) -> bool {
    &&& openable(original, files, e)
    &&& e == (Disk { tree: e.tree, draft: e.draft, unread: e.unread, ..d })
}

/// The tree after the directories were created and the first `k` files restored.
pub open spec fn opened_tree(
    original: Tree,
    dirs: Seq<Seq<char>>,
    files: Seq<Seq<char>>,
    tree: Tree,
    d: Disk,
    k: nat,
) -> Tree {
    tree_after(
        original,
        Store::Streams,
        stored_pairs(files),
        as_streams(original, files, with_tree(d, with_dirs(tree, dirs, dirs.len()))),
        k,
    )
}

pub(crate) proof fn lemma_as_streams(original: Tree, files: Seq<Seq<char>>, d: Disk, i: int)
    requires
        0 <= i < files.len(),
    ensures
        stores(as_streams(original, files, d), Store::Streams, stored_pairs(files)[i].1),
        stored_content(as_streams(original, files, d), Store::Streams, stored_pairs(files)[i].1)
            == content(original, files[i]),
{
    let pairs = stored_pairs(files);
    let n = pairs[i].1;
    let j = index_named(files, n);
    assert(0 <= j < files.len() && pairs[j].1 == n);
    stored_names_differ(i as nat, j as nat);
}

proof fn lemma_opening_dirs(
    original: Tree,
    dirs: Seq<Seq<char>>,
    files: Seq<Seq<char>>,
    d: Disk,
    k: nat,
)
    requires
        k <= dirs.len(),
        names_tree(original, dirs, stored_pairs(files)),
        openable(original, files, d),
    ensures
        opening(original, files, d, with_tree(d, with_dirs(d.tree, dirs, k))),
{
    let v = as_streams(original, files, d);
    let e = with_tree(d, with_dirs(d.tree, dirs, k));
    lemma_dirs_underway(original, Store::Streams, dirs, stored_pairs(files), v, k);
    assert(as_streams(original, files, e) == with_tree(v, with_dirs(v.tree, dirs, k)));
}

proof fn lemma_open_dirs(
    w: World,
    keeps: spec_fn(Disk) -> bool,
    from: Option<u64>,
    original: Tree,
    dirs: Seq<Seq<char>>,
    files: Seq<Seq<char>>,
    progress: bool,
    k: nat,
    rest: Seq<Step>,
    count: nat,
    lost: Seq<Seq<char>>,
    d: Disk,
)
    requires
        k <= dirs.len(),
        names_tree(original, dirs, stored_pairs(files)),
        openable(original, files, d),
        forall|e: Disk| #[trigger] opening(original, files, d, e) ==> keeps(e),
    ensures
        gets_to(
            w,
            keeps,
            running(open_entries(from, plain_entries(dirs, files), progress, k) + rest, count, lost),
            d,
            running(rest, count, lost),
            with_tree(d, with_dirs(d.tree, dirs, k)),
        ),
    decreases k,
{
    let entries = plain_entries(dirs, files);
    lemma_opening_dirs(original, dirs, files, d, k);
    if k == 0 {
        assert(open_entries(from, entries, progress, k) + rest =~= rest);
        assert(with_tree(d, with_dirs(d.tree, dirs, 0)) == d);
        lemma_here(w, keeps, running(rest, count, lost), d);
    } else {
        let j = (k - 1) as nat;
        let a = Action::MakeDir { rel: dirs[j as int] };
        let told = report(progress, k, entries.len());
        let tail = seq![Task::Do(a)] + (told + rest);
        let prev = with_tree(d, with_dirs(d.tree, dirs, j));
        let next = with_tree(d, with_dirs(d.tree, dirs, k));
        assert(entries[j as int] == dir_entry(dirs[j as int]));
        assert(open_entries(from, entries, progress, k) + rest =~= open_entries(from, entries, progress, j)
            + tail);
        lemma_open_dirs(w, keeps, from, original, dirs, files, progress, j, tail, count, lost, d);
        lemma_opening_dirs(original, dirs, files, d, j);
        dirs_are_added(original, dirs, d.tree, j);
        assert(has_dir(original, dirs[j as int]));
        assert(parents_fit(prev.tree, dirs[j as int])) by {
            assert forall|p: Seq<char>| #[trigger] is_ancestor(p, dirs[j as int]) implies !has_file(
                prev.tree,
                p,
            ) by {
                assert(has_dir(original, p));
            }
        }
        assert(perform(w, prev, a) == (next, Answer::Done));
        lemma_do(w, keeps, a, told + rest, count, lost, prev);
        let s = running(open_entries(from, entries, progress, k) + rest, count, lost);
        lemma_then(
            w,
            keeps,
            s,
            d,
            running(tail, count, lost),
            prev,
            running(told + rest, count, lost),
            next,
        );
        lemma_report(w, keeps, progress, k, entries.len(), rest, count, lost, next);
        lemma_then(
            w,
            keeps,
            s,
            d,
            running(told + rest, count, lost),
            next,
            running(rest, count, lost),
            next,
        );
    }
}

/// Is a file read next, where `left` is what is left to read after some of them? The
/// stream must have the number that is due.
pub open spec fn reads_next(
    w: World,
    from: Option<u64>,
    at: nat,
    tree: Tree,
    files: Seq<Seq<char>>,
    left: spec_fn(nat) -> Seq<u8>,
    k: nat,
) -> bool {
    open_numbered(w.key, number_due(from, at + k), left(k)) == read_through(
        content(tree, files[k as int]),
        left(k + 1),
    )
}

/// Are the first `n` files read in turn?
pub open spec fn reads_in_turn(
    w: World,
    from: Option<u64>,
    at: nat,
    tree: Tree,
    files: Seq<Seq<char>>,
    left: spec_fn(nat) -> Seq<u8>,
    n: nat,
) -> bool {
    forall|k: nat| k < n ==> #[trigger] reads_next(w, from, at, tree, files, left, k)
}

/// The disk after the directories were created and the first `k` files restored.
pub open spec fn opened(
    original: Tree,
    dirs: Seq<Seq<char>>,
    files: Seq<Seq<char>>,
    left: spec_fn(nat) -> Seq<u8>,
    d: Disk,
    k: nat,
) -> Disk {
    Disk {
        tree: opened_tree(original, dirs, files, d.tree, d, k),
        draft: if k == 0 {
            d.draft
        } else {
            None
        },
        unread: left(k),
        ..d
    }
}

pub(crate) proof fn lemma_opening_files(
    original: Tree,
    dirs: Seq<Seq<char>>,
    files: Seq<Seq<char>>,
    left: spec_fn(nat) -> Seq<u8>,
    d: Disk,
    k: nat,
)
    requires
        k <= files.len(),
        names_tree(original, dirs, stored_pairs(files)),
        openable(original, files, d),
    ensures
        opening(original, files, d, opened(original, dirs, files, left, d, k)),
{
    let pairs = stored_pairs(files);
    let made = with_tree(d, with_dirs(d.tree, dirs, dirs.len()));
    let v = as_streams(original, files, made);
    let e = opened(original, dirs, files, left, d, k);
    lemma_opening_dirs(original, dirs, files, d, dirs.len());
    files_come_back_safely(original, Store::Streams, dirs, pairs, v, 0, k);
    let between = disk_between(original, Store::Streams, pairs, v, 0, k);
    let u = as_streams(original, files, e);
    assert(between.tree == u.tree);
    assert(store_of(between, Store::Streams)->0 =~= store_of(u, Store::Streams)->0);
    assert forall|i: int| 0 <= i < pairs.len() && stores(
        u,
        Store::Streams,
        (#[trigger] pairs[i]).1,
    ) implies stored_content(u, Store::Streams, pairs[i].1) == content(original, pairs[i].0) by {
        assert(stores(between, Store::Streams, pairs[i].1));
    }
    assert(unlockable(original, Store::Streams, pairs, u));
}

pub(crate) proof fn lemma_file_has_place(
    w: World,
    original: Tree,
    dirs: Seq<Seq<char>>,
    files: Seq<Seq<char>>,
    left: spec_fn(nat) -> Seq<u8>,
    d: Disk,
    k: nat,
)
    requires
        k < files.len(),
        names_tree(original, dirs, stored_pairs(files)),
        openable(original, files, d),
    ensures
        ({
            let rel = files[k as int];
            let here = opened(original, dirs, files, left, d, k);
            let next = opened(original, dirs, files, left, d, k + 1);
            &&& perform(w, here, Action::MakeParents { rel }) == (here, Answer::Done)
            &&& file_fits(here.tree, rel)
            &&& with_file(here.tree, rel, content(original, rel)) == next.tree
        }),
{
    let pairs = stored_pairs(files);
    let rel = files[k as int];
    let name = pairs[k as int].1;
    let made = with_tree(d, with_dirs(d.tree, dirs, dirs.len()));
    let v = as_streams(original, files, made);
    let here = opened(original, dirs, files, left, d, k);
    lemma_opening_dirs(original, dirs, files, d, dirs.len());
    dirs_are_added(original, dirs, d.tree, dirs.len());
    assert(dirs_there(original, v.tree)) by {
        assert forall|p: Seq<char>| #[trigger] has_dir(original, p) implies has_dir(v.tree, p) by {
            assert(dirs.contains(p));
            let i = dirs.index_of(p);
            assert(has_dir(v.tree, dirs[i]));
        }
    }
    lemma_as_streams(original, files, made, k as int);
    lemma_file_returns(w, original, Store::Streams, dirs, pairs, v, k);
    let vk = disk_after(original, Store::Streams, pairs, v, k);
    assert(vk.tree == here.tree);
    let parents = perform(w, vk, Action::MakeParents { rel });
    assert(parents.1 == Answer::Done);
    assert(parents_fit(vk.tree, rel));
    assert(with_parents(vk.tree, rel) == vk.tree);
    let fetched = perform(w, vk, Action::Fetch { store: Store::Streams, rel, name });
    assert(fetched.1 == Answer::Done);
    lemma_store_after(Store::Streams, pairs, v, vk, k, k as int);
    assert(perform(w, here, Action::MakeParents { rel }).0 =~= here);
}

proof fn lemma_file_opens(
    w: World,
    from: Option<u64>,
    original: Tree,
    dirs: Seq<Seq<char>>,
    files: Seq<Seq<char>>,
    left: spec_fn(nat) -> Seq<u8>,
    d: Disk,
    k: nat,
)
    requires
        k < files.len(),
        names_tree(original, dirs, stored_pairs(files)),
        openable(original, files, d),
        reads_in_turn(w, from, dirs.len(), original, files, left, k + 1),
    ensures
        perform(
            w,
            opened(original, dirs, files, left, d, k),
            Action::OpenFile { rel: files[k as int], due: number_due(from, dirs.len() + k) },
        ) == (opened(original, dirs, files, left, d, k + 1), Answer::Done),
{
    let rel = files[k as int];
    let here = opened(original, dirs, files, left, d, k);
    let due = number_due(from, dirs.len() + k);
    lemma_file_has_place(w, original, dirs, files, left, d, k);
    assert(reads_next(w, from, dirs.len(), original, files, left, k));
    assert(perform(w, here, Action::OpenFile { rel, due }).0 =~= opened(
        original,
        dirs,
        files,
        left,
        d,
        k + 1,
    ));
}

#[verifier::rlimit(30)]
proof fn lemma_open_one(
    w: World,
    keeps: spec_fn(Disk) -> bool,
    from: Option<u64>,
    original: Tree,
    dirs: Seq<Seq<char>>,
    files: Seq<Seq<char>>,
    left: spec_fn(nat) -> Seq<u8>,
    progress: bool,
    j: nat,
    rest: Seq<Step>,
    count: nat,
    lost: Seq<Seq<char>>,
    d: Disk,
)
    requires
        j < files.len(),
        names_tree(original, dirs, stored_pairs(files)),
        openable(original, files, d),
        reads_in_turn(w, from, dirs.len(), original, files, left, j + 1),
        forall|e: Disk| #[trigger] opening(original, files, d, e) ==> keeps(e),
    ensures
        gets_to(
            w,
            keeps,
            running(
                seq![Task::Do(Action::MakeParents { rel: files[j as int] })] + (seq![
                    Task::Do(
                        Action::OpenFile {
                            rel: files[j as int],
                            due: number_due(from, dirs.len() + j),
                        },
                    ),
                ] + (report(progress, dirs.len() + j + 1, plain_entries(dirs, files).len())
                    + rest)),
                count,
                lost,
            ),
            opened(original, dirs, files, left, d, j),
            running(rest, count + 1, lost),
            opened(original, dirs, files, left, d, j + 1),
        ),
{
    let rel = files[j as int];
    let parents = Action::MakeParents { rel };
    let open = Action::OpenFile { rel, due: number_due(from, dirs.len() + j) };
    let total = plain_entries(dirs, files).len();
    let told = report(progress, dirs.len() + j + 1, total);
    let tail2 = seq![Task::Do(open)] + (told + rest);
    let here = opened(original, dirs, files, left, d, j);
    let next = opened(original, dirs, files, left, d, j + 1);
    let s = running(seq![Task::Do(parents)] + tail2, count, lost);
    lemma_opening_files(original, dirs, files, left, d, j);
    lemma_opening_files(original, dirs, files, left, d, j + 1);
    lemma_file_has_place(w, original, dirs, files, left, d, j);
    lemma_file_opens(w, from, original, dirs, files, left, d, j);
    lemma_do(w, keeps, parents, tail2, count, lost, here);
    lemma_do(w, keeps, open, told + rest, count, lost, here);
    lemma_then(
        w,
        keeps,
        s,
        here,
        running(tail2, count, lost),
        here,
        running(told + rest, count + 1, lost),
        next,
    );
    lemma_report(w, keeps, progress, dirs.len() + j + 1, total, rest, count + 1, lost, next);
    lemma_then(
        w,
        keeps,
        s,
        here,
        running(told + rest, count + 1, lost),
        next,
        running(rest, count + 1, lost),
        next,
    );
}

/// Unlocking a streamed vault restores every directory and every file; and at no
/// time could the unlock not start anew.
#[verifier::rlimit(30)]
pub proof fn opening_restores_every_file(
    w: World,
    keeps: spec_fn(Disk) -> bool,
    from: Option<u64>,
    original: Tree,
    dirs: Seq<Seq<char>>,
    files: Seq<Seq<char>>,
    left: spec_fn(nat) -> Seq<u8>,
    progress: bool,
    k: nat,
    rest: Seq<Step>,
    count: nat,
    lost: Seq<Seq<char>>,
    d: Disk,
)
    requires
        k <= files.len(),
        names_tree(original, dirs, stored_pairs(files)),
        openable(original, files, d),
        reads_in_turn(w, from, dirs.len(), original, files, left, k),
        d.unread == left(0),
        forall|e: Disk| #[trigger] opening(original, files, d, e) ==> keeps(e),
    ensures
        gets_to(
            w,
            keeps,
            running(
                open_entries(from, plain_entries(dirs, files), progress, dirs.len() + k) + rest,
                count,
                lost,
            ),
            d,
            running(rest, count + k, lost),
            opened(original, dirs, files, left, d, k),
        ),
    decreases k,
{
    let entries = plain_entries(dirs, files);
    let m = dirs.len() + k;
    let s = running(open_entries(from, entries, progress, m) + rest, count, lost);
    if k == 0 {
        lemma_open_dirs(
            w,
            keeps,
            from,
            original,
            dirs,
            files,
            progress,
            dirs.len(),
            rest,
            count,
            lost,
            d,
        );
        let made = with_tree(d, with_dirs(d.tree, dirs, dirs.len()));
        let v = as_streams(original, files, made);
        lemma_nothing_back(original, Store::Streams, stored_pairs(files), v);
        assert(opened(original, dirs, files, left, d, 0) =~= made) by {
            assert(disk_after(original, Store::Streams, stored_pairs(files), v, 0).tree == v.tree);
        }
    } else {
        let j = (k - 1) as nat;
        let rel = files[j as int];
        let parents = Action::MakeParents { rel };
        let open = Action::OpenFile { rel, due: number_due(from, dirs.len() + j) };
        let told = report(progress, m, entries.len());
        let tail2 = seq![Task::Do(open)] + (told + rest);
        let tail = seq![Task::Do(parents)] + tail2;
        let here = opened(original, dirs, files, left, d, j);
        let next = opened(original, dirs, files, left, d, k);
        assert(entries[m - 1] == (Entry { rel, is_dir: false, stream: None }));
        assert(open_entry(number_due(from, dirs.len() + j), entries[m - 1]) =~= seq![Task::Do(parents), Task::Do(open)]);
        assert(open_entries(from, entries, progress, m) + rest =~= open_entries(
            from,
            entries,
            progress,
            dirs.len() + j,
        ) + tail);
        opening_restores_every_file(
            w,
            keeps,
            from,
            original,
            dirs,
            files,
            left,
            progress,
            j,
            tail,
            count,
            lost,
            d,
        );
        lemma_open_one(
            w,
            keeps,
            from,
            original,
            dirs,
            files,
            left,
            progress,
            j,
            rest,
            count + j,
            lost,
            d,
        );
        lemma_then(
            w,
            keeps,
            s,
            d,
            running(tail, count + j, lost),
            here,
            running(rest, count + k, lost),
            next,
        );
    }
}

} // verus!
