//! Bringing the files of a folder back out of a store.

use vstd::prelude::*;

use crate::disk::{
    content, file_fits, gets_to, has_dir, has_file, lemma_do, lemma_here, lemma_one, lemma_then,
    parents_fit, parents_there, perform, rooted, running, store_of, stored_content, stores,
    with_file, with_parents, with_store, with_tree, Disk, Item, Stored, Tree, World,
};
use crate::job::{after, unlock_steps, Action, Answer, Step, Store, Task};
use crate::manifest::Entry;
use crate::path::is_ancestor;
use crate::storing::{distinct, lemma_report};
use crate::vault::{dir_entry, report, unlock_entries, unlock_entry, Pair};

verus! {

// ── what can be restored ──

/// Where both trees have something, do they agree on what is a directory?
pub open spec fn fits(tree: Tree, original: Tree) -> bool {
    forall|p: Seq<char>| #[trigger]
        tree.contains_key(p) && original.contains_key(p) ==> (tree[p] is Dir <==> original[p] is Dir)
}

/// A disk on which an unlock can start or go on: what is there does not stand in
/// the way of the original tree, and the contents that are to be had, in the store
/// or else in the tree, are the original ones.
pub open spec fn unlockable(original: Tree, store: Store, pairs: Seq<Pair>, d: Disk) -> bool {
    &&& fits(d.tree, original)
    &&& forall|i: int|
        0 <= i < pairs.len() && stores(d, store, (#[trigger] pairs[i]).1) ==> stored_content(
            d,
            store,
            pairs[i].1,
        ) == content(original, pairs[i].0)
    &&& forall|i: int|
        0 <= i < pairs.len() && !stores(d, store, (#[trigger] pairs[i]).1) && has_file(
            d.tree,
            pairs[i].0,
        ) ==> content(d.tree, pairs[i].0) == content(original, pairs[i].0)
}

/// Is a file to be had, in the store or in the tree?
pub open spec fn survives(store: Store, pair: Pair, d: Disk) -> bool {
    stores(d, store, pair.1) || has_file(d.tree, pair.0)
}

/// A disk on the way of an unlock: only the tree, the store and the temporary file
/// have changed, every file that was to be had still is, and the unlock can go on.
pub open spec fn underway(original: Tree, store: Store, pairs: Seq<Pair>, d: Disk, e: Disk) -> bool {
    &&& unlockable(original, store, pairs, e)
    &&& e == with_store(Disk { tree: e.tree, draft: e.draft, ..d }, store, store_of(e, store))
    &&& forall|i: int|
        0 <= i < pairs.len() ==> (survives(store, #[trigger] pairs[i], d) <==> survives(
            store,
            pairs[i],
            e,
        ))
}

/// Are these the directories and files of a tree in which everything stands in
/// directories that are there?
pub open spec fn names_tree(original: Tree, dirs: Seq<Seq<char>>, pairs: Seq<Pair>) -> bool {
    &&& rooted(original)
    &&& distinct(pairs)
    &&& forall|i: int| 0 <= i < dirs.len() ==> has_dir(original, #[trigger] dirs[i])
    &&& forall|i: int| 0 <= i < pairs.len() ==> has_file(original, (#[trigger] pairs[i]).0)
    &&& forall|p: Seq<char>| #[trigger] has_dir(original, p) ==> dirs.contains(p)
    &&& forall|p: Seq<char>| #[trigger]
        has_file(original, p) ==> exists|i: int| 0 <= i < pairs.len() && #[trigger] pairs[i].0 == p
}

// ── directories ──

/// A tree with a directory and those above it created.
pub open spec fn with_dir(tree: Tree, rel: Seq<char>) -> Tree {
    let above = with_parents(tree, rel);
    if above.contains_key(rel) {
        above
    } else {
        above.insert(rel, Item::Dir)
    }
}

/// A tree with the first `k` directories created.
pub open spec fn with_dirs(tree: Tree, dirs: Seq<Seq<char>>, k: nat) -> Tree
    decreases k,
{
    if k == 0 {
        tree
    } else {
        with_dir(with_dirs(tree, dirs, (k - 1) as nat), dirs[k - 1])
    }
}

/// Creating directories keeps what is there, and adds directories of the original
/// tree alone.
pub proof fn dirs_are_added(original: Tree, dirs: Seq<Seq<char>>, tree: Tree, k: nat)
    requires
        k <= dirs.len(),
        rooted(original),
        forall|i: int| 0 <= i < dirs.len() ==> has_dir(original, #[trigger] dirs[i]),
        fits(tree, original),
    ensures
        fits(with_dirs(tree, dirs, k), original),
        forall|p: Seq<char>| #[trigger]
            tree.contains_key(p) ==> with_dirs(tree, dirs, k).contains_key(p) && with_dirs(
                tree,
                dirs,
                k,
            )[p] == tree[p],
        forall|p: Seq<char>| #[trigger]
            with_dirs(tree, dirs, k).contains_key(p) && !tree.contains_key(p) ==> has_dir(
                original,
                p,
            ) && has_dir(with_dirs(tree, dirs, k), p),
        forall|i: int| 0 <= i < k ==> has_dir(with_dirs(tree, dirs, k), #[trigger] dirs[i]),
    decreases k,
{
    if k > 0 {
        let j = (k - 1) as nat;
        let prev = with_dirs(tree, dirs, j);
        let next = with_dirs(tree, dirs, k);
        let rel = dirs[j as int];
        dirs_are_added(original, dirs, tree, j);
        assert(has_dir(original, rel));
        assert forall|p: Seq<char>| #[trigger] next.contains_key(p) && !tree.contains_key(
            p,
        ) implies has_dir(original, p) && has_dir(next, p) by {
            if !prev.contains_key(p) {
                assert(p == rel || is_ancestor(p, rel));
            }
        }
        assert forall|i: int| 0 <= i < k implies has_dir(next, #[trigger] dirs[i]) by {
            assert(has_dir(original, dirs[i]));
        }
    }
}

pub(crate) proof fn lemma_dirs_underway(
    original: Tree,
    store: Store,
    dirs: Seq<Seq<char>>,
    pairs: Seq<Pair>,
    d: Disk,
    k: nat,
)
    requires
        k <= dirs.len(),
        names_tree(original, dirs, pairs),
        unlockable(original, store, pairs, d),
    ensures
        underway(original, store, pairs, d, with_tree(d, with_dirs(d.tree, dirs, k))),
{
    dirs_are_added(original, dirs, d.tree, k);
    let e = with_tree(d, with_dirs(d.tree, dirs, k));
    assert forall|i: int| 0 <= i < pairs.len() implies has_file(
        e.tree,
        (#[trigger] pairs[i]).0,
    ) == has_file(d.tree, pairs[i].0) && (has_file(d.tree, pairs[i].0) ==> content(
        e.tree,
        pairs[i].0,
    ) == content(d.tree, pairs[i].0)) by {
        assert(has_file(original, pairs[i].0));
        let p = pairs[i].0;
        if e.tree.contains_key(p) && !d.tree.contains_key(p) {
            assert(has_dir(original, p));
        }
    }
    assert forall|i: int|
        0 <= i < pairs.len() && stores(e, store, (#[trigger] pairs[i]).1) implies stored_content(
        e,
        store,
        pairs[i].1,
    ) == content(original, pairs[i].0) by {
        assert(stores(d, store, pairs[i].1));
    }
    assert(e =~= with_store(
        Disk { tree: e.tree, draft: e.draft, ..d },
        store,
        store_of(e, store),
    ));
}

proof fn lemma_make_dirs(
    w: World,
    keeps: spec_fn(Disk) -> bool,
    original: Tree,
    store: Store,
    dirs: Seq<Seq<char>>,
    pairs: Seq<Pair>,
    entries: Seq<Entry>,
    progress: bool,
    total: nat,
    k: nat,
    rest: Seq<Step>,
    count: nat,
    lost: Seq<Seq<char>>,
    d: Disk,
)
    requires
        k <= dirs.len() <= entries.len(),
        forall|i: int| 0 <= i < dirs.len() ==> #[trigger] entries[i] == dir_entry(dirs[i]),
        names_tree(original, dirs, pairs),
        unlockable(original, store, pairs, d),
        forall|e: Disk| #[trigger] underway(original, store, pairs, d, e) ==> keeps(e),
    ensures
        gets_to(
            w,
            keeps,
            running(unlock_entries(store, entries, progress, total, k) + rest, count, lost),
            d,
            running(rest, count, lost),
            with_tree(d, with_dirs(d.tree, dirs, k)),
        ),
    decreases k,
{
    lemma_dirs_underway(original, store, dirs, pairs, d, k);
    if k == 0 {
        assert(unlock_entries(store, entries, progress, total, k) + rest =~= rest);
        assert(with_tree(d, with_dirs(d.tree, dirs, 0)) == d);
        lemma_here(w, keeps, running(rest, count, lost), d);
    } else {
        let j = (k - 1) as nat;
        let a = Action::MakeDir { rel: dirs[j as int] };
        let told = report(progress, k, total);
        let tail = seq![Task::Do(a)] + (told + rest);
        let prev = with_tree(d, with_dirs(d.tree, dirs, j));
        let next = with_tree(d, with_dirs(d.tree, dirs, k));
        assert(entries[j as int] == dir_entry(dirs[j as int]));
        assert(unlock_entries(store, entries, progress, total, k) + rest =~= unlock_entries(
            store,
            entries,
            progress,
            total,
            j,
        ) + tail);
        lemma_make_dirs(
            w,
            keeps,
            original,
            store,
            dirs,
            pairs,
            entries,
            progress,
            total,
            j,
            tail,
            count,
            lost,
            d,
        );
        lemma_dirs_underway(original, store, dirs, pairs, d, j);
        dirs_are_added(original, dirs, d.tree, j);
        assert(has_dir(original, dirs[j as int]));
        assert(parents_fit(prev.tree, dirs[j as int])) by {
            assert forall|p: Seq<char>| #[trigger] is_ancestor(p, dirs[j as int]) implies !has_file(
                prev.tree,
                p,
            ) by {
                assert(has_dir(original, p));
            }
        }
        assert(perform(w, prev, a) == (next, Answer::Done));
        lemma_do(w, keeps, a, told + rest, count, lost, prev);
        let start = running(
            unlock_entries(store, entries, progress, total, k) + rest,
            count,
            lost,
        );
        lemma_then(
            w,
            keeps,
            start,
            d,
            running(tail, count, lost),
            prev,
            running(told + rest, count, lost),
            next,
        );
        lemma_report(w, keeps, progress, k, total, rest, count, lost, next);
        lemma_then(
            w,
            keeps,
            start,
            d,
            running(told + rest, count, lost),
            next,
            running(rest, count, lost),
            next,
        );
    }
}

// ── files ──

/// Was the file at this path among the first `k` that the store had?
pub open spec fn came_back(store: Store, pairs: Seq<Pair>, d: Disk, k: nat, p: Seq<char>) -> bool {
    exists|j: int| 0 <= j < k && stores(d, store, (#[trigger] pairs[j]).1) && pairs[j].0 == p
}

/// The tree after the first `k` files came back.
pub open spec fn tree_after(
    original: Tree,
    store: Store,
    pairs: Seq<Pair>,
    d: Disk,
    k: nat,
) -> Tree {
    Map::new(
        |p: Seq<char>|
            came_back(store, pairs, d, k, p) || d.tree.contains_key(p),
        |p: Seq<char>|
            if came_back(store, pairs, d, k, p) {
                original[p]
            } else {
                d.tree[p]
            },
    )
}

/// The store after the first `k` files came back.
pub open spec fn store_after(store: Store, pairs: Seq<Pair>, d: Disk, k: nat) -> Option<Stored> {
    match store_of(d, store) {
        None => None,
        Some(held) => Some(
            Map::new(
                |n: Seq<char>|
                    held.contains_key(n) && !(exists|j: int|
                        0 <= j < k && (#[trigger] pairs[j]).1 == n),
                |n: Seq<char>| held[n],
            ),
        ),
    }
}

/// The temporary file after the first `k` files came back: with each file that comes
/// out of a stream it is filled and renamed into place.
pub open spec fn leftover_after(store: Store, pairs: Seq<Pair>, d: Disk, k: nat) -> Option<Seq<u8>>
    decreases k,
{
    if k == 0 {
        d.draft
    } else if store == Store::Streams && stores(d, store, pairs[k - 1].1) {
        None
    } else {
        leftover_after(store, pairs, d, (k - 1) as nat)
    }
}

/// Where there was no temporary file, none is left.
pub proof fn no_temporary_is_left(store: Store, pairs: Seq<Pair>, d: Disk, k: nat)
    requires
        d.draft is None,
    ensures
        leftover_after(store, pairs, d, k) is None,
    decreases k,
{
    if k > 0 {
        no_temporary_is_left(store, pairs, d, (k - 1) as nat);
    }
}

/// The disk after the first `k` files came back.
pub open spec fn disk_after(
    original: Tree,
    store: Store,
    pairs: Seq<Pair>,
    d: Disk,
    k: nat,
) -> Disk {
    with_store(
        Disk {
            tree: tree_after(original, store, pairs, d, k),
            draft: leftover_after(store, pairs, d, k),
            ..d
        },
        store,
        store_after(store, pairs, d, k),
    )
}

/// How many of the first `k` files are to be had.
pub open spec fn survivors(store: Store, pairs: Seq<Pair>, d: Disk, k: nat) -> nat
    decreases k,
{
    if k == 0 {
        0
    } else {
        survivors(store, pairs, d, (k - 1) as nat) + if survives(store, pairs[k - 1], d) {
            1nat
        } else {
            0nat
        }
    }
}

/// Those of the first `k` files that are not to be had.
pub open spec fn losses(store: Store, pairs: Seq<Pair>, d: Disk, k: nat) -> Seq<Seq<char>>
    decreases k,
{
    if k == 0 {
        Seq::empty()
    } else {
        let before = losses(store, pairs, d, (k - 1) as nat);
        if survives(store, pairs[k - 1], d) {
            before
        } else {
            before.push(pairs[k - 1].0)
        }
    }
}

/// Are all the directories of the original tree there?
pub open spec fn dirs_there(original: Tree, tree: Tree) -> bool {
    forall|p: Seq<char>| #[trigger] has_dir(original, p) ==> has_dir(tree, p)
}

/// The disk on which the tree has the first `m` files back, and the store has let
/// go of the first `k`.
pub open spec fn disk_between(
    original: Tree,
    store: Store,
    pairs: Seq<Pair>,
    d: Disk,
    k: nat,
    m: nat,
) -> Disk {
    with_store(
        Disk {
            tree: tree_after(original, store, pairs, d, m),
            draft: leftover_after(store, pairs, d, m),
            ..d
        },
        store,
        store_after(store, pairs, d, k),
    )
}

pub(crate) proof fn lemma_store_after(store: Store, pairs: Seq<Pair>, d: Disk, e: Disk, k: nat, j: int)
    requires
        distinct(pairs),
        k <= pairs.len(),
        0 <= j < pairs.len(),
        store_of(e, store) == store_after(store, pairs, d, k),
    ensures
        stores(e, store, pairs[j].1) <==> j >= k && stores(d, store, pairs[j].1),
        stores(e, store, pairs[j].1) ==> stored_content(e, store, pairs[j].1) == stored_content(
            d,
            store,
            pairs[j].1,
        ),
{
    if let Some(held) = store_of(d, store) {
        let n = pairs[j].1;
        if j < k {
            assert(pairs[j].1 == n);
        } else {
            assert forall|i: int| 0 <= i < k implies (#[trigger] pairs[i]).1 != n by {
                assert(pairs[i].1 != pairs[j].1);
            }
        }
    }
}

pub(crate) proof fn lemma_tree_after_file(
    original: Tree,
    store: Store,
    pairs: Seq<Pair>,
    d: Disk,
    m: nat,
    j: int,
)
    requires
        distinct(pairs),
        m <= pairs.len(),
        0 <= j < pairs.len(),
        unlockable(original, store, pairs, d),
    ensures
        stores(d, store, pairs[j].1) && j < m ==> {
            &&& tree_after(original, store, pairs, d, m).contains_key(pairs[j].0)
            &&& tree_after(original, store, pairs, d, m)[pairs[j].0] == original[pairs[j].0]
        },
        !stores(d, store, pairs[j].1) ==> {
            &&& tree_after(original, store, pairs, d, m).contains_key(pairs[j].0)
                == d.tree.contains_key(pairs[j].0)
            &&& tree_after(original, store, pairs, d, m)[pairs[j].0] == d.tree[pairs[j].0]
                || !d.tree.contains_key(pairs[j].0)
        },
{
    let p = pairs[j].0;
    if stores(d, store, pairs[j].1) {
        if j < m {
            assert(came_back(store, pairs, d, m, p));
        }
    } else {
        assert(!came_back(store, pairs, d, m, p)) by {
            if came_back(store, pairs, d, m, p) {
                let i = choose|i: int|
                    0 <= i < m && stores(d, store, (#[trigger] pairs[i]).1) && pairs[i].0 == p;
                if i != j {
                    assert(pairs[i].0 != pairs[j].0);
                }
            }
        }
    }
}

pub(crate) proof fn lemma_tree_after_dirs(
    original: Tree,
    store: Store,
    dirs: Seq<Seq<char>>,
    pairs: Seq<Pair>,
    d: Disk,
    m: nat,
)
    requires
        m <= pairs.len(),
        names_tree(original, dirs, pairs),
        unlockable(original, store, pairs, d),
    ensures
        fits(tree_after(original, store, pairs, d, m), original),
        forall|p: Seq<char>| #[trigger]
            has_dir(tree_after(original, store, pairs, d, m), p) ==> has_dir(d.tree, p),
        dirs_there(original, d.tree) ==> dirs_there(
            original,
            tree_after(original, store, pairs, d, m),
        ),
{
    let t = tree_after(original, store, pairs, d, m);
    assert forall|p: Seq<char>| came_back(store, pairs, d, m, p) implies has_file(original, p) by {
        let i = choose|i: int|
            0 <= i < m && stores(d, store, (#[trigger] pairs[i]).1) && pairs[i].0 == p;
        assert(has_file(original, pairs[i].0));
    }
    assert forall|p: Seq<char>| #[trigger] has_dir(t, p) implies has_dir(d.tree, p) by {
        if came_back(store, pairs, d, m, p) {
            assert(has_file(original, p));
        }
    }
    assert(fits(t, original)) by {
        assert forall|p: Seq<char>| #[trigger] t.contains_key(p) && original.contains_key(
            p,
        ) implies (t[p] is Dir <==> original[p] is Dir) by {
            if !came_back(store, pairs, d, m, p) {
                assert(d.tree.contains_key(p));
            }
        }
    }
    if dirs_there(original, d.tree) {
        assert forall|p: Seq<char>| #[trigger] has_dir(original, p) implies has_dir(t, p) by {
            assert(has_dir(d.tree, p));
            assert(!came_back(store, pairs, d, m, p));
        }
    }
}

/// While files come back, every file that was to be had still is, and the unlock
/// could start anew.
#[verifier::rlimit(30)]
pub proof fn files_come_back_safely(
    original: Tree,
    store: Store,
    dirs: Seq<Seq<char>>,
    pairs: Seq<Pair>,
    d: Disk,
    k: nat,
    m: nat,
)
    requires
        k <= m <= pairs.len(),
        names_tree(original, dirs, pairs),
        unlockable(original, store, pairs, d),
    ensures
        underway(
            original,
            store,
            pairs,
            d,
            disk_between(original, store, pairs, d, k, m),
        ),
{
    let e = disk_between(original, store, pairs, d, k, m);
    assert(store_of(e, store) == store_after(store, pairs, d, k));
    assert(e.tree == tree_after(original, store, pairs, d, m));
    lemma_tree_after_dirs(original, store, dirs, pairs, d, m);
    assert forall|i: int| 0 <= i < pairs.len() && stores(
        e,
        store,
        (#[trigger] pairs[i]).1,
    ) implies stored_content(e, store, pairs[i].1) == content(original, pairs[i].0) by {
        lemma_store_after(store, pairs, d, e, k, i);
    }
    assert forall|i: int| 0 <= i < pairs.len() implies (!stores(
        e,
        store,
        (#[trigger] pairs[i]).1,
    ) && has_file(e.tree, pairs[i].0) ==> content(e.tree, pairs[i].0) == content(
        original,
        pairs[i].0,
    )) && (survives(store, pairs[i], d) <==> survives(store, pairs[i], e)) by {
        lemma_store_after(store, pairs, d, e, k, i);
        lemma_tree_after_file(original, store, pairs, d, m, i);
        assert(has_file(original, pairs[i].0));
        if !stores(d, store, pairs[i].1) && has_file(d.tree, pairs[i].0) {
            assert(content(d.tree, pairs[i].0) == content(original, pairs[i].0));
        }
    }
    assert(e =~= with_store(
        Disk { tree: e.tree, draft: e.draft, ..d },
        store,
        store_of(e, store),
    ));
}

pub(crate) proof fn lemma_file_returns(
    w: World,
    original: Tree,
    store: Store,
    dirs: Seq<Seq<char>>,
    pairs: Seq<Pair>,
    d: Disk,
    k: nat,
)
    requires
        k < pairs.len(),
        names_tree(original, dirs, pairs),
        unlockable(original, store, pairs, d),
        dirs_there(original, d.tree),
        stores(d, store, pairs[k as int].1),
    ensures
        ({
            let (rel, name) = pairs[k as int];
            let here = disk_after(original, store, pairs, d, k);
            &&& perform(w, here, Action::MakeParents { rel }) == (here, Answer::Done)
            &&& match store {
                Store::Streams => {
                    let both = disk_between(original, store, pairs, d, k, k + 1);
                    &&& perform(w, here, Action::Fetch { store, rel, name }) == (
                        both,
                        Answer::Done,
                    )
                    &&& perform(w, both, Action::RemoveStream { name }) == (
                        disk_after(original, store, pairs, d, k + 1),
                        Answer::Done,
                    )
                },
                Store::Container => perform(w, here, Action::Fetch { store, rel, name }) == (
                    disk_after(original, store, pairs, d, k + 1),
                    Answer::Done,
                ),
            }
        }),
{
    let (rel, name) = pairs[k as int];
    let here = disk_after(original, store, pairs, d, k);
    let next = disk_after(original, store, pairs, d, k + 1);
    let bytes = content(original, rel);
    lemma_store_after(store, pairs, d, here, k, k as int);
    lemma_tree_after_dirs(original, store, dirs, pairs, d, k);
    assert(has_file(original, pairs[k as int].0));
    assert(parents_there(here.tree, rel)) by {
        assert forall|p: Seq<char>| #[trigger] is_ancestor(p, rel) implies has_dir(here.tree, p) by {
            assert(has_dir(original, p));
        }
    }
    assert(with_parents(here.tree, rel) =~= here.tree);
    assert(parents_fit(here.tree, rel)) by {
        assert forall|p: Seq<char>| #[trigger] is_ancestor(p, rel) implies !has_file(
            here.tree,
            p,
        ) by {
            assert(has_dir(here.tree, p));
        }
    }
    assert(!has_dir(here.tree, rel)) by {
        if has_dir(here.tree, rel) {
            assert(here.tree.contains_key(rel));
        }
    }
    assert(file_fits(here.tree, rel));
    assert(with_file(here.tree, rel, bytes) =~= next.tree) by {
        let made = with_file(here.tree, rel, bytes);
        assert(came_back(store, pairs, d, k + 1, rel)) by {
            assert(stores(d, store, pairs[k as int].1) && pairs[k as int].0 == rel);
        }
        assert(original[rel] == Item::File(bytes));
        assert forall|p: Seq<char>| came_back(store, pairs, d, k, p) implies came_back(
            store,
            pairs,
            d,
            k + 1,
            p,
        ) by {
            let i = choose|i: int|
                0 <= i < k && stores(d, store, (#[trigger] pairs[i]).1) && pairs[i].0 == p;
            assert(0 <= i < k + 1 && stores(d, store, pairs[i].1) && pairs[i].0 == p);
        }
        assert forall|p: Seq<char>| p != rel && came_back(store, pairs, d, k + 1, p) implies came_back(
            store,
            pairs,
            d,
            k,
            p,
        ) by {
            let i = choose|i: int|
                0 <= i < k + 1 && stores(d, store, (#[trigger] pairs[i]).1) && pairs[i].0 == p;
            assert(i < k);
            assert(0 <= i < k && stores(d, store, pairs[i].1) && pairs[i].0 == p);
        }
        assert forall|p: Seq<char>| made.contains_key(p) == next.tree.contains_key(p) by {}
    }
    let held = store_of(here, store)->0;
    assert(held.remove(name) =~= store_after(store, pairs, d, k + 1)->0) by {
        let after = store_after(store, pairs, d, k + 1)->0;
        assert forall|n: Seq<char>| held.remove(name).contains_key(n) == after.contains_key(n) by {
            if held.remove(name).contains_key(n) {
                assert forall|j: int| 0 <= j < k + 1 implies (#[trigger] pairs[j]).1 != n by {
                    if j < k {
                        assert(pairs[j].1 != n);
                    }
                }
            }
            if after.contains_key(n) {
                assert(pairs[k as int].1 != n);
                assert forall|j: int| 0 <= j < k implies (#[trigger] pairs[j]).1 != n by {}
            }
        }
    }
    match store {
        Store::Streams => {
            let both = disk_between(original, store, pairs, d, k, k + 1);
            assert(perform(
                w,
                here,
                Action::Fetch { store, rel, name },
            ).0 =~= both);
            assert(perform(w, both, Action::RemoveStream { name }).0 =~= next);
        },
        Store::Container => {
            assert(perform(
                w,
                here,
                Action::Fetch { store, rel, name },
            ).0 =~= next);
        },
    }
}

proof fn lemma_disk_after_lost(original: Tree, store: Store, pairs: Seq<Pair>, d: Disk, k: nat)
    requires
        k < pairs.len(),
        !stores(d, store, pairs[k as int].1),
    ensures
        disk_after(original, store, pairs, d, k + 1) == disk_after(original, store, pairs, d, k),
{
    assert forall|p: Seq<char>| came_back(store, pairs, d, k + 1, p) == came_back(
        store,
        pairs,
        d,
        k,
        p,
    ) by {
        if came_back(store, pairs, d, k + 1, p) {
            let i = choose|i: int|
                0 <= i < k + 1 && stores(d, store, (#[trigger] pairs[i]).1) && pairs[i].0 == p;
            assert(0 <= i < k && stores(d, store, pairs[i].1) && pairs[i].0 == p);
        }
        if came_back(store, pairs, d, k, p) {
            let i = choose|i: int|
                0 <= i < k && stores(d, store, (#[trigger] pairs[i]).1) && pairs[i].0 == p;
            assert(0 <= i < k + 1 && stores(d, store, pairs[i].1) && pairs[i].0 == p);
        }
    }
    assert(tree_after(original, store, pairs, d, k + 1) =~= tree_after(
        original,
        store,
        pairs,
        d,
        k,
    ));
    if let Some(held) = store_of(d, store) {
        let a = store_after(store, pairs, d, k)->0;
        let b = store_after(store, pairs, d, k + 1)->0;
        assert forall|n: Seq<char>| a.contains_key(n) == b.contains_key(n) by {
            if a.contains_key(n) {
                assert(n != pairs[k as int].1);
                assert forall|j: int| 0 <= j < k + 1 implies (#[trigger] pairs[j]).1 != n by {}
            }
            if b.contains_key(n) {
                assert forall|j: int| 0 <= j < k implies (#[trigger] pairs[j]).1 != n by {}
            }
        }
        assert(a =~= b);
    }
}

proof fn lemma_unlock_one(
    w: World,
    keeps: spec_fn(Disk) -> bool,
    original: Tree,
    store: Store,
    dirs: Seq<Seq<char>>,
    pairs: Seq<Pair>,
    k: nat,
    rest: Seq<Step>,
    count: nat,
    lost: Seq<Seq<char>>,
    d: Disk,
)
    requires
        k < pairs.len(),
        names_tree(original, dirs, pairs),
        unlockable(original, store, pairs, d),
        dirs_there(original, d.tree),
        forall|e: Disk| #[trigger] underway(original, store, pairs, d, e) ==> keeps(e),
    ensures
        gets_to(
            w,
            keeps,
            running(
                seq![
                    Task::Unlock {
                        store,
                        rel: pairs[k as int].0,
                        name: pairs[k as int].1,
                    },
                ] + rest,
                count,
                lost,
            ),
            disk_after(original, store, pairs, d, k),
            running(
                rest,
                if survives(store, pairs[k as int], d) {
                    count + 1
                } else {
                    count
                },
                if survives(store, pairs[k as int], d) {
                    lost
                } else {
                    lost.push(pairs[k as int].0)
                },
            ),
            disk_after(original, store, pairs, d, k + 1),
        ),
{
    let (rel, name) = pairs[k as int];
    let here = disk_after(original, store, pairs, d, k);
    let next = disk_after(original, store, pairs, d, k + 1);
    let s = running(seq![Task::Unlock { store, rel, name }] + rest, count, lost);
    files_come_back_safely(original, store, dirs, pairs, d, k, k);
    files_come_back_safely(original, store, dirs, pairs, d, k + 1, k + 1);
    files_come_back_safely(original, store, dirs, pairs, d, k, k + 1);
    assert(here == disk_between(original, store, pairs, d, k, k));
    assert(next == disk_between(original, store, pairs, d, k + 1, k + 1));
    lemma_store_after(store, pairs, d, here, k, k as int);
    assert(s.todo.drop_first() =~= rest);
    lemma_one(w, keeps, s, here);
    if stores(d, store, name) {
        lemma_file_returns(w, original, store, dirs, pairs, d, k);
        let parents = Action::MakeParents { rel };
        let fetch = Action::Fetch { store, rel, name };
        match store {
            Store::Streams => {
                let drop = Action::RemoveStream { name };
                let both = disk_between(original, store, pairs, d, k, k + 1);
                let tail2 = seq![Task::Do(drop)] + rest;
                let tail1 = seq![Task::Do(fetch)] + tail2;
                let s1 = running(seq![Task::Do(parents)] + tail1, count, lost);
                assert(unlock_steps(store, rel, name) + rest =~= seq![Task::Do(parents)]
                    + tail1);
                assert(after(s, Answer::Found(true)) == s1);
                lemma_do(w, keeps, parents, tail1, count, lost, here);
                lemma_then(w, keeps, s, here, s1, here, running(tail1, count, lost), here);
                lemma_do(w, keeps, fetch, tail2, count, lost, here);
                lemma_then(
                    w,
                    keeps,
                    s,
                    here,
                    running(tail1, count, lost),
                    here,
                    running(tail2, count + 1, lost),
                    both,
                );
                lemma_do(w, keeps, drop, rest, count + 1, lost, both);
                lemma_then(
                    w,
                    keeps,
                    s,
                    here,
                    running(tail2, count + 1, lost),
                    both,
                    running(rest, count + 1, lost),
                    next,
                );
            },
            Store::Container => {
                let tail1 = seq![Task::Do(fetch)] + rest;
                let s1 = running(seq![Task::Do(parents)] + tail1, count, lost);
                assert(unlock_steps(store, rel, name) + rest =~= seq![Task::Do(parents)]
                    + tail1);
                assert(after(s, Answer::Found(true)) == s1);
                lemma_do(w, keeps, parents, tail1, count, lost, here);
                lemma_then(w, keeps, s, here, s1, here, running(tail1, count, lost), here);
                lemma_do(w, keeps, fetch, rest, count, lost, here);
                lemma_then(
                    w,
                    keeps,
                    s,
                    here,
                    running(tail1, count, lost),
                    here,
                    running(rest, count + 1, lost),
                    next,
                );
            },
        }
    } else {
        lemma_disk_after_lost(original, store, pairs, d, k);
        lemma_tree_after_file(original, store, pairs, d, k, k as int);
        let check = Task::<Seq<char>, Seq<u8>>::CheckRestored { rel };
        let s1 = running(seq![check] + rest, count, lost);
        assert(after(s, Answer::Found(false)) == s1);
        assert(s1.todo.drop_first() =~= rest);
        assert(Seq::<Step>::empty() + rest =~= rest);
        assert(has_file(here.tree, rel) == has_file(d.tree, rel));
        lemma_one(w, keeps, s1, here);
        let s2 = if has_file(d.tree, rel) {
            running(rest, count + 1, lost)
        } else {
            running(rest, count, lost.push(rel))
        };
        assert(after(s1, Answer::Found(has_file(d.tree, rel))) == s2);
        lemma_then(w, keeps, s, here, s1, here, s2, here);
    }
}

/// The entries of a manifest whose files are in a store.
pub open spec fn stored_entries(dirs: Seq<Seq<char>>, pairs: Seq<Pair>) -> Seq<Entry> {
    dirs.map_values(|rel: Seq<char>| dir_entry(rel)) + pairs.map_values(
        |p: Pair| Entry { rel: p.0, is_dir: false, stream: Some(p.1) },
    )
}

/// The disk after the directories were created and the first `k` files came back.
pub open spec fn restored(
    original: Tree,
    store: Store,
    dirs: Seq<Seq<char>>,
    pairs: Seq<Pair>,
    d: Disk,
    k: nat,
) -> Disk {
    disk_after(original, store, pairs, with_tree(d, with_dirs(d.tree, dirs, dirs.len())), k)
}

#[verifier::rlimit(30)]
proof fn lemma_unlock_next(
    w: World,
    keeps: spec_fn(Disk) -> bool,
    original: Tree,
    store: Store,
    dirs: Seq<Seq<char>>,
    pairs: Seq<Pair>,
    progress: bool,
    total: nat,
    j: nat,
    rest: Seq<Step>,
    count: nat,
    lost: Seq<Seq<char>>,
    d: Disk,
)
    requires
        j < pairs.len(),
        names_tree(original, dirs, pairs),
        unlockable(original, store, pairs, d),
        forall|e: Disk| #[trigger] underway(original, store, pairs, d, e) ==> keeps(e),
    ensures
        gets_to(
            w,
            keeps,
            running(
                seq![
                    Task::Unlock {
                        store,
                        rel: pairs[j as int].0,
                        name: pairs[j as int].1,
                    },
                ] + (report(progress, dirs.len() + j + 1, total) + rest),
                count,
                lost,
            ),
            restored(original, store, dirs, pairs, d, j),
            running(
                rest,
                if survives(store, pairs[j as int], d) {
                    count + 1
                } else {
                    count
                },
                if survives(store, pairs[j as int], d) {
                    lost
                } else {
                    lost.push(pairs[j as int].0)
                },
            ),
            restored(original, store, dirs, pairs, d, j + 1),
        ),
{
    let made = with_tree(d, with_dirs(d.tree, dirs, dirs.len()));
    let told = report(progress, dirs.len() + j + 1, total);
    lemma_dirs_underway(original, store, dirs, pairs, d, dirs.len());
    dirs_are_added(original, dirs, d.tree, dirs.len());
    assert(dirs_there(original, made.tree)) by {
        assert forall|p: Seq<char>| #[trigger] has_dir(original, p) implies has_dir(
            made.tree,
            p,
        ) by {
            assert(dirs.contains(p));
            let i = dirs.index_of(p);
            assert(has_dir(made.tree, dirs[i]));
        }
    }
    assert forall|e: Disk| #[trigger] underway(original, store, pairs, made, e) implies keeps(
        e,
    ) by {
        assert(e =~= with_store(
            Disk { tree: e.tree, draft: e.draft, ..d },
            store,
            store_of(e, store),
        ));
        assert forall|i: int| 0 <= i < pairs.len() implies (survives(store, #[trigger] pairs[i], d)
            <==> survives(store, pairs[i], e)) by {
            assert(survives(store, pairs[i], d) <==> survives(store, pairs[i], made));
        }
        assert(underway(original, store, pairs, d, e));
    }
    assert(survives(store, pairs[j as int], d) <==> survives(store, pairs[j as int], made));
    lemma_unlock_one(w, keeps, original, store, dirs, pairs, j, told + rest, count, lost, made);
    let here = restored(original, store, dirs, pairs, d, j);
    let next = restored(original, store, dirs, pairs, d, j + 1);
    let unlock = Task::<Seq<char>, Seq<u8>>::Unlock {
        store,
        rel: pairs[j as int].0,
        name: pairs[j as int].1,
    };
    let c2 = if survives(store, pairs[j as int], d) {
        count + 1
    } else {
        count
    };
    let l2 = if survives(store, pairs[j as int], d) {
        lost
    } else {
        lost.push(pairs[j as int].0)
    };
    files_come_back_safely(original, store, dirs, pairs, made, j + 1, j + 1);
    assert(next == disk_between(original, store, pairs, made, j + 1, j + 1));
    lemma_report(w, keeps, progress, dirs.len() + j + 1, total, rest, c2, l2, next);
    lemma_then(
        w,
        keeps,
        running(seq![unlock] + (told + rest), count, lost),
        here,
        running(told + rest, c2, l2),
        next,
        running(rest, c2, l2),
        next,
    );
}

/// Unlocking from a disk on which it can start or go on creates the directories,
/// brings back every file that is to be had, counts those, and notes the others as
/// lost; and at no time is a file that was to be had not to be had, nor could the
/// unlock not start anew.
#[verifier::rlimit(30)]
pub proof fn unlocking_restores_survivors(
    w: World,
    keeps: spec_fn(Disk) -> bool,
    original: Tree,
    store: Store,
    dirs: Seq<Seq<char>>,
    pairs: Seq<Pair>,
    progress: bool,
    total: nat,
    k: nat,
    rest: Seq<Step>,
    count: nat,
    lost: Seq<Seq<char>>,
    d: Disk,
)
    requires
        k <= pairs.len(),
        names_tree(original, dirs, pairs),
        unlockable(original, store, pairs, d),
        forall|e: Disk| #[trigger] underway(original, store, pairs, d, e) ==> keeps(e),
    ensures
        gets_to(
            w,
            keeps,
            running(
                unlock_entries(
                    store,
                    stored_entries(dirs, pairs),
                    progress,
                    total,
                    dirs.len() + k,
                ) + rest,
                count,
                lost,
            ),
            d,
            running(
                rest,
                count + survivors(store, pairs, d, k),
                lost + losses(store, pairs, d, k),
            ),
            restored(original, store, dirs, pairs, d, k),
        ),
    decreases k,
{
    let entries = stored_entries(dirs, pairs);
    let made = with_tree(d, with_dirs(d.tree, dirs, dirs.len()));
    let m = dirs.len() + k;
    let start = running(unlock_entries(store, entries, progress, total, m) + rest, count, lost);
    if k == 0 {
        assert forall|i: int| 0 <= i < dirs.len() implies #[trigger] entries[i] == dir_entry(
            dirs[i],
        ) by {}
        lemma_make_dirs(
            w,
            keeps,
            original,
            store,
            dirs,
            pairs,
            entries,
            progress,
            total,
            dirs.len(),
            rest,
            count,
            lost,
            d,
        );
        assert(lost + losses(store, pairs, d, 0) =~= lost);
        lemma_nothing_back(original, store, pairs, made);
    } else {
        let j = (k - 1) as nat;
        let (rel, name) = pairs[j as int];
        let unlock = Task::<Seq<char>, Seq<u8>>::Unlock { store, rel, name };
        let told = report(progress, m, total);
        let tail = seq![unlock] + (told + rest);
        assert(entries[m - 1] == (Entry { rel, is_dir: false, stream: Some(name) }));
        assert(unlock_entry(store, entries[m - 1]) =~= seq![unlock]);
        assert(unlock_entries(store, entries, progress, total, m) + rest =~= unlock_entries(
            store,
            entries,
            progress,
            total,
            dirs.len() + j,
        ) + tail);
        unlocking_restores_survivors(
            w,
            keeps,
            original,
            store,
            dirs,
            pairs,
            progress,
            total,
            j,
            tail,
            count,
            lost,
            d,
        );
        lemma_unlock_next(
            w,
            keeps,
            original,
            store,
            dirs,
            pairs,
            progress,
            total,
            j,
            rest,
            count + survivors(store, pairs, d, j),
            lost + losses(store, pairs, d, j),
            d,
        );
        let c2 = count + survivors(store, pairs, d, k);
        let l2 = lost + losses(store, pairs, d, k);
        assert(l2 =~= if survives(store, pairs[j as int], d) {
            lost + losses(store, pairs, d, j)
        } else {
            (lost + losses(store, pairs, d, j)).push(rel)
        });
        lemma_then(
            w,
            keeps,
            start,
            d,
            running(
                tail,
                count + survivors(store, pairs, d, j),
                lost + losses(store, pairs, d, j),
            ),
            restored(original, store, dirs, pairs, d, j),
            running(rest, c2, l2),
            restored(original, store, dirs, pairs, d, k),
        );
    }
}

pub(crate) proof fn lemma_nothing_back(original: Tree, store: Store, pairs: Seq<Pair>, d: Disk)
    ensures
        disk_after(original, store, pairs, d, 0) == d,
{
    assert(tree_after(original, store, pairs, d, 0) =~= d.tree);
    if let Some(held) = store_of(d, store) {
        assert(store_after(store, pairs, d, 0)->0 =~= held);
    }
    assert(disk_after(original, store, pairs, d, 0) =~= d);
}

} // verus!
