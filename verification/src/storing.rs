//! Bringing the files of a folder into a store.

use vstd::prelude::*;

use crate::disk::{
    content, gets_to, has_dir, has_file, lemma_do, lemma_here, lemma_one, lemma_then, part_of,
    perform, running, store_of, stored_content, stores, with_store, with_tree, Disk, World,
};
use crate::job::{after, lock_steps, Action, Answer, Step, Store, Task};
use crate::vault::{lock_files, report, Pair};

verus! {

/// No two files have the same path or are stored under the same name.
pub open spec fn distinct(pairs: Seq<Pair>) -> bool {
    forall|i: int, j: int|
        #![trigger pairs[i], pairs[j]]
        0 <= i < pairs.len() && 0 <= j < pairs.len() && i != j ==> pairs[i].0 != pairs[j].0
            && pairs[i].1 != pairs[j].1
}

/// Is the content of a file still to be had while the folder is being locked: in
/// the file itself, or else in the store?
pub open spec fn available(store: Store, pair: Pair, bytes: Seq<u8>, d: Disk) -> bool {
    if has_file(d.tree, pair.0) {
        content(d.tree, pair.0) == bytes
    } else {
        stores(d, store, pair.1) && stored_content(d, store, pair.1) == bytes
    }
}

/// Are the contents of all the files still to be had?
pub open spec fn kept(store: Store, pairs: Seq<Pair>, contents: Seq<Seq<u8>>, d: Disk) -> bool {
    &&& store_of(d, store) is Some
    &&& forall|i: int|
        0 <= i < pairs.len() ==> !has_dir(d.tree, (#[trigger] pairs[i]).0) && available(
            store,
            pairs[i],
            contents[i],
            d,
        )
}

/// A disk on the way from one on which all contents are to be had: only files of
/// the tree are gone, only the store has changed, and all contents are still to be
/// had.
pub open spec fn midway(
    store: Store,
    pairs: Seq<Pair>,
    contents: Seq<Seq<u8>>,
    d: Disk,
    e: Disk,
) -> bool {
    &&& kept(store, pairs, contents, e)
    &&& part_of(e.tree, d.tree)
    &&& forall|p: Seq<char>| #[trigger] has_dir(d.tree, p) ==> has_dir(e.tree, p)
    &&& e == with_store(with_tree(d, e.tree), store, store_of(e, store))
}

/// The disk after the first `k` files were brought into the store.
pub open spec fn stashed(store: Store, pairs: Seq<Pair>, d: Disk, k: nat) -> Disk
    decreases k,
{
    if k == 0 {
        d
    } else {
        stash_one(store, pairs[k - 1], stashed(store, pairs, d, (k - 1) as nat))
    }
}

/// The disk after a file was brought into the store, if it was there.
pub open spec fn stash_one(store: Store, pair: Pair, d: Disk) -> Disk {
    if has_file(d.tree, pair.0) {
        with_store(
            with_tree(d, d.tree.remove(pair.0)),
            store,
            Some(store_of(d, store)->0.insert(pair.1, content(d.tree, pair.0))),
        )
    } else {
        d
    }
}

pub(crate) proof fn lemma_report(
    w: World,
    keeps: spec_fn(Disk) -> bool,
    progress: bool,
    done: nat,
    total: nat,
    rest: Seq<Step>,
    count: nat,
    lost: Seq<Seq<char>>,
    d: Disk,
)
    requires
        keeps(d),
    ensures
        gets_to(
            w,
            keeps,
            running(report(progress, done, total) + rest, count, lost),
            d,
            running(rest, count, lost),
            d,
        ),
{
    if progress {
        lemma_do(
            w,
            keeps,
            Action::Report { done: done as usize, total: total as usize },
            rest,
            count,
            lost,
            d,
        );
    } else {
        assert(report(progress, done, total) + rest =~= rest);
        lemma_here(w, keeps, running(rest, count, lost), d);
    }
}

proof fn lemma_stash_one_keeps(
    store: Store,
    pairs: Seq<Pair>,
    contents: Seq<Seq<u8>>,
    k: int,
    d: Disk,
)
    requires
        0 <= k < pairs.len(),
        distinct(pairs),
        kept(store, pairs, contents, d),
    ensures
        midway(store, pairs, contents, d, stash_one(store, pairs[k], d)),
        stores(stash_one(store, pairs[k], d), store, pairs[k].1),
        stored_content(stash_one(store, pairs[k], d), store, pairs[k].1) == contents[k],
        !has_file(stash_one(store, pairs[k], d).tree, pairs[k].0),
{
    let e = stash_one(store, pairs[k], d);
    assert(available(store, pairs[k], contents[k], d));
    assert forall|i: int| 0 <= i < pairs.len() implies !has_dir(e.tree, (#[trigger] pairs[i]).0)
        && available(store, pairs[i], contents[i], e) by {
        assert(available(store, pairs[i], contents[i], d));
        if i != k {
            assert(pairs[i].0 != pairs[k].0 && pairs[i].1 != pairs[k].1);
        }
    }
    assert(e =~= with_store(with_tree(d, e.tree), store, store_of(e, store)));
}

proof fn lemma_lock_one(
    w: World,
    keeps: spec_fn(Disk) -> bool,
    store: Store,
    pairs: Seq<Pair>,
    contents: Seq<Seq<u8>>,
    k: int,
    rest: Seq<Step>,
    count: nat,
    lost: Seq<Seq<char>>,
    d: Disk,
)
    requires
        0 <= k < pairs.len(),
        distinct(pairs),
        kept(store, pairs, contents, d),
        forall|e: Disk| #[trigger] midway(store, pairs, contents, d, e) ==> keeps(e),
    ensures
        gets_to(
            w,
            keeps,
            running(
                seq![Task::Lock { store, rel: pairs[k].0, name: pairs[k].1 }] + rest,
                count,
                lost,
            ),
            d,
            running(rest, count + 1, lost),
            stash_one(store, pairs[k], d),
        ),
{
    let (rel, name) = pairs[k];
    let s = running(seq![Task::Lock { store, rel, name }] + rest, count, lost);
    let e = stash_one(store, pairs[k], d);
    assert(midway(store, pairs, contents, d, d));
    lemma_stash_one_keeps(store, pairs, contents, k, d);
    assert(s.todo.drop_first() =~= rest);
    lemma_one(w, keeps, s, d);
    if has_file(d.tree, rel) {
        let stash = Action::Stash { store, rel, name };
        match store {
            Store::Streams => {
                let remove = Action::RemoveFile { rel };
                let tail = seq![Task::Do(remove)] + rest;
                let s1 = running(seq![Task::Do(stash)] + tail, count, lost);
                assert(lock_steps(store, rel, name) + rest =~= seq![Task::Do(stash)] + tail);
                assert(after(s, Answer::Found(true)) == s1);
                let both = with_store(
                    d,
                    store,
                    Some(store_of(d, store)->0.insert(name, content(d.tree, rel))),
                );
                assert(midway(store, pairs, contents, d, both)) by {
                    assert forall|i: int| 0 <= i < pairs.len() implies !has_dir(
                        both.tree,
                        (#[trigger] pairs[i]).0,
                    ) && available(store, pairs[i], contents[i], both) by {
                        assert(available(store, pairs[i], contents[i], d));
                        if i != k {
                            assert(pairs[i].1 != pairs[k].1);
                        }
                    }
                    assert(both =~= with_store(
                        with_tree(d, both.tree),
                        store,
                        store_of(both, store),
                    ));
                }
                assert(perform(w, d, stash) == (both, Answer::Done));
                lemma_do(w, keeps, stash, tail, count, lost, d);
                lemma_then(w, keeps, s, d, s1, d, running(tail, count + 1, lost), both);
                assert(perform(w, both, remove).0 =~= e);
                lemma_do(w, keeps, remove, rest, count + 1, lost, both);
                lemma_then(
                    w,
                    keeps,
                    s,
                    d,
                    running(tail, count + 1, lost),
                    both,
                    running(rest, count + 1, lost),
                    e,
                );
            },
            Store::Container => {
                let s1 = running(seq![Task::Do(stash)] + rest, count, lost);
                assert(lock_steps(store, rel, name) =~= seq![Task::Do(stash)]);
                assert(after(s, Answer::Found(true)) == s1);
                assert(perform(w, d, stash).0 =~= e);
                lemma_do(w, keeps, stash, rest, count, lost, d);
                lemma_then(w, keeps, s, d, s1, d, running(rest, count + 1, lost), e);
            },
        }
    } else {
        let check = Task::<Seq<char>, Seq<u8>>::CheckStored { store, rel, name };
        let s1 = running(seq![check] + rest, count, lost);
        assert(after(s, Answer::Found(false)) == s1);
        assert(available(store, pairs[k], contents[k], d));
        assert(s1.todo.drop_first() =~= rest);
        assert(Seq::<Step>::empty() + rest =~= rest);
        lemma_one(w, keeps, s1, d);
        assert(after(s1, Answer::Found(true)) == running(rest, count + 1, lost));
        lemma_then(w, keeps, s, d, s1, d, running(rest, count + 1, lost), d);
    }
}

proof fn lemma_midway_trans(
    store: Store,
    pairs: Seq<Pair>,
    contents: Seq<Seq<u8>>,
    d: Disk,
    e: Disk,
    f: Disk,
)
    requires
        midway(store, pairs, contents, d, e),
        midway(store, pairs, contents, e, f),
    ensures
        midway(store, pairs, contents, d, f),
{
    assert(part_of(f.tree, d.tree)) by {
        assert forall|p: Seq<char>| #[trigger] f.tree.contains_key(p) implies d.tree.contains_key(p)
            && f.tree[p] == d.tree[p] by {
            assert(e.tree.contains_key(p));
        }
    }
    assert(f =~= with_store(with_tree(d, f.tree), store, store_of(f, store)));
}

/// What holds once the first `k` files were brought into the store: they are in
/// the store and no longer in the tree, everything else in the tree is untouched,
/// and so is the rest of the disk.
pub proof fn stashed_files_are_stored(
    store: Store,
    pairs: Seq<Pair>,
    contents: Seq<Seq<u8>>,
    d: Disk,
    k: nat,
)
    requires
        k <= pairs.len(),
        distinct(pairs),
        kept(store, pairs, contents, d),
    ensures
        midway(store, pairs, contents, d, stashed(store, pairs, d, k)),
        forall|i: int|
            0 <= i < k ==> {
                &&& !has_file(stashed(store, pairs, d, k).tree, (#[trigger] pairs[i]).0)
                &&& stores(stashed(store, pairs, d, k), store, pairs[i].1)
                &&& stored_content(stashed(store, pairs, d, k), store, pairs[i].1) == contents[i]
            },
        forall|p: Seq<char>|
            d.tree.contains_key(p) && (forall|i: int| 0 <= i < k ==> (#[trigger] pairs[i]).0 != p)
                ==> #[trigger] stashed(store, pairs, d, k).tree.contains_key(p),
    decreases k,
{
    if k == 0 {
        assert(d =~= with_store(with_tree(d, d.tree), store, store_of(d, store)));
    } else {
        let j = (k - 1) as nat;
        let prev = stashed(store, pairs, d, j);
        let e = stashed(store, pairs, d, k);
        stashed_files_are_stored(store, pairs, contents, d, j);
        lemma_stash_one_keeps(store, pairs, contents, j as int, prev);
        lemma_midway_trans(store, pairs, contents, d, prev, e);
        assert forall|i: int| 0 <= i < k implies {
            &&& !has_file(e.tree, (#[trigger] pairs[i]).0)
            &&& stores(e, store, pairs[i].1)
            &&& stored_content(e, store, pairs[i].1) == contents[i]
        } by {
            if i < j {
                assert(pairs[i].0 != pairs[j as int].0 && pairs[i].1 != pairs[j as int].1);
            }
        }
        assert forall|p: Seq<char>|
            d.tree.contains_key(p) && (forall|i: int| 0 <= i < k ==> (#[trigger] pairs[i]).0
                != p) implies #[trigger] e.tree.contains_key(p) by {
            assert(prev.tree.contains_key(p));
            assert(pairs[j as int].0 != p);
        }
    }
}

/// Locking the files of a folder on which all contents are to be had brings every
/// one of them into the store, whether or not it was there already; and at no time
/// is a content not to be had.
pub proof fn locking_stores_every_file(
    w: World,
    keeps: spec_fn(Disk) -> bool,
    store: Store,
    pairs: Seq<Pair>,
    contents: Seq<Seq<u8>>,
    progress: bool,
    k: nat,
    rest: Seq<Step>,
    count: nat,
    lost: Seq<Seq<char>>,
    d: Disk,
)
    requires
        k <= pairs.len(),
        distinct(pairs),
        kept(store, pairs, contents, d),
        forall|e: Disk| #[trigger] midway(store, pairs, contents, d, e) ==> keeps(e),
    ensures
        gets_to(
            w,
            keeps,
            running(lock_files(store, pairs, progress, k) + rest, count, lost),
            d,
            running(rest, count + k, lost),
            stashed(store, pairs, d, k),
        ),
    decreases k,
{
    if k == 0 {
        stashed_files_are_stored(store, pairs, contents, d, 0);
        assert(lock_files(store, pairs, progress, k) + rest =~= rest);
        lemma_here(w, keeps, running(rest, count, lost), d);
    } else {
        let j = (k - 1) as nat;
        let (rel, name) = pairs[j as int];
        let lock = Task::<Seq<char>, Seq<u8>>::Lock { store, rel, name };
        let told = report(progress, k, pairs.len());
        let tail = seq![lock] + (told + rest);
        let prev = stashed(store, pairs, d, j);
        let e = stashed(store, pairs, d, k);
        assert(lock_files(store, pairs, progress, k) + rest =~= lock_files(
            store,
            pairs,
            progress,
            j,
        ) + tail);
        locking_stores_every_file(
            w,
            keeps,
            store,
            pairs,
            contents,
            progress,
            j,
            tail,
            count,
            lost,
            d,
        );
        stashed_files_are_stored(store, pairs, contents, d, j);
        stashed_files_are_stored(store, pairs, contents, d, k);
        assert forall|f: Disk| #[trigger] midway(store, pairs, contents, prev, f) implies keeps(
            f,
        ) by {
            lemma_midway_trans(store, pairs, contents, d, prev, f);
        }
        lemma_lock_one(
            w,
            keeps,
            store,
            pairs,
            contents,
            j as int,
            told + rest,
            count + j,
            lost,
            prev,
        );
        let start = running(lock_files(store, pairs, progress, k) + rest, count, lost);
        lemma_then(
            w,
            keeps,
            start,
            d,
            running(tail, count + j, lost),
            prev,
            running(told + rest, count + k, lost),
            e,
        );
        lemma_report(w, keeps, progress, k, pairs.len(), rest, count + k, lost, e);
        lemma_then(
            w,
            keeps,
            start,
            d,
            running(told + rest, count + k, lost),
            e,
            running(rest, count + k, lost),
            e,
        );
    }
}

} // verus!
