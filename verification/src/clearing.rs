//! Removing what was packed from a folder.

use vstd::prelude::*;

use crate::disk::{
    gets_to, has_dir, has_file, lemma_do, lemma_here, lemma_one, lemma_then, lists,
    part_with_pins, perform, pins_hold, pins_only, running, with_tree, Disk, Tree, World,
};
use crate::job::{after, removal, remove_dir, remove_file, Action, Answer, Step, Task};
use crate::path::{ancestor_comes_first, in_path_order, is_ancestor, path_le};
use crate::sort::{path_sort, path_sort_is_the_sorted_list};
use crate::walk::Listed;

verus! {

/// The listing with its directories in the order of paths lists the same tree.
pub proof fn sorting_keeps_listing(list: Seq<Seq<char>>)
    ensures
        in_path_order(path_sort(list)),
        path_sort(list).len() == list.len(),
        list.no_duplicates() ==> path_sort(list).no_duplicates(),
        forall|rel: Seq<char>| #[trigger] path_sort(list).contains(rel) <==> list.contains(rel),
{
    let sorted = path_sort(list);
    path_sort_is_the_sorted_list(list);
    list.to_multiset_ensures();
    sorted.to_multiset_ensures();
    assert forall|rel: Seq<char>| #[trigger] sorted.contains(rel) <==> list.contains(rel) by {
        assert(sorted.contains(rel) <==> sorted.to_multiset().count(rel) > 0);
        assert(list.contains(rel) <==> list.to_multiset().count(rel) > 0);
    }
    if list.no_duplicates() {
        list.lemma_multiset_has_no_duplicates();
        sorted.lemma_multiset_has_no_duplicates_conv();
    }
}

/// A tree without the first `k` paths of a list.
pub open spec fn without(tree: Tree, list: Seq<Seq<char>>, k: int) -> Tree {
    Map::new(
        |p: Seq<char>|
            tree.contains_key(p) && !(exists|j: int| 0 <= j < k && #[trigger] list[j] == p),
        |p: Seq<char>| tree[p],
    )
}

proof fn lemma_remove_files(
    w: World,
    keeps: spec_fn(Disk) -> bool,
    files: Seq<Seq<char>>,
    i: int,
    rest: Seq<Step>,
    count: nat,
    lost: Seq<Seq<char>>,
    d: Disk,
)
    requires
        0 <= i <= files.len(),
        files.no_duplicates(),
        forall|j: int| 0 <= j < files.len() ==> has_file(d.tree, #[trigger] files[j]),
        forall|t: Tree| #[trigger]
            part_with_pins(t, d.tree, d.pinned) ==> keeps(with_tree(d, t)),
    ensures
        gets_to(
            w,
            keeps,
            running(
                files.map_values(|rel: Seq<char>| remove_file(rel)).skip(i) + rest,
                count,
                lost,
            ),
            with_tree(d, without(d.tree, files, i)),
            running(rest, count, lost),
            with_tree(d, without(d.tree, files, files.len() as int)),
        ),
    decreases files.len() - i,
{
    let steps = files.map_values(|rel: Seq<char>| remove_file(rel));
    let here = with_tree(d, without(d.tree, files, i));
    assert(part_with_pins(here.tree, d.tree, d.pinned));
    if i == files.len() {
        assert(steps.skip(i) + rest =~= rest);
        lemma_here(w, keeps, running(rest, count, lost), here);
    } else {
        let a = Action::RemoveFile { rel: files[i] };
        let tail = steps.skip(i + 1) + rest;
        assert(steps.skip(i) + rest =~= seq![Task::Do(a)] + tail);
        let next = with_tree(d, without(d.tree, files, i + 1));
        assert(has_file(here.tree, files[i]));
        assert(here.tree.remove(files[i]) =~= next.tree);
        assert(part_with_pins(next.tree, d.tree, d.pinned));
        assert(perform(w, here, a) == (next, Answer::Done));
        lemma_do(w, keeps, a, tail, count, lost, here);
        lemma_remove_files(w, keeps, files, i + 1, rest, count, lost, d);
        lemma_then(
            w,
            keeps,
            running(steps.skip(i) + rest, count, lost),
            here,
            running(tail, count, lost),
            next,
            running(rest, count, lost),
            with_tree(d, without(d.tree, files, files.len() as int)),
        );
    }
}

/// A tree of directories without those from the `k`-th on that are not pinned.
pub open spec fn without_last(
    tree: Tree,
    pinned: Set<Seq<char>>,
    dirs: Seq<Seq<char>>,
    k: int,
) -> Tree {
    Map::new(
        |p: Seq<char>|
            tree.contains_key(p) && (pinned.contains(p) || !(exists|j: int|
                k <= j < dirs.len() && #[trigger] dirs[j] == p)),
        |p: Seq<char>| tree[p],
    )
}

/// Are these all the directories of a tree that holds nothing else, in order?
pub open spec fn only_dirs(tree: Tree, dirs: Seq<Seq<char>>) -> bool {
    &&& dirs.no_duplicates()
    &&& in_path_order(dirs)
    &&& forall|p: Seq<char>| #[trigger] tree.contains_key(p) <==> dirs.contains(p)
    &&& forall|p: Seq<char>| #[trigger] tree.contains_key(p) ==> tree[p] is Dir
}

proof fn lemma_remove_dir(w: World, dirs: Seq<Seq<char>>, k: int, d: Disk)
    requires
        0 < k <= dirs.len(),
        only_dirs(d.tree, dirs),
        pins_hold(d.tree, d.pinned),
    ensures
        perform(
            w,
            with_tree(d, without_last(d.tree, d.pinned, dirs, k)),
            Action::RemoveDir { rel: dirs[k - 1] },
        ).0 == with_tree(d, without_last(d.tree, d.pinned, dirs, k - 1)),
{
    let here = without_last(d.tree, d.pinned, dirs, k);
    let next = without_last(d.tree, d.pinned, dirs, k - 1);
    let dir = dirs[k - 1];
    assert(dirs.contains(dir));
    assert(d.tree.contains_key(dir));
    if d.pinned.contains(dir) {
        assert(here =~= next);
    } else {
        assert(has_dir(here, dir));
        assert forall|p: Seq<char>| #[trigger] here.contains_key(p) implies !is_ancestor(dir, p) by {
            if is_ancestor(dir, p) {
                ancestor_comes_first(dir, p);
                assert(d.tree.contains_key(p));
                assert(dirs.contains(p));
                let m = dirs.index_of(p);
                assert(dirs[m] == p);
                if m < k {
                    assert(path_le(dirs[m], dirs[k - 1]));
                } else {
                    assert(d.pinned.contains(p));
                    assert(d.pinned.contains(dir));
                }
            }
        }
        assert(here.remove(dir) =~= next);
    }
}

proof fn lemma_remove_dirs(
    w: World,
    keeps: spec_fn(Disk) -> bool,
    dirs: Seq<Seq<char>>,
    k: int,
    rest: Seq<Step>,
    count: nat,
    lost: Seq<Seq<char>>,
    d: Disk,
)
    requires
        0 <= k <= dirs.len(),
        only_dirs(d.tree, dirs),
        pins_hold(d.tree, d.pinned),
        forall|t: Tree| #[trigger]
            part_with_pins(t, d.tree, d.pinned) ==> keeps(with_tree(d, t)),
    ensures
        gets_to(
            w,
            keeps,
            running(
                dirs.reverse().map_values(|rel: Seq<char>| remove_dir(rel)).skip(dirs.len() - k)
                    + rest,
                count,
                lost,
            ),
            with_tree(d, without_last(d.tree, d.pinned, dirs, k)),
            running(rest, count, lost),
            with_tree(d, without_last(d.tree, d.pinned, dirs, 0)),
        ),
    decreases k,
{
    let steps = dirs.reverse().map_values(|rel: Seq<char>| remove_dir(rel));
    let n = dirs.len() as int;
    let here = with_tree(d, without_last(d.tree, d.pinned, dirs, k));
    assert(part_with_pins(here.tree, d.tree, d.pinned));
    if k == 0 {
        assert(steps.skip(n) + rest =~= rest);
        lemma_here(w, keeps, running(rest, count, lost), here);
    } else {
        let a = Action::RemoveDir { rel: dirs[k - 1] };
        let tail = steps.skip(n - k + 1) + rest;
        assert(steps[n - k] == remove_dir(dirs[k - 1]));
        assert(steps.skip(n - k) + rest =~= seq![Task::Do(a)] + tail);
        let next = with_tree(d, without_last(d.tree, d.pinned, dirs, k - 1));
        assert(part_with_pins(next.tree, d.tree, d.pinned));
        lemma_remove_dir(w, dirs, k, d);
        lemma_do(w, keeps, a, tail, count, lost, here);
        lemma_remove_dirs(w, keeps, dirs, k - 1, rest, count, lost, d);
        lemma_then(
            w,
            keeps,
            running(steps.skip(n - k) + rest, count, lost),
            here,
            running(tail, count, lost),
            next,
            running(rest, count, lost),
            with_tree(d, without_last(d.tree, d.pinned, dirs, 0)),
        );
    }
}

/// Clearing a folder removes everything that is packed, but for the directories
/// that hold something protected.
pub proof fn clearing_leaves_only_pins(
    w: World,
    keeps: spec_fn(Disk) -> bool,
    rest: Seq<Step>,
    count: nat,
    lost: Seq<Seq<char>>,
    d: Disk,
)
    requires
        lists((w.list)(d.tree), d.tree),
        pins_hold(d.tree, d.pinned),
        forall|t: Tree| #[trigger]
            part_with_pins(t, d.tree, d.pinned) ==> keeps(with_tree(d, t)),
    ensures
        gets_to(
            w,
            keeps,
            running(seq![Task::Clear] + rest, count, lost),
            d,
            running(rest, count, lost),
            with_tree(d, pins_only(d.tree, d.pinned)),
        ),
{
    let l = (w.list)(d.tree);
    let dirs = path_sort(l.dirs);
    let file_steps = l.files.map_values(|rel: Seq<char>| remove_file(rel));
    let dir_steps = dirs.reverse().map_values(|rel: Seq<char>| remove_dir(rel));
    let s = running(seq![Task::Clear] + rest, count, lost);
    assert(part_with_pins(d.tree, d.tree, d.pinned));
    assert(with_tree(d, d.tree) == d);
    assert(s.todo.drop_first() =~= rest);
    lemma_one(w, keeps, s, d);
    let s1 = running(removal(l) + rest, count, lost);
    assert(after(s, Answer::Listed(l)) == s1);

    let d1 = with_tree(d, without(d.tree, l.files, l.files.len() as int));
    assert forall|j: int| 0 <= j < l.files.len() implies has_file(d.tree, #[trigger] l.files[j]) by {
        assert(l.files.contains(l.files[j]));
    }
    lemma_remove_files(w, keeps, l.files, 0, dir_steps + rest, count, lost, d);
    assert(without(d.tree, l.files, 0) =~= d.tree);
    assert(file_steps.skip(0) =~= file_steps);
    assert(file_steps + (dir_steps + rest) =~= removal(l) + rest);
    let s2 = running(dir_steps + rest, count, lost);
    lemma_then(w, keeps, s, d, s1, d, s2, d1);

    sorting_keeps_listing(l.dirs);
    assert(only_dirs(d1.tree, dirs)) by {
        assert forall|p: Seq<char>| #[trigger] d1.tree.contains_key(p) <==> dirs.contains(p) by {
            if d1.tree.contains_key(p) {
                if has_file(d.tree, p) {
                    assert(l.files.contains(p));
                    let j = l.files.index_of(p);
                    assert(l.files[j] == p);
                }
                assert(l.dirs.contains(p));
            }
            if dirs.contains(p) {
                assert(l.dirs.contains(p));
                assert forall|j: int| 0 <= j < l.files.len() implies #[trigger] l.files[j] != p by {
                    assert(l.files.contains(l.files[j]));
                }
            }
        }
        assert forall|p: Seq<char>| #[trigger] d1.tree.contains_key(p) implies d1.tree[p] is Dir by {
            assert(dirs.contains(p));
            assert(l.dirs.contains(p));
        }
    }
    assert(pins_hold(d1.tree, d1.pinned)) by {
        assert forall|p: Seq<char>| #[trigger] d1.pinned.contains(p) implies has_dir(d1.tree, p) by {
            assert(has_dir(d.tree, p));
            assert(l.dirs.contains(p));
            assert(dirs.contains(p));
            assert(d1.tree.contains_key(p));
        }
    }
    assert forall|t: Tree| #[trigger] part_with_pins(t, d1.tree, d1.pinned) implies keeps(
        with_tree(d1, t),
    ) by {
        assert(part_with_pins(t, d.tree, d.pinned)) by {
            assert forall|p: Seq<char>| #[trigger] d.pinned.contains(p) && has_dir(
                d.tree,
                p,
            ) implies has_dir(t, p) by {
                assert(has_dir(d1.tree, p));
            }
        }
        assert(with_tree(d1, t) == with_tree(d, t));
    }
    let n = dirs.len() as int;
    lemma_remove_dirs(w, keeps, dirs, n, rest, count, lost, d1);
    assert(without_last(d1.tree, d1.pinned, dirs, n) =~= d1.tree);
    assert(dir_steps.skip(0) =~= dir_steps);
    let d2 = with_tree(d, pins_only(d.tree, d.pinned));
    assert(without_last(d1.tree, d1.pinned, dirs, 0) =~= d2.tree) by {
        assert forall|p: Seq<char>|
            without_last(d1.tree, d1.pinned, dirs, 0).contains_key(p) <==> d2.tree.contains_key(
                p,
            ) by {
            if d1.tree.contains_key(p) {
                assert(dirs.contains(p));
                let j = dirs.index_of(p);
                assert(dirs[j] == p);
            }
            if d2.tree.contains_key(p) {
                assert(l.dirs.contains(p));
                assert(dirs.contains(p));
                assert(d1.tree.contains_key(p));
            }
        }
    }
    lemma_then(w, keeps, s, d, s2, d1, running(rest, count, lost), d2);
}

} // verus!
