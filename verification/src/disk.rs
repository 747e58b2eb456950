//! What a job does to a folder.
//!
//! A model of the folder on a disk that works: what each action does there, and
//! what the actions of a job come to, one after the other. The laws of locking and
//! unlocking are stated over it.

use vstd::prelude::*;

use crate::job::{
    action_of, after, best_effort, counts, settled, Act, Action, Answer, Place, State, Step, Store,
    Task,
};
use crate::path::is_ancestor;
use crate::stream::{chunk_count, numbered_blob, open_numbered, LAST_POSITION};
use crate::vault::PendingOp;
use crate::walk::Listed;

verus! {

/// A file with its content, or a directory.
pub enum Item {
    /// A file.
    File(Seq<u8>),
    /// A directory.
    Dir,
}

/// Relative paths with what stands there.
pub type Tree = Map<Seq<char>, Item>;

/// Names with the contents stored under them.
pub type Stored = Map<Seq<char>, Seq<u8>>;

/// A folder on the disk.
#[verifier::ext_equal]
pub struct Disk {
    /// What is packed: everything that has no protected name and is not below a
    /// directory that has one.
    pub tree: Tree,
    /// The directories that hold something protected and so cannot be removed.
    pub pinned: Set<Seq<char>>,
    /// The vault.
    pub vault: Option<Seq<u8>>,
    /// The temporary file: a vault that is being written, or what is left of a file
    /// that was being restored.
    pub draft: Option<Seq<u8>>,
    /// The streams of the host file, if there is one.
    pub streams: Option<Stored>,
    /// The files in the container, if there is one.
    pub data: Option<Stored>,
    /// The journal.
    pub state: Option<PendingOp>,
    /// The bytes of the opened vault that have not been read.
    pub unread: Seq<u8>,
}

/// What a disk leaves open: the key at hand, and the order in which directories are
/// listed.
pub struct World {
    /// The key that files are encrypted and decrypted with.
    pub key: Seq<u8>,
    /// How a tree is listed.
    pub list: spec_fn(Tree) -> Listed,
}

// ── trees ──

/// Is there a file at a path?
pub open spec fn has_file(tree: Tree, rel: Seq<char>) -> bool {
    tree.contains_key(rel) && tree[rel] is File
}

/// Is there a directory at a path?
pub open spec fn has_dir(tree: Tree, rel: Seq<char>) -> bool {
    tree.contains_key(rel) && tree[rel] is Dir
}

/// The content of a file.
pub open spec fn content(tree: Tree, rel: Seq<char>) -> Seq<u8> {
    tree[rel]->File_0
}

/// Everything stands in directories that are there.
pub open spec fn rooted(tree: Tree) -> bool {
    forall|dir: Seq<char>, rel: Seq<char>|
        #![trigger is_ancestor(dir, rel), tree.contains_key(rel)]
        tree.contains_key(rel) && is_ancestor(dir, rel) ==> has_dir(tree, dir)
}

/// Pinned directories are there, and what they stand in is pinned too.
pub open spec fn pins_hold(tree: Tree, pinned: Set<Seq<char>>) -> bool {
    &&& forall|dir: Seq<char>| #[trigger] pinned.contains(dir) ==> has_dir(tree, dir)
    &&& forall|dir: Seq<char>, rel: Seq<char>|
        #![trigger is_ancestor(dir, rel), pinned.contains(rel)]
        pinned.contains(rel) && is_ancestor(dir, rel) ==> pinned.contains(dir)
}

/// Does a listing name exactly the directories and the files of a tree, each once?
pub open spec fn lists(l: Listed, tree: Tree) -> bool {
    &&& l.dirs.no_duplicates()
    &&& l.files.no_duplicates()
    &&& forall|rel: Seq<char>| #[trigger] l.dirs.contains(rel) <==> has_dir(tree, rel)
    &&& forall|rel: Seq<char>| #[trigger] l.files.contains(rel) <==> has_file(tree, rel)
}

/// A tree with the directories above a path created.
pub open spec fn with_parents(tree: Tree, rel: Seq<char>) -> Tree {
    Map::new(
        |p: Seq<char>| tree.contains_key(p) || is_ancestor(p, rel),
        |p: Seq<char>|
            if tree.contains_key(p) {
                tree[p]
            } else {
                Item::Dir
            },
    )
}

/// Does no file stand where a directory above a path is needed?
pub open spec fn parents_fit(tree: Tree, rel: Seq<char>) -> bool {
    forall|p: Seq<char>| #[trigger] is_ancestor(p, rel) ==> !has_file(tree, p)
}

/// Are the directories above a path there?
pub open spec fn parents_there(tree: Tree, rel: Seq<char>) -> bool {
    forall|p: Seq<char>| #[trigger] is_ancestor(p, rel) ==> has_dir(tree, p)
}

/// A tree in which a file was put into its place.
pub open spec fn with_file(tree: Tree, rel: Seq<char>, bytes: Seq<u8>) -> Tree {
    tree.insert(rel, Item::File(bytes))
}

/// Can a file be put into its place?
pub open spec fn file_fits(tree: Tree, rel: Seq<char>) -> bool {
    parents_there(tree, rel) && !has_dir(tree, rel)
}

/// The disk after a file was written to the temporary file and renamed into its
/// place.
pub open spec fn put(d: Disk, rel: Seq<char>, bytes: Seq<u8>) -> Disk {
    Disk { tree: with_file(d.tree, rel, bytes), draft: None, ..d }
}

/// Is the first tree a part of the second?
pub open spec fn part_of(t: Tree, tree: Tree) -> bool {
    forall|p: Seq<char>| #[trigger] t.contains_key(p) ==> tree.contains_key(p) && t[p] == tree[p]
}

/// Is the first tree a part of the second that keeps the pinned directories?
pub open spec fn part_with_pins(t: Tree, tree: Tree, pinned: Set<Seq<char>>) -> bool {
    &&& part_of(t, tree)
    &&& forall|p: Seq<char>| #[trigger] pinned.contains(p) && has_dir(tree, p) ==> has_dir(t, p)
}

/// The disk with its tree replaced.
pub open spec fn with_tree(d: Disk, tree: Tree) -> Disk {
    Disk { tree, ..d }
}

/// The pinned directories alone.
pub open spec fn pins_only(tree: Tree, pinned: Set<Seq<char>>) -> Tree {
    Map::new(|p: Seq<char>| has_dir(tree, p) && pinned.contains(p), |p: Seq<char>| Item::Dir)
}

// ── stores ──

/// What a store holds, if it is there.
pub open spec fn store_of(d: Disk, store: Store) -> Option<Stored> {
    match store {
        Store::Streams => d.streams,
        Store::Container => d.data,
    }
}

/// The disk with a store replaced.
pub open spec fn with_store(d: Disk, store: Store, held: Option<Stored>) -> Disk {
    match store {
        Store::Streams => Disk { streams: held, ..d },
        Store::Container => Disk { data: held, ..d },
    }
}

/// Does a store hold something under a name?
pub open spec fn stores(d: Disk, store: Store, name: Seq<char>) -> bool {
    store_of(d, store) is Some && store_of(d, store)->0.contains_key(name)
}

/// What a store holds under a name.
pub open spec fn stored_content(d: Disk, store: Store, name: Seq<char>) -> Seq<u8> {
    store_of(d, store)->0[name]
}

// ── actions ──

/// An action that failed; the message is that of the system.
pub open spec fn refused(d: Disk) -> (Disk, Answer) {
    (d, Answer::Failed(Seq::empty()))
}

/// What an action does to a disk that works, and what is answered.
pub open spec fn perform(w: World, d: Disk, a: Act) -> (Disk, Answer) {
    match a {
        Action::CreateVault => (Disk { draft: Some(Seq::empty()), ..d }, Answer::Done),
        Action::WriteVault { bytes, .. } => match d.draft {
            Some(b) => (Disk { draft: Some(b + bytes), ..d }, Answer::Done),
            None => refused(d),
        },
        Action::SealFile { rel, number } => if d.draft is Some && has_file(d.tree, rel) && chunk_count(
            content(d.tree, rel).len(),
        ) <= LAST_POSITION + 1 {
            let sealed = numbered_blob(w.key, number, content(d.tree, rel));
            (Disk { draft: Some(d.draft->0 + sealed), ..d }, Answer::Done)
        } else {
            refused(d)
        },
        Action::FlushVault => (d, Answer::Done),
        Action::CommitVault => match d.draft {
            Some(b) => (Disk { vault: Some(b), draft: None, ..d }, Answer::Done),
            None => refused(d),
        },
        Action::Mark(op) => (Disk { state: Some(op), ..d }, Answer::Done),
        Action::Unmark => (Disk { state: None, ..d }, Answer::Done),
        Action::ListTree => (d, Answer::Listed((w.list)(d.tree))),
        Action::RemoveFile { rel } => if has_file(d.tree, rel) {
            (Disk { tree: d.tree.remove(rel), ..d }, Answer::Done)
        } else {
            refused(d)
        },
        Action::RemoveDir { rel } => if has_dir(d.tree, rel) && !d.pinned.contains(rel) && (
        forall|p: Seq<char>| #[trigger] d.tree.contains_key(p) ==> !is_ancestor(rel, p)) {
            (Disk { tree: d.tree.remove(rel), ..d }, Answer::Done)
        } else {
            refused(d)
        },
        Action::Probe(place) => (
            d,
            Answer::Found(
                match place {
                    Place::File { rel } => has_file(d.tree, rel),
                    Place::Stored { store, name } => stores(d, store, name),
                    Place::Host => d.streams is Some,
                },
            ),
        ),
        Action::CreateHost => (Disk { streams: Some(Map::empty()), ..d }, Answer::Done),
        Action::HideHost => (d, Answer::Done),
        Action::LiftGuard => (d, Answer::Done),
        Action::CreateData => (
            Disk {
                data: match d.data {
                    Some(held) => Some(held),
                    None => Some(Map::empty()),
                },
                ..d
            },
            Answer::Done,
        ),
        Action::GuardData => (d, Answer::Done),
        Action::Stash { store, rel, name } => if has_file(d.tree, rel) && store_of(
            d,
            store,
        ) is Some {
            let kept = with_store(
                d,
                store,
                Some(store_of(d, store)->0.insert(name, content(d.tree, rel))),
            );
            match store {
                Store::Streams => (kept, Answer::Done),
                Store::Container => (Disk { tree: d.tree.remove(rel), ..kept }, Answer::Done),
            }
        } else {
            refused(d)
        },
        Action::Fetch { store, rel, name } => if stores(d, store, name) && file_fits(d.tree, rel) {
            let bytes = stored_content(d, store, name);
            match store {
                Store::Streams => (put(d, rel, bytes), Answer::Done),
                Store::Container => (
                    Disk {
                        tree: with_file(d.tree, rel, bytes),
                        data: Some(d.data->0.remove(name)),
                        ..d
                    },
                    Answer::Done,
                ),
            }
        } else {
            refused(d)
        },
        Action::RemoveStream { name } => match d.streams {
            Some(held) => (Disk { streams: Some(held.remove(name)), ..d }, Answer::Done),
            None => refused(d),
        },
        Action::MakeDir { rel } => if parents_fit(d.tree, rel) && !has_file(d.tree, rel) {
            let above = with_parents(d.tree, rel);
            (
                Disk {
                    tree: if above.contains_key(rel) {
                        above
                    } else {
                        above.insert(rel, Item::Dir)
                    },
                    ..d
                },
                Answer::Done,
            )
        } else {
            refused(d)
        },
        Action::MakeParents { rel } => if parents_fit(d.tree, rel) {
            (Disk { tree: with_parents(d.tree, rel), ..d }, Answer::Done)
        } else {
            refused(d)
        },
        Action::PutFile { rel, bytes } => if file_fits(d.tree, rel) {
            (put(d, rel, bytes), Answer::Done)
        } else {
            refused(d)
        },
        Action::OpenFile { rel, due } => if file_fits(d.tree, rel) {
            let read = open_numbered(w.key, due, d.unread);
            match read.end {
                Ok(rest) => (Disk { unread: rest, ..put(d, rel, read.plain) }, Answer::Done),
                Err(m) => (Disk { draft: Some(read.plain), ..d }, Answer::Failed(m)),
            }
        } else {
            refused(d)
        },
        Action::DropStore(store) => (with_store(d, store, None), Answer::Done),
        Action::DropVault => (Disk { vault: None, ..d }, Answer::Done),
        Action::Report { .. } => (d, Answer::Done),
        Action::ShowIcon => (d, Answer::Done),
        Action::HideIcon => (d, Answer::Done),
    }
}

// ── running a job ──

/// The job and the disk after some actions.
pub open spec fn run(w: World, n: nat, s: State, d: Disk) -> (State, Disk)
    decreases n,
{
    if n == 0 || s.outcome is Some {
        (s, d)
    } else {
        let (next, answer) = perform(w, d, action_of(s.todo[0]));
        run(w, (n - 1) as nat, after(s, answer), next)
    }
}

/// Does a job get from one state to another on this disk, while the disk satisfies
/// a condition before the first action and after every one?
pub open spec fn gets_to(
    w: World,
    keeps: spec_fn(Disk) -> bool,
    s: State,
    d: Disk,
    s2: State,
    d2: Disk,
) -> bool {
    exists|n: nat|
        #![trigger run(w, n, s, d)]
        run(w, n, s, d) == (s2, d2) && keeps_through(w, keeps, n, s, d)
}

/// Does the disk satisfy a condition through some actions?
pub open spec fn keeps_through(
    w: World,
    keeps: spec_fn(Disk) -> bool,
    n: nat,
    s: State,
    d: Disk,
) -> bool {
    forall|m: nat| m <= n ==> keeps((#[trigger] run(w, m, s, d)).1)
}

/// A running job with these tasks.
pub open spec fn running(todo: Seq<Step>, count: nat, lost: Seq<Seq<char>>) -> State {
    settled(State { todo, count, lost, outcome: None })
}

proof fn lemma_run_add(w: World, a: nat, b: nat, s: State, d: Disk)
    ensures
        run(w, a + b, s, d) == run(w, b, run(w, a, s, d).0, run(w, a, s, d).1),
    decreases a,
{
    if a > 0 && !(s.outcome is Some) {
        let (next, answer) = perform(w, d, action_of(s.todo[0]));
        lemma_run_add(w, (a - 1) as nat, b, after(s, answer), next);
        assert((a + b - 1) as nat == (a - 1) as nat + b);
    }
}

pub(crate) proof fn lemma_here(w: World, keeps: spec_fn(Disk) -> bool, s: State, d: Disk)
    requires
        keeps(d),
    ensures
        gets_to(w, keeps, s, d, s, d),
{
    assert(run(w, 0, s, d) == (s, d));
    assert forall|m: nat| m <= 0 implies keeps((#[trigger] run(w, m, s, d)).1) by {
        assert(m == 0);
    }
    assert(keeps_through(w, keeps, 0, s, d));
}

pub(crate) proof fn lemma_then(
    w: World,
    keeps: spec_fn(Disk) -> bool,
    s: State,
    d: Disk,
    s2: State,
    d2: Disk,
    s3: State,
    d3: Disk,
)
    requires
        gets_to(w, keeps, s, d, s2, d2),
        gets_to(w, keeps, s2, d2, s3, d3),
    ensures
        gets_to(w, keeps, s, d, s3, d3),
{
    let a = choose|n: nat|
        #![trigger run(w, n, s, d)]
        run(w, n, s, d) == (s2, d2) && keeps_through(w, keeps, n, s, d);
    let b = choose|n: nat|
        #![trigger run(w, n, s2, d2)]
        run(w, n, s2, d2) == (s3, d3) && keeps_through(w, keeps, n, s2, d2);
    lemma_run_add(w, a, b, s, d);
    assert forall|m: nat| m <= a + b implies keeps((#[trigger] run(w, m, s, d)).1) by {
        if m > a {
            let c = (m - a) as nat;
            lemma_run_add(w, a, c, s, d);
            assert(a + c == m);
            assert(run(w, m, s, d) == run(w, c, s2, d2));
        }
    }
    assert(run(w, a + b, s, d) == (s3, d3));
    assert(keeps_through(w, keeps, a + b, s, d));
}

pub(crate) proof fn lemma_one(w: World, keeps: spec_fn(Disk) -> bool, s: State, d: Disk)
    requires
        s.outcome is None,
        keeps(d),
        keeps(perform(w, d, action_of(s.todo[0])).0),
    ensures
        gets_to(
            w,
            keeps,
            s,
            d,
            after(s, perform(w, d, action_of(s.todo[0])).1),
            perform(w, d, action_of(s.todo[0])).0,
        ),
{
    let (next, answer) = perform(w, d, action_of(s.todo[0]));
    assert(run(w, 0, after(s, answer), next) == (after(s, answer), next));
    assert(run(w, 1, s, d) == (after(s, answer), next));
    assert forall|m: nat| m <= 1 implies keeps((#[trigger] run(w, m, s, d)).1) by {
        if m == 0 {
            assert(run(w, 0, s, d) == (s, d));
        }
    }
    assert(keeps_through(w, keeps, 1, s, d));
}

/// An action that succeeds, or whose failure does not matter, is followed by the
/// tasks behind it.
pub(crate) proof fn lemma_do(
    w: World,
    keeps: spec_fn(Disk) -> bool,
    a: Act,
    rest: Seq<Step>,
    count: nat,
    lost: Seq<Seq<char>>,
    d: Disk,
)
    requires
        keeps(d),
        keeps(perform(w, d, a).0),
        perform(w, d, a).1 is Failed ==> best_effort(a),
    ensures
        gets_to(
            w,
            keeps,
            running(seq![Task::Do(a)] + rest, count, lost),
            d,
            running(
                rest,
                if counts(a) && !(perform(w, d, a).1 is Failed) {
                    count + 1
                } else {
                    count
                },
                lost,
            ),
            perform(w, d, a).0,
        ),
{
    let s = running(seq![Task::Do(a)] + rest, count, lost);
    assert(s.todo[0] == Task::<Seq<char>, Seq<u8>>::Do(a));
    assert(s.todo.drop_first() =~= rest);
    assert(Seq::<Step>::empty() + rest =~= rest);
    lemma_one(w, keeps, s, d);
}

} // verus!
