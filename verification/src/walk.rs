//! Collecting what a folder holds, one directory entry at a time.

use vstd::prelude::*;

use crate::path::{
    child_path, is_protected_name, kept_name, own_files_are_protected, protected,
    protected_names_are_the_kept_ones, rel_path, texts, TEMP_FILE,
};

verus! {

/// What a directory entry is.
#[derive(Clone, Copy, PartialEq, Eq, Debug, Structural)]
pub enum EntryKind {
    /// A directory.
    Dir,
    /// A regular file.
    File,
    /// Anything else, such as a link.
    Other,
}

/// The directories and files of a folder, as relative paths.
pub struct Listing {
    /// Every directory.
    pub dirs: Vec<String>,
    /// Every file.
    pub files: Vec<String>,
}

/// The directories and files of a folder, as texts.
#[verifier::ext_equal]
pub struct Listed {
    /// Every directory.
    pub dirs: Seq<Seq<char>>,
    /// Every file.
    pub files: Seq<Seq<char>>,
}

impl View for Listing {
    type V = Listed;

    open spec fn view(&self) -> Listed {
        Listed { dirs: texts(self.dirs@), files: texts(self.files@) }
    }
}

/// The next thing to do on the disk.
#[derive(Debug)]
pub enum WalkStep {
    /// Open this directory; its entries are then asked for one by one.
    Open(String),
    /// Give the next entry of the directory opened last, or say that it has no more.
    Next,
    /// Nothing is left to read.
    Done,
}

/// The state of a walk: the directories being read, outermost first, whether the
/// innermost still has to be opened, and what was found.
#[verifier::ext_equal]
pub struct WalkState {
    /// The directories being read.
    pub open: Seq<Seq<char>>,
    /// Is the innermost one still to be opened?
    pub fresh: bool,
    /// What was found.
    pub found: Listed,
}

/// The state after an entry of the innermost directory was given.
pub open spec fn after_entry(s: WalkState, name: Seq<char>, kind: EntryKind) -> WalkState {
    let rel = child_path(s.open.last(), name);
    if protected(name) {
        s
    } else {
        match kind {
            EntryKind::Dir => WalkState {
                open: s.open.push(rel),
                fresh: true,
                found: Listed { dirs: s.found.dirs.push(rel), files: s.found.files },
            },
            EntryKind::File => WalkState {
                found: Listed { dirs: s.found.dirs, files: s.found.files.push(rel) },
                ..s
            },
            EntryKind::Other => s,
        }
    }
}

/// Walks through a folder and collects what is packed. Entries with a protected
/// name are passed over, and so is what a protected directory holds.
pub struct Walk {
    open: Vec<String>,
    fresh: bool,
    found: Listing,
}

impl View for Walk {
    type V = WalkState;

    closed spec fn view(&self) -> WalkState {
        WalkState { open: texts(self.open@), fresh: self.fresh, found: self.found@ }
    }
}

impl Walk {
    /// Start at the folder itself.
    pub fn new() -> (w: Walk)
        ensures
            w@ == (WalkState {
                open: seq![Seq::empty()],
                fresh: true,
                found: (Listed { dirs: Seq::empty(), files: Seq::empty() }),
            }),
    {
        let mut open: Vec<String> = Vec::new();
        open.push(String::new());
        let w = Walk {
            open,
            fresh: true,
            found: Listing { dirs: Vec::new(), files: Vec::new() },
        };
        assert(w@.open =~= seq![Seq::empty()]);
        assert(w@.found.dirs =~= Seq::empty());
        assert(w@.found.files =~= Seq::empty());
        w
    }

    /// What to do next.
    pub fn step(&self) -> (s: WalkStep)
        ensures
            self@.open.len() == 0 ==> s is Done,
            self@.open.len() > 0 && self@.fresh ==> (s matches WalkStep::Open(dir) && dir@
                == self@.open.last()),
            self@.open.len() > 0 && !self@.fresh ==> s is Next,
    {
        let n: usize = self.open.len();
        if n == 0 {
            WalkStep::Done
        } else if self.fresh {
            WalkStep::Open(self.open[n - 1].clone())
        } else {
            WalkStep::Next
        }
    }

    /// The innermost directory was opened.
    pub fn opened(&mut self)
        ensures
            final(self)@ == (WalkState { fresh: false, ..old(self)@ }),
    {
        self.fresh = false;
    }

    /// Does it matter what stands at this name? What has a protected one is passed
    /// over, whatever it is.
    pub fn wants(&self, name: &str) -> (r: bool)
        ensures
            r == !protected(name@),
    {
        !is_protected_name(name)
    }

    /// The innermost directory has this entry.
    pub fn entry(&mut self, name: &str, kind: EntryKind)
        requires
            old(self)@.open.len() > 0,
        ensures
            final(self)@ == after_entry(old(self)@, name@, kind),
    {
        if is_protected_name(name) {
            return;
        }
        let ghost before = self@;
        let n: usize = self.open.len();
        let rel = rel_path(self.open[n - 1].as_str(), name);
        match kind {
            EntryKind::Dir => {
                self.found.dirs.push(rel.clone());
                self.open.push(rel);
                self.fresh = true;
            },
            EntryKind::File => {
                self.found.files.push(rel);
            },
            EntryKind::Other => {},
        }
        proof {
            let after = after_entry(before, name@, kind);
            assert(self@.open =~= after.open);
            assert(self@.found.dirs =~= after.found.dirs);
            assert(self@.found.files =~= after.found.files);
        }
    }

    /// The innermost directory has no more entries.
    pub fn end(&mut self)
        requires
            old(self)@.open.len() > 0,
        ensures
            final(self)@ == (WalkState { open: old(self)@.open.drop_last(), ..old(self)@ }),
    {
        let ghost before = self@;
        let _ = self.open.pop();
        assert(self@.open =~= before.open.drop_last());
    }

    /// What was found.
    pub fn finish(self) -> (l: Listing)
        ensures
            l@ == self@.found,
    {
        self.found
    }
}

// ── what a walk finds ──

/// A directory entry with all that is below it.
pub enum Node {
    /// A directory with its entries.
    Dir {
        /// The name of the directory.
        name: Seq<char>,
        /// Its entries, in the order in which they are read.
        entries: Seq<Node>,
    },
    /// A regular file.
    File {
        /// The name of the file.
        name: Seq<char>,
    },
    /// Anything else.
    Other {
        /// The name of the entry.
        name: Seq<char>,
    },
}

/// The name of an entry.
pub open spec fn node_name(node: Node) -> Seq<char> {
    match node {
        Node::Dir { name, .. } => name,
        Node::File { name } => name,
        Node::Other { name } => name,
    }
}

/// What is packed of the entries of a directory and of all that is below them.
pub open spec fn packable(dir: Seq<char>, entries: Seq<Node>) -> Listed
    decreases entries,
{
    if entries.len() == 0 {
        Listed { dirs: Seq::empty(), files: Seq::empty() }
    } else {
        let before = packable(dir, entries.drop_last());
        let node = entries.last();
        let rel = child_path(dir, node_name(node));
        if protected(node_name(node)) {
            before
        } else {
            match node {
                Node::Dir { entries: below, .. } => {
                    let inner = packable(rel, below);
                    Listed {
                        dirs: before.dirs.push(rel) + inner.dirs,
                        files: before.files + inner.files,
                    }
                },
                Node::File { .. } => Listed { dirs: before.dirs, files: before.files.push(rel) },
                Node::Other { .. } => before,
            }
        }
    }
}

/// The state of a walk that has been given the entries of the innermost
/// directory, each directory among them read to its end.
pub open spec fn after_entries(s: WalkState, entries: Seq<Node>) -> WalkState
    decreases entries,
{
    if entries.len() == 0 {
        s
    } else {
        let before = after_entries(s, entries.drop_last());
        match entries.last() {
            Node::Dir { name, entries: below } => {
                let inside = after_entry(before, name, EntryKind::Dir);
                if protected(name) {
                    inside
                } else {
                    let read = after_entries(WalkState { fresh: false, ..inside }, below);
                    WalkState { open: read.open.drop_last(), ..read }
                }
            },
            Node::File { name } => after_entry(before, name, EntryKind::File),
            Node::Other { name } => after_entry(before, name, EntryKind::Other),
        }
    }
}

/// A walk finds exactly what is packed: given the entries of a directory, it has
/// added to what it had found the files and directories that are not protected
/// and not below something protected, and is back at the same directory.
pub proof fn walk_finds_what_is_packable(s: WalkState, entries: Seq<Node>)
    requires
        s.open.len() > 0,
        !s.fresh,
    ensures
        after_entries(s, entries) == (WalkState {
            open: s.open,
            fresh: false,
            found: (Listed {
                dirs: s.found.dirs + packable(s.open.last(), entries).dirs,
                files: s.found.files + packable(s.open.last(), entries).files,
            }),
        }),
    decreases entries,
{
    let dir = s.open.last();
    let p = packable(dir, entries);
    let goal = WalkState {
        open: s.open,
        fresh: false,
        found: Listed { dirs: s.found.dirs + p.dirs, files: s.found.files + p.files },
    };
    if entries.len() == 0 {
        assert(after_entries(s, entries) =~~= goal);
    } else {
        walk_finds_what_is_packable(s, entries.drop_last());
        let before = after_entries(s, entries.drop_last());
        match entries.last() {
            Node::Dir { name, entries: below } => {
                let inside = WalkState { fresh: false, ..after_entry(before, name, EntryKind::Dir) };
                if !protected(name) {
                    walk_finds_what_is_packable(inside, below);
                    assert(inside.open.drop_last() =~= s.open);
                }
                assert(after_entries(s, entries) =~~= goal);
            },
            Node::File { name } => {
                assert(after_entries(s, entries) =~~= goal);
            },
            Node::Other { name } => {
                assert(after_entries(s, entries) =~~= goal);
            },
        }
    }
}

proof fn lemma_child_is_not_temporary(dir: Seq<char>, name: Seq<char>)
    requires
        !protected(name),
    ensures
        child_path(dir, name) != TEMP_FILE@,
{
    own_files_are_protected(TEMP_FILE@);
    if dir.len() > 0 && child_path(dir, name) == TEMP_FILE@ {
        reveal_strlit("/");
        reveal_strlit(".flockvault.tmp");
        let n = dir.len() as int;
        assert(child_path(dir, name)[n] == '/');
        assert(TEMP_FILE@[n] == '/');
    }
}

/// Nothing that is packed stands at the name of the temporary file: writing that file
/// takes the place of nothing that a vault holds.
pub proof fn temporary_file_is_never_packed(dir: Seq<char>, entries: Seq<Node>)
    ensures
        forall|i: int|
            0 <= i < packable(dir, entries).files.len() ==> #[trigger] packable(dir, entries).files[i]
                != TEMP_FILE@,
        forall|i: int|
            0 <= i < packable(dir, entries).dirs.len() ==> #[trigger] packable(dir, entries).dirs[i]
                != TEMP_FILE@,
    decreases entries,
{
    if entries.len() > 0 {
        let node = entries.last();
        let rel = child_path(dir, node_name(node));
        let before = packable(dir, entries.drop_last());
        let all = packable(dir, entries);
        let f = before.files.len() as int;
        let d = before.dirs.len() as int;
        temporary_file_is_never_packed(dir, entries.drop_last());
        if !protected(node_name(node)) {
            lemma_child_is_not_temporary(dir, node_name(node));
            if let Node::Dir { entries: below, .. } = node {
                let inner = packable(rel, below);
                temporary_file_is_never_packed(rel, below);
                assert forall|i: int| f <= i < all.files.len() implies #[trigger] all.files[i]
                    != TEMP_FILE@ by {
                    assert(all.files[i] == inner.files[i - f]);
                }
                assert forall|i: int| d < i < all.dirs.len() implies #[trigger] all.dirs[i]
                    != TEMP_FILE@ by {
                    assert(all.dirs[i] == inner.dirs[i - d - 1]);
                }
            }
        }
        assert forall|i: int| 0 <= i < f implies #[trigger] all.files[i] != TEMP_FILE@ by {
            assert(all.files[i] == before.files[i]);
        }
        assert forall|i: int| 0 <= i < d implies #[trigger] all.dirs[i] != TEMP_FILE@ by {
            assert(all.dirs[i] == before.dirs[i]);
        }
    }
}

/// Is there a name among these that is not protected?
pub open spec fn some_packable(names: Seq<String>) -> bool {
    exists|i: int| 0 <= i < names.len() && !protected(#[trigger] names[i]@)
}

/// Is there an entry that can be packed among these names of a folder's entries?
pub fn has_packable_content(names: &Vec<String>) -> (r: bool)
    ensures
        r == some_packable(names@),
{
    let mut i: usize = 0;
    while i < names.len()
        invariant
            i <= names@.len(),
            forall|j: int| 0 <= j < i ==> protected(#[trigger] names@[j]@),
        decreases names.len() - i,
    {
        if !is_protected_name(names[i].as_str()) {
            return true;
        }
        i = i + 1;
    }
    false
}

// ── what is found, in terms of what is there ──

/// Is this the path of a name below a directory: the name itself in the folder, and
/// the directory, a slash and the name anywhere else?
pub open spec fn path_below(dir: Seq<char>, name: Seq<char>, rel: Seq<char>) -> bool {
    if dir.len() == 0 {
        rel == name
    } else {
        &&& rel.len() == dir.len() + 1 + name.len()
        &&& rel.take(dir.len() as int) == dir
        &&& rel[dir.len() as int] == '/'
        &&& rel.skip(dir.len() as int + 1) == name
    }
}

proof fn lemma_child_path(dir: Seq<char>, name: Seq<char>, rel: Seq<char>)
    ensures
        path_below(dir, name, rel) <==> rel == child_path(dir, name),
{
    reveal_strlit("/");
    let n = dir.len() as int;
    let c = child_path(dir, name);
    if n > 0 {
        assert(c.take(n) =~= dir);
        assert(c[n] == '/');
        assert(c.skip(n + 1) =~= name);
        if path_below(dir, name, rel) {
            assert forall|i: int| 0 <= i < rel.len() implies rel[i] == c[i] by {
                if i < n {
                    assert(rel[i] == rel.take(n)[i]);
                    assert(c[i] == c.take(n)[i]);
                } else if i > n {
                    assert(rel[i] == rel.skip(n + 1)[i - n - 1]);
                    assert(c[i] == c.skip(n + 1)[i - n - 1]);
                }
            }
            assert(rel =~= c);
        }
    }
}

/// Given an entry, a walk lists a file, lists and enters a directory, and passes over
/// anything else and every name that the folder keeps for itself.
pub proof fn walk_takes_in_every_other_entry(w: &mut Walk, name: &str, kind: EntryKind)
    requires
        old(w)@.open.len() > 0,
        call_ensures(Walk::entry, (w, name, kind), ()),
    ensures
        kept_name(name@) || kind == EntryKind::Other ==> final(w)@ == old(w)@,
        !kept_name(name@) && kind == EntryKind::File ==> {
            let (a, b) = (old(w)@, final(w)@);
            &&& b.open == a.open
            &&& b.fresh == a.fresh
            &&& b.found.dirs == a.found.dirs
            &&& b.found.files.len() == a.found.files.len() + 1
            &&& b.found.files.drop_last() == a.found.files
            &&& path_below(a.open.last(), name@, b.found.files.last())
        },
        !kept_name(name@) && kind == EntryKind::Dir ==> {
            let (a, b) = (old(w)@, final(w)@);
            &&& b.found.files == a.found.files
            &&& b.found.dirs.len() == a.found.dirs.len() + 1
            &&& b.found.dirs.drop_last() == a.found.dirs
            &&& path_below(a.open.last(), name@, b.found.dirs.last())
            &&& b.open == a.open.push(b.found.dirs.last())
            &&& b.fresh
        },
{
    let rel = child_path(old(w)@.open.last(), name@);
    protected_names_are_the_kept_ones(name@);
    lemma_child_path(old(w)@.open.last(), name@, rel);
    assert(old(w)@.found.files.push(rel).drop_last() =~= old(w)@.found.files);
    assert(old(w)@.found.dirs.push(rel).drop_last() =~= old(w)@.found.dirs);
}

/// Does this trail of positions lead through the entries of a directory, and on through
/// directories, to a file or a directory with a path, past nothing that a folder keeps
/// for itself?
pub open spec fn leads_to(
    dir: Seq<char>,
    entries: Seq<Node>,
    trail: Seq<int>,
    rel: Seq<char>,
    to_file: bool,
) -> bool
    decreases trail.len(),
{
    &&& trail.len() > 0
    &&& 0 <= trail[0] < entries.len()
    &&& !kept_name(node_name(entries[trail[0]]))
    &&& if trail.len() == 1 {
        &&& path_below(dir, node_name(entries[trail[0]]), rel)
        &&& to_file ==> entries[trail[0]] is File
        &&& !to_file ==> entries[trail[0]] is Dir
    } else {
        &&& entries[trail[0]] matches Node::Dir { name, entries: below }
        &&& leads_to(child_path(dir, name), below, trail.drop_first(), rel, to_file)
    }
}

proof fn lemma_leads_on(
    dir: Seq<char>,
    entries: Seq<Node>,
    k: int,
    trail: Seq<int>,
    rel: Seq<char>,
    to_file: bool,
)
    requires
        0 <= k < entries.len(),
        !kept_name(node_name(entries[k])),
        entries[k] matches Node::Dir { name, entries: below } && leads_to(
            child_path(dir, name),
            below,
            trail,
            rel,
            to_file,
        ),
    ensures
        leads_to(dir, entries, seq![k] + trail, rel, to_file),
{
    let longer = seq![k] + trail;
    assert(longer.drop_first() =~= trail);
    assert(longer.len() > 1);
}

proof fn lemma_leads_here(
    dir: Seq<char>,
    entries: Seq<Node>,
    k: int,
    rel: Seq<char>,
    to_file: bool,
)
    requires
        0 <= k < entries.len(),
        !kept_name(node_name(entries[k])),
        rel == child_path(dir, node_name(entries[k])),
        to_file ==> entries[k] is File,
        !to_file ==> entries[k] is Dir,
    ensures
        leads_to(dir, entries, seq![k], rel, to_file),
{
    lemma_child_path(dir, node_name(entries[k]), rel);
}

proof fn lemma_more_entries(
    dir: Seq<char>,
    entries: Seq<Node>,
    trail: Seq<int>,
    rel: Seq<char>,
    to_file: bool,
)
    requires
        entries.len() > 0,
    ensures
        leads_to(dir, entries.drop_last(), trail, rel, to_file) ==> leads_to(
            dir,
            entries,
            trail,
            rel,
            to_file,
        ),
        leads_to(dir, entries, trail, rel, to_file) && trail[0] < entries.len() - 1 ==> leads_to(
            dir,
            entries.drop_last(),
            trail,
            rel,
            to_file,
        ),
{
}

#[verifier::rlimit(30)]
proof fn lemma_all_found(dir: Seq<char>, entries: Seq<Node>, rel: Seq<char>)
    ensures
        packable(dir, entries).files.contains(rel) ==> exists|trail: Seq<int>| #[trigger]
            leads_to(dir, entries, trail, rel, true),
        packable(dir, entries).dirs.contains(rel) ==> exists|trail: Seq<int>| #[trigger]
            leads_to(dir, entries, trail, rel, false),
    decreases entries,
{
    if entries.len() > 0 {
        let front = entries.drop_last();
        let k = entries.len() - 1;
        let node = entries.last();
        let here = child_path(dir, node_name(node));
        let before = packable(dir, front);
        let all = packable(dir, entries);
        lemma_all_found(dir, front, rel);
        protected_names_are_the_kept_ones(node_name(node));
        if before.files.contains(rel) {
            let t = choose|t: Seq<int>| #[trigger] leads_to(dir, front, t, rel, true);
            lemma_more_entries(dir, entries, t, rel, true);
        }
        if before.dirs.contains(rel) {
            let t = choose|t: Seq<int>| #[trigger] leads_to(dir, front, t, rel, false);
            lemma_more_entries(dir, entries, t, rel, false);
        }
        if !protected(node_name(node)) {
            match node {
                Node::Dir { entries: below, .. } => {
                    let inner = packable(here, below);
                    lemma_all_found(here, below, rel);
                    if all.files.contains(rel) && !before.files.contains(rel) {
                        let j = all.files.index_of(rel);
                        assert(j >= before.files.len()) by {
                            if j < before.files.len() {
                                assert(before.files[j] == rel);
                            }
                        }
                        assert(inner.files[j - before.files.len()] == rel);
                        let t = choose|t: Seq<int>| #[trigger]
                            leads_to(here, below, t, rel, true);
                        lemma_leads_on(dir, entries, k, t, rel, true);
                    }
                    if all.dirs.contains(rel) && !before.dirs.contains(rel) {
                        let j = all.dirs.index_of(rel);
                        let n = before.dirs.len() as int;
                        if j == n {
                            lemma_leads_here(dir, entries, k, rel, false);
                        } else {
                            assert(j > n) by {
                                if j < n {
                                    assert(before.dirs[j] == rel);
                                }
                            }
                            assert(inner.dirs[j - n - 1] == rel);
                            let t = choose|t: Seq<int>| #[trigger]
                                leads_to(here, below, t, rel, false);
                            lemma_leads_on(dir, entries, k, t, rel, false);
                        }
                    }
                },
                Node::File { .. } => {
                    if all.files.contains(rel) && !before.files.contains(rel) {
                        let j = all.files.index_of(rel);
                        assert(j == before.files.len()) by {
                            if j < before.files.len() {
                                assert(before.files[j] == rel);
                            }
                        }
                        lemma_leads_here(dir, entries, k, rel, true);
                    }
                },
                Node::Other { .. } => {},
            }
        }
    }
}

proof fn lemma_contains_add(a: Seq<Seq<char>>, b: Seq<Seq<char>>, x: Seq<char>)
    requires
        a.contains(x) || b.contains(x),
    ensures
        (a + b).contains(x),
{
    if a.contains(x) {
        let i = a.index_of(x);
        assert((a + b)[i] == x);
    } else {
        let i = b.index_of(x);
        assert((a + b)[a.len() + i] == x);
    }
}

#[verifier::rlimit(30)]
proof fn lemma_none_missed(
    dir: Seq<char>,
    entries: Seq<Node>,
    trail: Seq<int>,
    rel: Seq<char>,
    to_file: bool,
)
    requires
        leads_to(dir, entries, trail, rel, to_file),
    ensures
        to_file ==> packable(dir, entries).files.contains(rel),
        !to_file ==> packable(dir, entries).dirs.contains(rel),
    decreases entries,
{
    let front = entries.drop_last();
    let k = entries.len() - 1;
    let node = entries.last();
    let here = child_path(dir, node_name(node));
    let before = packable(dir, front);
    let all = packable(dir, entries);
    protected_names_are_the_kept_ones(node_name(node));
    if trail[0] < k {
        lemma_more_entries(dir, entries, trail, rel, to_file);
        lemma_none_missed(dir, front, trail, rel, to_file);
        if let Node::Dir { entries: below, .. } = node {
            let inner = packable(here, below);
            if to_file {
                lemma_contains_add(before.files, inner.files, rel);
            } else {
                lemma_contains_add(before.dirs, seq![here], rel);
                assert(before.dirs + seq![here] =~= before.dirs.push(here));
                lemma_contains_add(before.dirs.push(here), inner.dirs, rel);
            }
        } else if to_file {
            lemma_contains_add(before.files, seq![here], rel);
            assert(before.files + seq![here] =~= before.files.push(here));
        }
    } else {
        match node {
            Node::Dir { entries: below, .. } => {
                let inner = packable(here, below);
                if trail.len() == 1 {
                    lemma_child_path(dir, node_name(node), rel);
                    assert(all.dirs[before.dirs.len() as int] == rel);
                } else {
                    lemma_none_missed(here, below, trail.drop_first(), rel, to_file);
                    if to_file {
                        lemma_contains_add(before.files, inner.files, rel);
                    } else {
                        lemma_contains_add(before.dirs.push(here), inner.dirs, rel);
                    }
                }
            },
            Node::File { .. } => {
                lemma_child_path(dir, node_name(node), rel);
                assert(all.files.last() == rel);
            },
            Node::Other { .. } => {},
        }
    }
}

/// A file or a directory is packed exactly where it can be reached through directories
/// without passing a name that the folder keeps for itself: every other file of the
/// tree is listed.
pub proof fn all_that_can_be_reached_is_packed(dir: Seq<char>, entries: Seq<Node>, rel: Seq<char>)
    ensures
        packable(dir, entries).files.contains(rel) <==> exists|trail: Seq<int>| #[trigger]
            leads_to(dir, entries, trail, rel, true),
        packable(dir, entries).dirs.contains(rel) <==> exists|trail: Seq<int>| #[trigger]
            leads_to(dir, entries, trail, rel, false),
{
    lemma_all_found(dir, entries, rel);
    if exists|trail: Seq<int>| #[trigger] leads_to(dir, entries, trail, rel, true) {
        let t = choose|t: Seq<int>| #[trigger] leads_to(dir, entries, t, rel, true);
        lemma_none_missed(dir, entries, t, rel, true);
    }
    if exists|trail: Seq<int>| #[trigger] leads_to(dir, entries, trail, rel, false) {
        let t = choose|t: Seq<int>| #[trigger] leads_to(dir, entries, t, rel, false);
        lemma_none_missed(dir, entries, t, rel, false);
    }
}

/// What is packed of the entries of a directory is what is packed of the first of them,
/// followed by what is packed of the others: nothing is packed twice, and the order is
/// that of the entries.
pub proof fn packing_goes_entry_by_entry(dir: Seq<char>, a: Seq<Node>, b: Seq<Node>)
    ensures
        packable(dir, a + b).files == packable(dir, a).files + packable(dir, b).files,
        packable(dir, a + b).dirs == packable(dir, a).dirs + packable(dir, b).dirs,
    decreases b.len(),
{
    if b.len() == 0 {
        assert(a + b =~= a);
    } else {
        packing_goes_entry_by_entry(dir, a, b.drop_last());
        assert((a + b).drop_last() =~= a + b.drop_last());
        assert((a + b).last() == b.last());
    }
}

/// There is something to lock in a folder exactly where one of its entries has a name
/// that the folder does not keep for itself, and just those entries matter.
pub proof fn content_is_what_is_not_kept(
    names: &Vec<String>,
    any: bool,
    w: &Walk,
    name: &str,
    r: bool,
)
    requires
        call_ensures(has_packable_content, (names,), any),
        call_ensures(Walk::wants, (w, name), r),
    ensures
        any <==> exists|i: int| 0 <= i < names@.len() && !kept_name(#[trigger] names@[i]@),
        r <==> !kept_name(name@),
{
    protected_names_are_the_kept_ones(name@);
    if any {
        let i = choose|i: int| 0 <= i < names@.len() && !protected(#[trigger] names@[i]@);
        protected_names_are_the_kept_ones(names@[i]@);
        assert(!kept_name(names@[i]@));
    } else {
        assert forall|i: int| 0 <= i < names@.len() implies kept_name(#[trigger] names@[i]@) by {
            protected_names_are_the_kept_ones(names@[i]@);
            assert(protected(names@[i]@));
        }
    }
}

/// A walk begins at the folder itself with nothing found, asks for a directory to be
/// opened before its entries are read, leaves it at its end, is done once the folder
/// itself was left, and then gives what it has found.
pub proof fn walk_reads_each_directory_to_its_end(
    new: Walk,
    w: &Walk,
    s: WalkStep,
    a: &mut Walk,
    b: &mut Walk,
    c: Walk,
    l: Listing,
)
    requires
        call_ensures(Walk::new, (), new),
        call_ensures(Walk::step, (w,), s),
        call_ensures(Walk::opened, (a,), ()),
        old(b)@.open.len() > 0,
        call_ensures(Walk::end, (b,), ()),
        call_ensures(Walk::finish, (c,), l),
    ensures
        new@.open.len() == 1 && new@.open[0].len() == 0 && new@.fresh,
        new@.found.dirs.len() == 0 && new@.found.files.len() == 0,
        s is Done <==> w@.open.len() == 0,
        s is Next <==> w@.open.len() > 0 && !w@.fresh,
        s matches WalkStep::Open(dir) ==> w@.open.len() > 0 && w@.fresh && dir@ == w@.open.last(),
        !final(a)@.fresh && final(a)@.open == old(a)@.open && final(a)@.found == old(a)@.found,
        final(b)@.open == old(b)@.open.drop_last() && final(b)@.fresh == old(b)@.fresh,
        final(b)@.found == old(b)@.found,
        texts(l.dirs@) == c@.found.dirs && texts(l.files@) == c@.found.files,
{
}

} // verus!
