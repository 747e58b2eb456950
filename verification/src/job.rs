//! An operation on a folder, one action at a time.
//!
//! A [`Job`] is a list of tasks. It names the action that is due; whoever holds
//! the folder performs it and replies with what came of it; the reply decides
//! what becomes of the tasks. The job ends with the number of files processed, or
//! with the message of the failure.

use vstd::prelude::*;

use crate::crypto::{zero_key, Key};
use crate::path::texts;
use crate::sort::{path_sort, sort_paths};
use crate::text::{decimal, decimal_text};
use crate::vault::PendingOp;
use crate::walk::{Listed, Listing};

verus! {

/// Where the content of a locked file is kept outside the vault.
#[derive(Clone, Copy, PartialEq, Eq, Debug, Structural)]
pub enum Store {
    /// In an alternate data stream of the host file.
    Streams,
    /// In the container directory.
    Container,
}

/// A part of the vault file; a failed write is reported by part.
#[derive(Clone, Copy, PartialEq, Eq, Debug, Structural)]
pub enum Part {
    /// The salt.
    Salt,
    /// The mode byte.
    Mode,
    /// The length of the metadata.
    MetaLength,
    /// The metadata.
    Meta,
    /// The encrypted manifest.
    Manifest,
}

/// Something whose presence is asked for.
#[derive(PartialEq, Eq, Debug)]
pub enum Place<S> {
    /// A file of the folder.
    File {
        /// Its relative path.
        rel: S,
    },
    /// A stored content.
    Stored {
        /// Where it is kept.
        store: Store,
        /// Its name there.
        name: S,
    },
    /// The host file.
    Host,
}

/// What is to be done on the disk. `S` is the type of texts, `B` that of bytes.
#[derive(PartialEq, Eq, Debug)]
pub enum Action<S, B> {
    /// Create the temporary vault.
    CreateVault,
    /// Append to the temporary vault.
    WriteVault {
        /// Which part it is.
        part: Part,
        /// The bytes.
        bytes: B,
    },
    /// Append the encrypted stream of a file to the temporary vault.
    SealFile {
        /// The file.
        rel: S,
        /// The number of the stream.
        number: u64,
    },
    /// Write out what is buffered for the temporary vault.
    FlushVault,
    /// Rename the temporary vault into place and hide it.
    CommitVault,
    /// Write the journal and hide it.
    Mark(PendingOp),
    /// Remove the journal.
    Unmark,
    /// Walk through the folder and list it.
    ListTree,
    /// Remove a file.
    RemoveFile {
        /// The file.
        rel: S,
    },
    /// Remove an empty directory.
    RemoveDir {
        /// The directory.
        rel: S,
    },
    /// Look whether something is there.
    Probe(Place<S>),
    /// Create the host file with its marker.
    CreateHost,
    /// Hide the host file.
    HideHost,
    /// Lift the access guard of the container.
    LiftGuard,
    /// Create the container.
    CreateData,
    /// Hide the container and set its access guard.
    GuardData,
    /// Bring the content of a file into the store: copy it into a stream, or move
    /// the file into the container.
    Stash {
        /// Where to.
        store: Store,
        /// The file.
        rel: S,
        /// Its name in the store.
        name: S,
    },
    /// Bring a file back out of the store: copy its stream to the temporary file
    /// and rename that into place, or move it out of the container.
    Fetch {
        /// Where from.
        store: Store,
        /// The file.
        rel: S,
        /// Its name in the store.
        name: S,
    },
    /// Remove a stream of the host file.
    RemoveStream {
        /// The stream.
        name: S,
    },
    /// Create a directory and those above it.
    MakeDir {
        /// The directory.
        rel: S,
    },
    /// Create the directories above a file.
    MakeParents {
        /// The file.
        rel: S,
    },
    /// Write a file: fill the temporary file and rename it into place.
    PutFile {
        /// The file.
        rel: S,
        /// Its content.
        bytes: B,
    },
    /// Decrypt the next stream of the vault to the temporary file and rename that
    /// into place.
    OpenFile {
        /// The file.
        rel: S,
        /// The number that the stream must have, where streams are numbered.
        due: Option<u64>,
    },
    /// Remove the host file, or the container with what it holds.
    DropStore(Store),
    /// Remove the vault.
    DropVault,
    /// Show the progress.
    Report {
        /// What is done.
        done: usize,
        /// Out of how much.
        total: usize,
    },
    /// Give the folder the locked icon.
    ShowIcon,
    /// Give the folder its own icon back.
    HideIcon,
}

/// A step of a job.
#[derive(PartialEq, Eq, Debug)]
pub enum Task<S, B> {
    /// Perform an action.
    Do(Action<S, B>),
    /// Lock a file: bring it into the store if it is there.
    Lock {
        /// Where to.
        store: Store,
        /// The file.
        rel: S,
        /// Its name in the store.
        name: S,
    },
    /// A file to lock is not there: see that the store has it.
    CheckStored {
        /// Where.
        store: Store,
        /// The file.
        rel: S,
        /// Its name in the store.
        name: S,
    },
    /// Unlock a file: bring it back if the store has it.
    Unlock {
        /// Where from.
        store: Store,
        /// The file.
        rel: S,
        /// Its name in the store.
        name: S,
    },
    /// A file to unlock is not in the store: see that it is there already.
    CheckRestored {
        /// The file.
        rel: S,
    },
    /// Create the host file if it is not there.
    PrepareHost,
    /// Remove all that is packed from the folder.
    Clear,
    /// Fail if anything was lost; otherwise remove the store.
    Settle(Store),
    /// Fail with a message.
    Fail(S),
}

/// What came of an action.
pub enum Reply {
    /// It was done.
    Done,
    /// What was asked for is there, or not.
    Found(bool),
    /// The folder was listed.
    Listed(Listing),
    /// It failed, with this message.
    Failed(String),
}

/// What came of an action, as texts.
pub enum Answer {
    /// It was done.
    Done,
    /// What was asked for is there, or not.
    Found(bool),
    /// The folder was listed.
    Listed(Listed),
    /// It failed, with this message.
    Failed(Seq<char>),
}

impl View for Reply {
    type V = Answer;

    open spec fn view(&self) -> Answer {
        match self {
            Reply::Done => Answer::Done,
            Reply::Found(b) => Answer::Found(*b),
            Reply::Listed(l) => Answer::Listed(l@),
            Reply::Failed(m) => Answer::Failed(m@),
        }
    }
}

/// An action with its texts and bytes as sequences.
pub type Act = Action<Seq<char>, Seq<u8>>;

/// A task with its texts and bytes as sequences.
pub type Step = Task<Seq<char>, Seq<u8>>;

/// The place that a place of strings stands for.
pub open spec fn place_view(p: Place<String>) -> Place<Seq<char>> {
    match p {
        Place::File { rel } => Place::File { rel: rel@ },
        Place::Stored { store, name } => Place::Stored { store, name: name@ },
        Place::Host => Place::Host,
    }
}

/// The action that an action of strings stands for.
pub open spec fn act_view(a: Action<String, Vec<u8>>) -> Act {
    match a {
        Action::CreateVault => Action::CreateVault,
        Action::WriteVault { part, bytes } => Action::WriteVault { part, bytes: bytes@ },
        Action::SealFile { rel, number } => Action::SealFile { rel: rel@, number },
        Action::FlushVault => Action::FlushVault,
        Action::CommitVault => Action::CommitVault,
        Action::Mark(op) => Action::Mark(op),
        Action::Unmark => Action::Unmark,
        Action::ListTree => Action::ListTree,
        Action::RemoveFile { rel } => Action::RemoveFile { rel: rel@ },
        Action::RemoveDir { rel } => Action::RemoveDir { rel: rel@ },
        Action::Probe(p) => Action::Probe(place_view(p)),
        Action::CreateHost => Action::CreateHost,
        Action::HideHost => Action::HideHost,
        Action::LiftGuard => Action::LiftGuard,
        Action::CreateData => Action::CreateData,
        Action::GuardData => Action::GuardData,
        Action::Stash { store, rel, name } => Action::Stash { store, rel: rel@, name: name@ },
        Action::Fetch { store, rel, name } => Action::Fetch { store, rel: rel@, name: name@ },
        Action::RemoveStream { name } => Action::RemoveStream { name: name@ },
        Action::MakeDir { rel } => Action::MakeDir { rel: rel@ },
        Action::MakeParents { rel } => Action::MakeParents { rel: rel@ },
        Action::PutFile { rel, bytes } => Action::PutFile { rel: rel@, bytes: bytes@ },
        Action::OpenFile { rel, due } => Action::OpenFile { rel: rel@, due },
        Action::DropStore(store) => Action::DropStore(store),
        Action::DropVault => Action::DropVault,
        Action::Report { done, total } => Action::Report { done, total },
        Action::ShowIcon => Action::ShowIcon,
        Action::HideIcon => Action::HideIcon,
    }
}

/// The task that a task of strings stands for.
pub open spec fn task_view(t: Task<String, Vec<u8>>) -> Step {
    match t {
        Task::Do(a) => Task::Do(act_view(a)),
        Task::Lock { store, rel, name } => Task::Lock { store, rel: rel@, name: name@ },
        Task::CheckStored { store, rel, name } => Task::CheckStored {
            store,
            rel: rel@,
            name: name@,
        },
        Task::Unlock { store, rel, name } => Task::Unlock { store, rel: rel@, name: name@ },
        Task::CheckRestored { rel } => Task::CheckRestored { rel: rel@ },
        Task::PrepareHost => Task::PrepareHost,
        Task::Clear => Task::Clear,
        Task::Settle(store) => Task::Settle(store),
        Task::Fail(m) => Task::Fail(m@),
    }
}

/// The tasks of a list.
pub open spec fn tasks_view(list: Seq<Task<String, Vec<u8>>>) -> Seq<Step> {
    list.map_values(|t: Task<String, Vec<u8>>| task_view(t))
}

// ── what a job does ──

/// The state of a job: the tasks to come, the files counted, the files found
/// lost, and the outcome once there is one.
#[verifier::ext_equal]
pub struct State {
    /// The tasks to come.
    pub todo: Seq<Step>,
    /// The files counted.
    pub count: nat,
    /// The files found lost.
    pub lost: Seq<Seq<char>>,
    /// The outcome.
    pub outcome: Option<Result<nat, Seq<char>>>,
}

/// Actions whose failure does not matter.
pub open spec fn best_effort(a: Act) -> bool {
    match a {
        Action::Mark(_) => true,
        Action::Unmark => true,
        Action::RemoveFile { .. } => true,
        Action::RemoveDir { .. } => true,
        Action::HideHost => true,
        Action::LiftGuard => true,
        Action::GuardData => true,
        Action::RemoveStream { .. } => true,
        Action::DropStore(_) => true,
        Action::DropVault => true,
        Action::Report { .. } => true,
        Action::ShowIcon => true,
        Action::HideIcon => true,
        _ => false,
    }
}

/// Actions that process a file.
pub open spec fn counts(a: Act) -> bool {
    match a {
        Action::SealFile { .. } => true,
        Action::Stash { .. } => true,
        Action::Fetch { .. } => true,
        Action::PutFile { .. } => true,
        Action::OpenFile { .. } => true,
        _ => false,
    }
}

/// The action that a task asks for.
pub open spec fn action_of(t: Step) -> Act {
    match t {
        Task::Do(a) => a,
        Task::Lock { rel, .. } => Action::Probe(Place::File { rel }),
        Task::CheckStored { store, name, .. } => Action::Probe(Place::Stored { store, name }),
        Task::Unlock { store, name, .. } => Action::Probe(Place::Stored { store, name }),
        Task::CheckRestored { rel } => Action::Probe(Place::File { rel }),
        Task::PrepareHost => Action::Probe(Place::Host),
        Task::Clear => Action::ListTree,
        Task::Settle(store) => Action::DropStore(store),
        Task::Fail(_) => Action::Unmark,
    }
}

/// How a file that is there is locked.
pub open spec fn lock_steps(store: Store, rel: Seq<char>, name: Seq<char>) -> Seq<Step> {
    match store {
        Store::Streams => seq![
            Task::Do(Action::Stash { store, rel, name }),
            Task::Do(Action::RemoveFile { rel }),
        ],
        Store::Container => seq![Task::Do(Action::Stash { store, rel, name })],
    }
}

/// How a file that the store has is unlocked.
pub open spec fn unlock_steps(store: Store, rel: Seq<char>, name: Seq<char>) -> Seq<Step> {
    match store {
        Store::Streams => seq![
            Task::Do(Action::MakeParents { rel }),
            Task::Do(Action::Fetch { store, rel, name }),
            Task::Do(Action::RemoveStream { name }),
        ],
        Store::Container => seq![
            Task::Do(Action::MakeParents { rel }),
            Task::Do(Action::Fetch { store, rel, name }),
        ],
    }
}

/// How what was listed is removed: the files, then the directories from the last
/// in the order of paths to the first, so that each is empty when its turn comes.
pub open spec fn removal(l: Listed) -> Seq<Step> {
    l.files.map_values(|rel: Seq<char>| remove_file(rel)) + path_sort(
        l.dirs,
    ).reverse().map_values(|rel: Seq<char>| remove_dir(rel))
}

/// The task of removing a file.
pub open spec fn remove_file(rel: Seq<char>) -> Step {
    Task::Do(Action::RemoveFile { rel })
}

/// The task of removing a directory.
pub open spec fn remove_dir(rel: Seq<char>) -> Step {
    Task::Do(Action::RemoveDir { rel })
}

/// The message for a file to lock that is nowhere.
pub open spec fn nowhere(store: Store, rel: Seq<char>) -> Seq<char> {
    match store {
        Store::Streams => "源文件与 ADS 均缺失，无法锁定: "@ + rel,
        Store::Container => "源文件与容器均缺失，无法锁定: "@ + rel,
    }
}

/// Texts with commas between them.
pub open spec fn listing_text(list: Seq<Seq<char>>) -> Seq<char>
    decreases list.len(),
{
    if list.len() == 0 {
        Seq::empty()
    } else if list.len() == 1 {
        list[0]
    } else {
        listing_text(list.drop_last()) + ", "@ + list.last()
    }
}

/// The message for files that are lost.
pub open spec fn loss_message(count: nat, lost: Seq<Seq<char>>) -> Seq<char> {
    "已恢复 "@ + decimal(count) + " 个文件，"@ + decimal(lost.len()) + " 个数据已丢失无法恢复: "@
        + listing_text(lost)
}

/// A job that has ended.
pub open spec fn ended(s: State, outcome: Result<nat, Seq<char>>) -> State {
    State { todo: Seq::empty(), outcome: Some(outcome), ..s }
}

/// The state in which the first task asks for an action, or the job has ended.
pub open spec fn settled(s: State) -> State {
    if s.outcome is Some {
        s
    } else if s.todo.len() == 0 {
        ended(s, Ok(s.count))
    } else {
        match s.todo[0] {
            Task::Fail(m) => ended(s, Err(m)),
            Task::Settle(store) => if s.lost.len() > 0 {
                ended(s, Err(loss_message(s.count, s.lost)))
            } else {
                State { todo: seq![Task::Do(Action::DropStore(store))] + s.todo.drop_first(), ..s }
            },
            _ => s,
        }
    }
}

/// The state with the first task replaced by others.
pub open spec fn replaced(s: State, by: Seq<Step>) -> State {
    State { todo: by + s.todo.drop_first(), ..s }
}

/// The state with the first task done and a file counted.
pub open spec fn counted(s: State) -> State {
    State { count: s.count + 1, ..replaced(s, Seq::empty()) }
}

/// What an answer makes of the first task.
pub open spec fn answered(s: State, answer: Answer) -> State {
    let there = answer == Answer::Found(true);
    match s.todo[0] {
        Task::Do(a) => match answer {
            Answer::Failed(m) => if best_effort(a) {
                replaced(s, Seq::empty())
            } else {
                ended(s, Err(m))
            },
            _ => if counts(a) {
                counted(s)
            } else {
                replaced(s, Seq::empty())
            },
        },
        Task::Lock { store, rel, name } => if there {
            replaced(s, lock_steps(store, rel, name))
        } else {
            replaced(s, seq![Task::CheckStored { store, rel, name }])
        },
        Task::CheckStored { store, rel, .. } => if there {
            counted(s)
        } else {
            ended(s, Err(nowhere(store, rel)))
        },
        Task::Unlock { store, rel, name } => if there {
            replaced(s, unlock_steps(store, rel, name))
        } else {
            replaced(s, seq![Task::CheckRestored { rel }])
        },
        Task::CheckRestored { rel } => if there {
            counted(s)
        } else {
            State { lost: s.lost.push(rel), ..replaced(s, Seq::empty()) }
        },
        Task::PrepareHost => if there {
            replaced(s, Seq::empty())
        } else {
            replaced(s, seq![Task::Do(Action::CreateHost)])
        },
        Task::Clear => match answer {
            Answer::Listed(l) => replaced(s, removal(l)),
            Answer::Failed(m) => ended(s, Err(m)),
            _ => replaced(s, Seq::empty()),
        },
        Task::Settle(_) => s,
        Task::Fail(_) => s,
    }
}

/// The state of a job after a reply.
pub open spec fn after(s: State, answer: Answer) -> State {
    if s.outcome is Some {
        s
    } else {
        settled(answered(s, answer))
    }
}

/// The state in which a job starts.
pub open spec fn initial(todo: Seq<Step>, count: nat) -> State {
    settled(State { todo, count, lost: Seq::empty(), outcome: None })
}

// ── counting ──

/// How many files a task may count.
pub open spec fn weight(t: Step) -> nat {
    match t {
        Task::Do(a) => if counts(a) {
            1
        } else {
            0
        },
        Task::Lock { .. } => 1,
        Task::CheckStored { .. } => 1,
        Task::Unlock { .. } => 1,
        Task::CheckRestored { .. } => 1,
        _ => 0,
    }
}

/// How many files the tasks of a list may count.
pub open spec fn total_weight(list: Seq<Step>) -> nat
    decreases list.len(),
{
    if list.len() == 0 {
        0
    } else {
        total_weight(list.drop_last()) + weight(list.last())
    }
}

proof fn lemma_weight_append(a: Seq<Step>, b: Seq<Step>)
    ensures
        total_weight(a + b) == total_weight(a) + total_weight(b),
    decreases b.len(),
{
    if b.len() == 0 {
        assert(a + b =~= a);
    } else {
        lemma_weight_append(a, b.drop_last());
        assert((a + b).drop_last() =~= a + b.drop_last());
    }
}

proof fn lemma_weight_one(t: Step)
    ensures
        total_weight(seq![t]) == weight(t),
{
    assert(seq![t].drop_last() =~= Seq::empty());
    assert(total_weight(seq![t].drop_last()) == 0);
}

proof fn lemma_weight_first(list: Seq<Step>)
    requires
        list.len() > 0,
    ensures
        total_weight(list) == weight(list[0]) + total_weight(list.drop_first()),
{
    assert(list =~= seq![list[0]] + list.drop_first());
    lemma_weight_append(seq![list[0]], list.drop_first());
    lemma_weight_one(list[0]);
}

/// Tasks none of which counts a file.
pub proof fn weightless_tasks(list: Seq<Step>)
    requires
        forall|i: int| 0 <= i < list.len() ==> weight(#[trigger] list[i]) == 0,
    ensures
        total_weight(list) == 0,
    decreases list.len(),
{
    if list.len() > 0 {
        weightless_tasks(list.drop_last());
    }
}

/// The tasks of a list count no more files than there are tasks.
pub proof fn weight_at_most_len(list: Seq<Step>)
    ensures
        total_weight(list) <= list.len(),
    decreases list.len(),
{
    if list.len() > 0 {
        weight_at_most_len(list.drop_last());
    }
}

proof fn lemma_steps_weigh_one(store: Store, rel: Seq<char>, name: Seq<char>)
    ensures
        total_weight(lock_steps(store, rel, name)) == 1,
        total_weight(unlock_steps(store, rel, name)) == 1,
{
    reveal_with_fuel(total_weight, 5);
    let l = lock_steps(store, rel, name);
    let u = unlock_steps(store, rel, name);
    match store {
        Store::Streams => {
            assert(l.drop_last() =~= seq![l[0]]);
            assert(l.drop_last().drop_last() =~= Seq::empty());
            assert(u.drop_last() =~= seq![u[0], u[1]]);
            assert(u.drop_last().drop_last() =~= seq![u[0]]);
            assert(u.drop_last().drop_last().drop_last() =~= Seq::empty());
        },
        Store::Container => {
            assert(l.drop_last() =~= Seq::empty());
            assert(u.drop_last() =~= seq![u[0]]);
            assert(u.drop_last().drop_last() =~= Seq::empty());
        },
    }
}

// ── running a job ──

fn copy_bytes(b: &Vec<u8>) -> (r: Vec<u8>)
    ensures
        r@ == b@,
{
    let mut r: Vec<u8> = Vec::new();
    r.extend_from_slice(b.as_slice());
    assert(r@ =~= b@);
    r
}

fn copy_place(p: &Place<String>) -> (r: Place<String>)
    ensures
        place_view(r) == place_view(*p),
{
    match p {
        Place::File { rel } => Place::File { rel: rel.clone() },
        Place::Stored { store, name } => Place::Stored { store: *store, name: name.clone() },
        Place::Host => Place::Host,
    }
}

fn copy_action(a: &Action<String, Vec<u8>>) -> (r: Action<String, Vec<u8>>)
    ensures
        act_view(r) == act_view(*a),
{
    match a {
        Action::CreateVault => Action::CreateVault,
        Action::WriteVault { part, bytes } => Action::WriteVault {
            part: *part,
            bytes: copy_bytes(bytes),
        },
        Action::SealFile { rel, number } => Action::SealFile { rel: rel.clone(), number: *number },
        Action::FlushVault => Action::FlushVault,
        Action::CommitVault => Action::CommitVault,
        Action::Mark(op) => Action::Mark(*op),
        Action::Unmark => Action::Unmark,
        Action::ListTree => Action::ListTree,
        Action::RemoveFile { rel } => Action::RemoveFile { rel: rel.clone() },
        Action::RemoveDir { rel } => Action::RemoveDir { rel: rel.clone() },
        Action::Probe(p) => Action::Probe(copy_place(p)),
        Action::CreateHost => Action::CreateHost,
        Action::HideHost => Action::HideHost,
        Action::LiftGuard => Action::LiftGuard,
        Action::CreateData => Action::CreateData,
        Action::GuardData => Action::GuardData,
        Action::Stash { store, rel, name } => Action::Stash {
            store: *store,
            rel: rel.clone(),
            name: name.clone(),
        },
        Action::Fetch { store, rel, name } => Action::Fetch {
            store: *store,
            rel: rel.clone(),
            name: name.clone(),
        },
        Action::RemoveStream { name } => Action::RemoveStream { name: name.clone() },
        Action::MakeDir { rel } => Action::MakeDir { rel: rel.clone() },
        Action::MakeParents { rel } => Action::MakeParents { rel: rel.clone() },
        Action::PutFile { rel, bytes } => Action::PutFile {
            rel: rel.clone(),
            bytes: copy_bytes(bytes),
        },
        Action::OpenFile { rel, due } => Action::OpenFile { rel: rel.clone(), due: *due },
        Action::DropStore(store) => Action::DropStore(*store),
        Action::DropVault => Action::DropVault,
        Action::Report { done, total } => Action::Report { done: *done, total: *total },
        Action::ShowIcon => Action::ShowIcon,
        Action::HideIcon => Action::HideIcon,
    }
}

fn is_best_effort(a: &Action<String, Vec<u8>>) -> (r: bool)
    ensures
        r == best_effort(act_view(*a)),
{
    match a {
        Action::Mark(_) => true,
        Action::Unmark => true,
        Action::RemoveFile { .. } => true,
        Action::RemoveDir { .. } => true,
        Action::HideHost => true,
        Action::LiftGuard => true,
        Action::GuardData => true,
        Action::RemoveStream { .. } => true,
        Action::DropStore(_) => true,
        Action::DropVault => true,
        Action::Report { .. } => true,
        Action::ShowIcon => true,
        Action::HideIcon => true,
        _ => false,
    }
}

fn is_counted(a: &Action<String, Vec<u8>>) -> (r: bool)
    ensures
        r == counts(act_view(*a)),
{
    match a {
        Action::SealFile { .. } => true,
        Action::Stash { .. } => true,
        Action::Fetch { .. } => true,
        Action::PutFile { .. } => true,
        Action::OpenFile { .. } => true,
        _ => false,
    }
}

fn nowhere_text(store: Store, rel: &str) -> (s: String)
    ensures
        s@ == nowhere(store, rel@),
{
    match store {
        Store::Streams => String::from_str("源文件与 ADS 均缺失，无法锁定: ").concat(rel),
        Store::Container => String::from_str("源文件与容器均缺失，无法锁定: ").concat(rel),
    }
}

fn loss_text(count: usize, lost: &Vec<String>) -> (s: String)
    ensures
        s@ == loss_message(count as nat, texts(lost@)),
{
    let mut list = String::new();
    let mut i: usize = 0;
    let ghost all = texts(lost@);
    assert(all.take(0) =~= Seq::empty());
    while i < lost.len()
        invariant
            i <= lost@.len(),
            all == texts(lost@),
            list@ == listing_text(all.take(i as int)),
        decreases lost.len() - i,
    {
        if i > 0 {
            list.append(", ");
        }
        list.append(lost[i].as_str());
        proof {
            assert(all.take(i + 1).drop_last() =~= all.take(i as int));
            assert(list@ =~= listing_text(all.take(i + 1)));
        }
        i = i + 1;
    }
    assert(all.take(i as int) =~= all);
    let mut s = String::from_str("已恢复 ");
    s.append(decimal_text(count).as_str());
    s.append(" 个文件，");
    s.append(decimal_text(lost.len()).as_str());
    s.append(" 个数据已丢失无法恢复: ");
    s.append(list.as_str());
    s
}

/// An operation on a folder.
pub struct Job {
    // The task to come next is the last one.
    todo: Vec<Task<String, Vec<u8>>>,
    count: usize,
    lost: Vec<String>,
    outcome: Option<Result<usize, String>>,
    key: Key,
}

/// The outcome of a job, as a number or a text.
pub open spec fn outcome_view(o: Option<Result<usize, String>>) -> Option<Result<nat, Seq<char>>> {
    match o {
        Some(Ok(n)) => Some(Ok(n as nat)),
        Some(Err(e)) => Some(Err(e@)),
        None => None,
    }
}

impl View for Job {
    type V = State;

    closed spec fn view(&self) -> State {
        State {
            todo: tasks_view(self.todo@).reverse(),
            count: self.count as nat,
            lost: texts(self.lost@),
            outcome: outcome_view(self.outcome),
        }
    }
}

impl Job {
    /// The first task asks for an action unless the job has ended, the files can
    /// be counted, and a job that has ended holds no key.
    pub closed spec fn wf(self) -> bool {
        &&& settled(self@) == self@
        &&& self.count + total_weight(self@.todo) <= usize::MAX
        &&& self@.outcome is Some ==> self.key@ == Seq::new(32, |i: int| 0u8)
    }

    /// The key that the job works with.
    pub closed spec fn key(self) -> Seq<u8> {
        self.key@
    }

    /// A job over the given tasks, with some files counted already.
    pub fn start(key: &Key, tasks: Vec<Task<String, Vec<u8>>>, count: usize) -> (job: Job)
        requires
            count + total_weight(tasks_view(tasks@)) <= usize::MAX,
        ensures
            job.wf(),
            job@ == initial(tasks_view(tasks@), count as nat),
            job@.outcome is None ==> job.key() == key@,
    {
        let ghost all = tasks_view(tasks@);
        let mut tasks = tasks;
        let mut job = Job {
            todo: Vec::new(),
            count,
            lost: Vec::new(),
            outcome: None,
            key: *key,
        };
        assert(all.skip(all.len() as int) =~= job@.todo);
        while tasks.len() > 0
            invariant
                tasks@.len() <= all.len(),
                tasks_view(tasks@) == all.take(tasks@.len() as int),
                job@.todo == all.skip(tasks@.len() as int),
                job.count == count,
                job.lost@ == Seq::<String>::empty(),
                job.outcome is None,
                job.key == *key,
            decreases tasks.len(),
        {
            let ghost n = tasks@.len() - 1;
            let ghost before = tasks@;
            let ghost built = job@.todo;
            let popped = tasks.pop();
            if let Some(t) = popped {
                proof {
                    assert(tasks_view(before)[n] == task_view(t));
                    assert(all[n] == task_view(t));
                }
                job.push(t);
                proof {
                    assert(tasks_view(tasks@) =~= all.take(n));
                    assert(job@.todo =~= all.skip(n));
                }
            }
        }
        proof {
            assert(all.skip(0) =~= all);
            assert(texts(job.lost@) =~= Seq::empty());
        }
        job.settle();
        job
    }

    fn push(&mut self, t: Task<String, Vec<u8>>)
        ensures
            final(self)@ == (State { todo: seq![task_view(t)] + old(self)@.todo, ..old(self)@ }),
            final(self).key == old(self).key,
            final(self).count == old(self).count,
            final(self).lost == old(self).lost,
            final(self).outcome == old(self).outcome,
    {
        let ghost before = self.todo@;
        self.todo.push(t);
        assert(tasks_view(self.todo@) =~= tasks_view(before).push(task_view(t)));
        assert(self@.todo =~= seq![task_view(t)] + old(self)@.todo);
    }

    fn finish(&mut self, outcome: Result<usize, String>)
        requires
            old(self).outcome is None,
        ensures
            final(self)@ == (State {
                todo: Seq::empty(),
                outcome: outcome_view(Some(outcome)),
                ..old(self)@
            }),
            final(self).key@ == Seq::new(32, |i: int| 0u8),
            final(self).count == old(self).count,
    {
        self.todo = Vec::new();
        self.outcome = Some(outcome);
        zero_key(&mut self.key);
        assert(self@.todo =~= Seq::empty());
    }

    fn settle(&mut self)
        requires
            old(self).count + total_weight(old(self)@.todo) <= usize::MAX,
            old(self)@.outcome is Some ==> {
                &&& old(self).key@ == Seq::new(32, |i: int| 0u8)
                &&& old(self)@.todo.len() == 0
            },
        ensures
            final(self).wf(),
            final(self)@ == settled(old(self)@),
            final(self)@.outcome is None ==> final(self).key == old(self).key,
    {
        if self.outcome.is_some() {
            return;
        }
        let ghost before = self@;
        match self.todo.pop() {
            None => {
                assert(before.todo.len() == 0);
                self.finish(Ok(self.count));
            },
            Some(t) => {
                proof {
                    assert(self@.todo =~= before.todo.drop_first());
                    assert(before.todo[0] == task_view(t));
                    lemma_weight_first(before.todo);
                }
                match t {
                    Task::Fail(m) => {
                        self.finish(Err(m));
                    },
                    Task::Settle(store) => {
                        if self.lost.len() > 0 {
                            let m = loss_text(self.count, &self.lost);
                            self.finish(Err(m));
                        } else {
                            self.push(Task::Do(Action::DropStore(store)));
                            proof {
                                lemma_weight_first(self@.todo);
                                assert(self@.todo.drop_first() =~= before.todo.drop_first());
                            }
                        }
                    },
                    other => {
                        self.push(other);
                        assert(self@.todo =~= before.todo);
                    },
                }
            },
        }
    }

    /// The action that is due, or `None` once the job has ended.
    pub fn action(&self) -> (a: Option<Action<String, Vec<u8>>>)
        requires
            self.wf(),
        ensures
            a is None <==> self@.outcome is Some,
            a matches Some(act) ==> self@.todo.len() > 0 && act_view(act) == action_of(
                self@.todo[0],
            ),
    {
        if self.outcome.is_some() {
            return None;
        }
        let n: usize = self.todo.len();
        assert(self@.todo.len() > 0);
        assert(self@.todo[0] == task_view(self.todo@[n - 1]));
        let a = match &self.todo[n - 1] {
            Task::Do(a) => copy_action(a),
            Task::Lock { rel, .. } => Action::Probe(Place::File { rel: rel.clone() }),
            Task::CheckStored { store, name, .. } => Action::Probe(
                Place::Stored { store: *store, name: name.clone() },
            ),
            Task::Unlock { store, name, .. } => Action::Probe(
                Place::Stored { store: *store, name: name.clone() },
            ),
            Task::CheckRestored { rel } => Action::Probe(Place::File { rel: rel.clone() }),
            Task::PrepareHost => Action::Probe(Place::Host),
            Task::Clear => Action::ListTree,
            Task::Settle(store) => Action::DropStore(*store),
            Task::Fail(_) => Action::Unmark,
        };
        Some(a)
    }

    fn push_removal(&mut self, l: Listing)
        requires
            old(self).count + total_weight(old(self)@.todo) <= usize::MAX,
        ensures
            final(self)@ == (State { todo: removal(l@) + old(self)@.todo, ..old(self)@ }),
            final(self).key == old(self).key,
            final(self).outcome == old(self).outcome,
            final(self).count + total_weight(final(self)@.todo) <= usize::MAX,
    {
        let ghost start = self@;
        let dirs = sort_paths(&l.dirs);
        let ghost sorted = texts(dirs@);
        let ghost dir_steps = sorted.reverse().map_values(|rel: Seq<char>| remove_dir(rel));
        let ghost file_steps = texts(l.files@).map_values(|rel: Seq<char>| remove_file(rel));
        let mut i: usize = 0;
        assert(dir_steps.skip(sorted.len() as int) + start.todo =~= start.todo);
        while i < dirs.len()
            invariant
                i <= dirs@.len(),
                sorted == texts(dirs@),
                dir_steps == sorted.reverse().map_values(|rel: Seq<char>| remove_dir(rel)),
                self@ == (State { todo: dir_steps.skip(sorted.len() - i) + start.todo, ..start }),
                self.key == old(self).key,
                self.outcome == old(self).outcome,
                self.count == old(self).count,
            decreases dirs.len() - i,
        {
            self.push(Task::Do(Action::RemoveDir { rel: dirs[i].clone() }));
            proof {
                let n = sorted.len() - i - 1;
                assert(dir_steps[n] == remove_dir(sorted[i as int]));
                assert(self@.todo =~= dir_steps.skip(n) + start.todo);
            }
            i = i + 1;
        }
        assert(dir_steps.skip(0) =~= dir_steps);
        let mut j: usize = l.files.len();
        assert(file_steps.skip(j as int) + (dir_steps + start.todo) =~= dir_steps + start.todo);
        while j > 0
            invariant
                j <= l.files@.len(),
                file_steps == texts(l.files@).map_values(|rel: Seq<char>| remove_file(rel)),
                self@ == (State {
                    todo: file_steps.skip(j as int) + (dir_steps + start.todo),
                    ..start
                }),
                self.key == old(self).key,
                self.outcome == old(self).outcome,
                self.count == old(self).count,
            decreases j,
        {
            j = j - 1;
            self.push(Task::Do(Action::RemoveFile { rel: l.files[j].clone() }));
            proof {
                assert(file_steps[j as int] == remove_file(l.files@[j as int]@));
                assert(self@.todo =~= file_steps.skip(j as int) + (dir_steps + start.todo));
            }
        }
        proof {
            assert(file_steps.skip(0) =~= file_steps);
            assert(self@.todo =~= removal(l@) + start.todo);
            weightless_tasks(removal(l@));
            lemma_weight_append(removal(l@), start.todo);
        }
    }

    fn push_lock(&mut self, store: Store, rel: String, name: String)
        requires
            old(self).count + total_weight(old(self)@.todo) + 1 <= usize::MAX,
        ensures
            final(self)@ == (State {
                todo: lock_steps(store, rel@, name@) + old(self)@.todo,
                ..old(self)@
            }),
            final(self).key == old(self).key,
            final(self).outcome == old(self).outcome,
            final(self).count + total_weight(final(self)@.todo) <= usize::MAX,
    {
        let ghost rest = self@.todo;
        let ghost r = rel@;
        let ghost n = name@;
        match store {
            Store::Streams => {
                self.push(Task::Do(Action::RemoveFile { rel: rel.clone() }));
            },
            Store::Container => {},
        }
        self.push(Task::Do(Action::Stash { store, rel, name }));
        proof {
            assert(self@.todo =~= lock_steps(store, r, n) + rest);
            lemma_steps_weigh_one(store, r, n);
            lemma_weight_append(lock_steps(store, r, n), rest);
        }
    }

    fn push_unlock(&mut self, store: Store, rel: String, name: String)
        requires
            old(self).count + total_weight(old(self)@.todo) + 1 <= usize::MAX,
        ensures
            final(self)@ == (State {
                todo: unlock_steps(store, rel@, name@) + old(self)@.todo,
                ..old(self)@
            }),
            final(self).key == old(self).key,
            final(self).outcome == old(self).outcome,
            final(self).count + total_weight(final(self)@.todo) <= usize::MAX,
    {
        let ghost rest = self@.todo;
        let ghost r = rel@;
        let ghost n = name@;
        match store {
            Store::Streams => {
                self.push(Task::Do(Action::RemoveStream { name: name.clone() }));
            },
            Store::Container => {},
        }
        let above = rel.clone();
        self.push(Task::Do(Action::Fetch { store, rel, name }));
        self.push(Task::Do(Action::MakeParents { rel: above }));
        proof {
            assert(self@.todo =~= unlock_steps(store, r, n) + rest);
            lemma_steps_weigh_one(store, r, n);
            lemma_weight_append(unlock_steps(store, r, n), rest);
        }
    }

    fn push_one(&mut self, t: Task<String, Vec<u8>>)
        requires
            old(self).count + total_weight(old(self)@.todo) + weight(task_view(t)) <= usize::MAX,
        ensures
            final(self)@ == (State { todo: seq![task_view(t)] + old(self)@.todo, ..old(self)@ }),
            final(self).key == old(self).key,
            final(self).outcome == old(self).outcome,
            final(self).count + total_weight(final(self)@.todo) <= usize::MAX,
    {
        let ghost rest = self@.todo;
        self.push(t);
        proof {
            lemma_weight_one(task_view(t));
            lemma_weight_append(seq![task_view(t)], rest);
        }
    }

    fn tally(&mut self)
        requires
            old(self).count + total_weight(old(self)@.todo) + 1 <= usize::MAX,
        ensures
            final(self)@ == (State { count: old(self)@.count + 1, ..old(self)@ }),
            final(self).key == old(self).key,
            final(self).outcome == old(self).outcome,
            final(self).count + total_weight(final(self)@.todo) <= usize::MAX,
    {
        self.count = self.count + 1;
    }

    fn fail(&mut self, m: String)
        requires
            old(self).outcome is None,
            old(self).count + total_weight(old(self)@.todo) <= usize::MAX,
        ensures
            final(self)@ == ended(old(self)@, Err(m@)),
            final(self).key@ == Seq::new(32, |i: int| 0u8),
            final(self).count + total_weight(final(self)@.todo) <= usize::MAX,
    {
        self.finish(Err(m));
    }

    /// Say what came of the action that was due.
    #[verifier::rlimit(30)]
    pub fn reply(&mut self, reply: Reply)
        requires
            old(self).wf(),
        ensures
            final(self).wf(),
            final(self)@ == after(old(self)@, reply@),
            final(self)@.outcome is None ==> final(self).key() == old(self).key(),
    {
        if self.outcome.is_some() {
            return;
        }
        let ghost before = self@;
        let ghost answer = reply@;
        let there = match &reply {
            Reply::Found(b) => *b,
            _ => false,
        };
        assert(there == (answer == Answer::Found(true)));
        let task = match self.todo.pop() {
            Some(t) => t,
            None => {
                return;
            },
        };
        proof {
            assert(self@.todo =~= before.todo.drop_first());
            assert(before.todo[0] == task_view(task));
            assert(Seq::<Step>::empty() + self@.todo =~= self@.todo);
            lemma_weight_first(before.todo);
        }
        match task {
            Task::Do(a) => {
                match reply {
                    Reply::Failed(m) => {
                        if !is_best_effort(&a) {
                            self.fail(m);
                        }
                    },
                    _ => {
                        if is_counted(&a) {
                            self.tally();
                        }
                    },
                }
            },
            Task::Lock { store, rel, name } => {
                if there {
                    self.push_lock(store, rel, name);
                } else {
                    self.push_one(Task::CheckStored { store, rel, name });
                }
            },
            Task::CheckStored { store, rel, name } => {
                if there {
                    self.tally();
                } else {
                    self.fail(nowhere_text(store, rel.as_str()));
                }
            },
            Task::Unlock { store, rel, name } => {
                if there {
                    self.push_unlock(store, rel, name);
                } else {
                    self.push_one(Task::CheckRestored { rel });
                }
            },
            Task::CheckRestored { rel } => {
                if there {
                    self.tally();
                } else {
                    let ghost lost = self.lost@;
                    self.lost.push(rel);
                    assert(texts(self.lost@) =~= texts(lost).push(rel@));
                }
            },
            Task::PrepareHost => {
                if !there {
                    self.push_one(Task::Do(Action::CreateHost));
                }
            },
            Task::Clear => {
                match reply {
                    Reply::Listed(l) => {
                        self.push_removal(l);
                    },
                    Reply::Failed(m) => {
                        self.fail(m);
                    },
                    _ => {},
                }
            },
            Task::Settle(_) => {},
            Task::Fail(_) => {},
        }
        assert(self@ == answered(before, answer));
        self.settle();
    }

    /// The outcome: the number of files processed, or the message of the failure.
    pub fn outcome(&self) -> (o: Option<Result<usize, String>>)
        ensures
            outcome_view(o) == self@.outcome,
    {
        match &self.outcome {
            None => None,
            Some(Ok(n)) => Some(Ok(*n)),
            Some(Err(e)) => Some(Err(e.clone())),
        }
    }

    /// The key that the job works with.
    pub fn key_ref(&self) -> (k: &Key)
        ensures
            k@ == self.key(),
    {
        &self.key
    }
}

/// A job that has ended holds no key.
pub proof fn ended_job_holds_no_key(job: Job)
    requires
        job.wf(),
        job@.outcome is Some,
    ensures
        job.key() == Seq::new(32, |i: int| 0u8),
{
}

} // verus!
