//! What a lock does, action by action: which mode it writes, and whether it encrypts
//! the files into the vault or brings them into a store.

use vstd::prelude::*;
use vstd::utf8::encode_utf8;

use crate::clearing::sorting_keeps_listing;
use crate::cli::{
    cmd_decrypt, cmd_encrypt, cmd_encrypt_simple, cmd_lock_starts, lock_gives, pw_bytes,
};
use crate::crypto::{password_key, Salt};
use crate::dialog::{encrypt_mode_dialog, EncryptMode};
use crate::job::{
    after, answered, initial, removal, remove_dir, remove_file, Action, Answer, Job, Part, State,
    Step, Store, Task,
};
use crate::logic::{decrypt, encrypt, encrypt_with_salt, job_over, resume, shows_progress};
use crate::manifest::{announced, manifest_says, packed_says, Entry, Magic, Packed, Reading};
use crate::order::{due, state_after};
use crate::session::{lock, lock_started, lock_with_salt, unlock, Started};
use crate::sort::path_sort;
use crate::text::from_le56;
use crate::vault::{
    fail_if, is_lock_plan, lock_files, lock_manifest, lock_plan, named_pairs, number_due, numbering,
    numbers_from, open_entries, open_entry, open_manifest, put_entries, put_entry, report, restore,
    restore_from_store, resume_plan, seal_files, seals, sorted_listing, store_files, stored_pairs,
    stream_number, unlock_entries, unlock_entry, unlock_plan, LockMode, Pair, PendingOp,
};
use crate::walk::{Listed, Listing};
use crate::window::{kept_mode_is_that_of_the_vault, mode_to_keep};

verus! {

// ── what the tasks of a job do ──

/// Is it the task that writes a mode byte into the vault?
pub open spec fn is_mode_write(t: Step, b: u8) -> bool {
    t == Task::<Seq<char>, Seq<u8>>::Do(
        Action::WriteVault { part: Part::Mode, bytes: seq![b] },
    )
}

/// Does a task write into the mode field of the vault?
pub open spec fn writes_some_mode(t: Step) -> bool {
    t matches Task::Do(Action::WriteVault { part, .. }) && part == Part::Mode
}

/// Is this mode byte written into the vault, and no other?
pub open spec fn writes_mode(todo: Seq<Step>, b: u8) -> bool {
    &&& exists|i: int| 0 <= i < todo.len() && is_mode_write(#[trigger] todo[i], b)
    &&& forall|i: int|
        0 <= i < todo.len() && writes_some_mode(#[trigger] todo[i]) ==> is_mode_write(todo[i], b)
}

/// Is it the task that encrypts a file into the vault?
pub open spec fn is_seal_of(t: Step, rel: Seq<char>) -> bool {
    t matches Task::Do(Action::SealFile { rel: r, .. }) && r == rel
}

/// Is it the task that brings a file into a store?
pub open spec fn is_store_of(t: Step, store: Store, rel: Seq<char>) -> bool {
    t matches Task::Lock { store: s, rel: r, .. } && s == store && r == rel
}

/// Does a task encrypt a file into the vault?
pub open spec fn seals_some(t: Step) -> bool {
    t matches Task::Do(Action::SealFile { .. })
}

/// Does a task bring a file into a store?
pub open spec fn stores_some(t: Step) -> bool {
    t is Lock || (t matches Task::Do(Action::Stash { .. }))
}

/// The tasks of a full lock: the mode byte 3 is written, every file is encrypted into
/// the vault, and none is brought into a store.
pub open spec fn fully(todo: Seq<Step>, files: Seq<Seq<char>>) -> bool {
    &&& writes_mode(todo, 3)
    &&& forall|rel: Seq<char>| #[trigger]
        files.contains(rel) ==> exists|i: int|
            0 <= i < todo.len() && is_seal_of(#[trigger] todo[i], rel)
    &&& forall|i: int| 0 <= i < todo.len() ==> !stores_some(#[trigger] todo[i])
}

/// The tasks of a lock that leaves the contents as they are: a mode byte is written,
/// every file is brought into a store, and none is encrypted into the vault.
pub open spec fn plainly(todo: Seq<Step>, b: u8, store: Store, files: Seq<Seq<char>>) -> bool {
    &&& writes_mode(todo, b)
    &&& forall|rel: Seq<char>| #[trigger]
        files.contains(rel) ==> exists|i: int|
            0 <= i < todo.len() && is_store_of(#[trigger] todo[i], store, rel)
    &&& forall|i: int|
        0 <= i < todo.len() && stores_some(#[trigger] todo[i]) ==> todo[i] is Lock
            && todo[i]->Lock_store == store
    &&& forall|i: int| 0 <= i < todo.len() ==> !seals_some(#[trigger] todo[i])
}

// ── plans ──

spec fn aside(t: Step) -> bool {
    !writes_some_mode(t) && !seals_some(t) && !stores_some(t)
}

proof fn lemma_seal_files(from: u64, at: nat, files: Seq<Seq<char>>, progress: bool, k: nat)
    requires
        k <= files.len(),
    ensures
        ({
            let todo = seal_files(from, at, files, progress, k);
            &&& forall|j: int|
                0 <= j < k ==> exists|i: int|
                    0 <= i < todo.len() && is_seal_of(#[trigger] todo[i], #[trigger] files[j])
            &&& forall|i: int|
                0 <= i < todo.len() ==> !writes_some_mode(#[trigger] todo[i]) && !stores_some(
                    todo[i],
                )
        }),
    decreases k,
{
    if k > 0 {
        let m = (k - 1) as nat;
        lemma_seal_files(from, at, files, progress, m);
        let before = seal_files(from, at, files, progress, m);
        let todo = seal_files(from, at, files, progress, k);
        assert forall|j: int| 0 <= j < k implies exists|i: int|
            0 <= i < todo.len() && is_seal_of(#[trigger] todo[i], #[trigger] files[j]) by {
            if j < m {
                let i = choose|i: int|
                    0 <= i < before.len() && is_seal_of(#[trigger] before[i], files[j]);
                assert(todo[i] == before[i]);
            } else {
                assert(is_seal_of(todo[before.len() as int], files[j]));
            }
        }
        assert forall|i: int| 0 <= i < todo.len() implies !writes_some_mode(#[trigger] todo[i])
            && !stores_some(todo[i]) by {
            if i < before.len() {
                assert(todo[i] == before[i]);
            }
        }
    }
}

proof fn lemma_lock_files(store: Store, pairs: Seq<Pair>, progress: bool, k: nat)
    requires
        k <= pairs.len(),
    ensures
        ({
            let todo = lock_files(store, pairs, progress, k);
            &&& forall|j: int|
                0 <= j < k ==> exists|i: int|
                    0 <= i < todo.len() && is_store_of(
                        #[trigger] todo[i],
                        store,
                        (#[trigger] pairs[j]).0,
                    )
            &&& forall|i: int|
                0 <= i < todo.len() ==> !writes_some_mode(#[trigger] todo[i]) && !seals_some(
                    todo[i],
                ) && (stores_some(todo[i]) ==> todo[i] is Lock && todo[i]->Lock_store == store)
        }),
    decreases k,
{
    if k > 0 {
        let m = (k - 1) as nat;
        lemma_lock_files(store, pairs, progress, m);
        let before = lock_files(store, pairs, progress, m);
        let todo = lock_files(store, pairs, progress, k);
        assert forall|j: int| 0 <= j < k implies exists|i: int|
            0 <= i < todo.len() && is_store_of(
                #[trigger] todo[i],
                store,
                (#[trigger] pairs[j]).0,
            ) by {
            if j < m {
                let i = choose|i: int|
                    0 <= i < before.len() && is_store_of(#[trigger] before[i], store, pairs[j].0);
                assert(todo[i] == before[i]);
            } else {
                assert(is_store_of(todo[before.len() as int], store, pairs[j].0));
            }
        }
        assert forall|i: int| 0 <= i < todo.len() implies !writes_some_mode(#[trigger] todo[i])
            && !seals_some(todo[i]) && (stores_some(todo[i]) ==> todo[i] is Lock
            && todo[i]->Lock_store == store) by {
            if i < before.len() {
                assert(todo[i] == before[i]);
            }
        }
    }
}

#[verifier::rlimit(30)]
proof fn lemma_full_plan(
    salt: Seq<u8>,
    ct: Seq<u8>,
    l: Listed,
    progress: bool,
    files: Seq<Seq<char>>,
    more: Seq<Step>,
)
    requires
        forall|rel: Seq<char>| #[trigger] files.contains(rel) ==> l.files.contains(rel),
        forall|i: int| 0 <= i < more.len() ==> aside(#[trigger] more[i]),
    ensures
        fully(lock_plan(LockMode::Full, salt, ct, l, progress) + more, files),
{
    let n = l.files.len();
    let mid = seal_files(numbers_from(ct), l.dirs.len(), l.files, progress, n);
    let todo = lock_plan(LockMode::Full, salt, ct, l, progress) + more;
    lemma_seal_files(numbers_from(ct), l.dirs.len(), l.files, progress, n);
    assert(is_mode_write(todo[2], 3));
    assert forall|i: int| 0 <= i < todo.len() implies !stores_some(#[trigger] todo[i]) && (
    writes_some_mode(todo[i]) ==> is_mode_write(todo[i], 3)) by {
        if 5 <= i < 5 + mid.len() {
            assert(todo[i] == mid[i - 5]);
        } else if i >= 10 + mid.len() {
            assert(todo[i] == more[i - 10 - mid.len()]);
        }
    }
    assert forall|rel: Seq<char>| #[trigger] files.contains(rel) implies exists|i: int|
        0 <= i < todo.len() && is_seal_of(#[trigger] todo[i], rel) by {
        let j = l.files.index_of(rel);
        assert(l.files[j] == rel);
        let i = choose|i: int| 0 <= i < mid.len() && is_seal_of(#[trigger] mid[i], l.files[j]);
        assert(todo[i + 5] == mid[i]);
    }
}

#[verifier::rlimit(30)]
proof fn lemma_plain_plan(
    mode: LockMode,
    salt: Seq<u8>,
    ct: Seq<u8>,
    l: Listed,
    progress: bool,
    files: Seq<Seq<char>>,
    more: Seq<Step>,
)
    requires
        mode != LockMode::Full,
        forall|rel: Seq<char>| #[trigger] files.contains(rel) ==> l.files.contains(rel),
        forall|i: int| 0 <= i < more.len() ==> aside(#[trigger] more[i]),
    ensures
        mode == LockMode::Simple ==> plainly(
            lock_plan(mode, salt, ct, l, progress) + more,
            1,
            Store::Streams,
            files,
        ),
        mode == LockMode::Move ==> plainly(
            lock_plan(mode, salt, ct, l, progress) + more,
            2,
            Store::Container,
            files,
        ),
{
    let b: u8 = if mode == LockMode::Simple {
        1
    } else {
        2
    };
    let store = if mode == LockMode::Simple {
        Store::Streams
    } else {
        Store::Container
    };
    let pairs = stored_pairs(l.files);
    let mid = lock_files(store, pairs, progress, pairs.len());
    let plan = lock_plan(mode, salt, ct, l, progress);
    let todo = plan + more;
    lemma_lock_files(store, pairs, progress, pairs.len());
    assert(is_mode_write(todo[2], b));
    assert forall|i: int| 0 <= i < todo.len() implies !seals_some(#[trigger] todo[i]) && (
    writes_some_mode(todo[i]) ==> is_mode_write(todo[i], b)) && (stores_some(todo[i])
        ==> todo[i] is Lock && todo[i]->Lock_store == store) by {
        if 8 <= i < 8 + mid.len() {
            assert(todo[i] == mid[i - 8]);
        } else if i >= plan.len() {
            assert(todo[i] == more[i - plan.len()]);
        }
    }
    assert forall|rel: Seq<char>| #[trigger] files.contains(rel) implies exists|i: int|
        0 <= i < todo.len() && is_store_of(#[trigger] todo[i], store, rel) by {
        let j = l.files.index_of(rel);
        assert(pairs[j].0 == rel);
        let i = choose|i: int| 0 <= i < mid.len() && is_store_of(#[trigger] mid[i], store, pairs[j].0);
        assert(todo[i + 8] == mid[i]);
    }
}

/// The tasks of a lock in a mode, over the files of its listing.
pub open spec fn does_as(mode: LockMode, todo: Seq<Step>, files: Seq<Seq<char>>) -> bool {
    match mode {
        LockMode::Full => fully(todo, files),
        LockMode::Simple => plainly(todo, 1, Store::Streams, files),
        LockMode::Move => plainly(todo, 2, Store::Container, files),
    }
}

proof fn lemma_lock_plan(
    mode: LockMode,
    key: Seq<u8>,
    salt: Seq<u8>,
    l: Listed,
    progress: bool,
    plan: Seq<Step>,
)
    requires
        l.dirs.len() + l.files.len() > 0,
        is_lock_plan(mode, key, salt, l, progress, plan),
    ensures
        does_as(mode, initial(plan, 0).todo, l.files),
        does_as(mode, initial(plan.push(Task::Do(Action::ShowIcon)), 0).todo, l.files),
{
    let s = sorted_listing(l);
    let ct = choose|ct: Seq<u8>|
        #![trigger seals(key, lock_manifest(mode, s), ct)]
        seals(key, lock_manifest(mode, s), ct) && plan == lock_plan(mode, salt, ct, s, progress);
    sorting_keeps_listing(l.files);
    let icon = seq![Task::<Seq<char>, Seq<u8>>::Do(Action::ShowIcon)];
    assert(plan + Seq::<Step>::empty() =~= plan);
    assert(plan + icon =~= plan.push(Task::Do(Action::ShowIcon)));
    assert(plan[0] == Task::<Seq<char>, Seq<u8>>::Do(Action::CreateVault));
    assert(aside(icon[0]));
    if mode == LockMode::Full {
        lemma_full_plan(salt, ct, s, progress, l.files, Seq::empty());
        lemma_full_plan(salt, ct, s, progress, l.files, icon);
    } else {
        lemma_plain_plan(mode, salt, ct, s, progress, l.files, Seq::empty());
        lemma_plain_plan(mode, salt, ct, s, progress, l.files, icon);
    }
}

// ── whatever comes of the actions ──

spec fn stores_none(s: State) -> bool {
    &&& s.outcome is None ==> s.todo.len() > 0
    &&& forall|i: int| 0 <= i < s.todo.len() ==> !stores_some(#[trigger] s.todo[i])
}

proof fn lemma_stores_none(s: State, answers: Seq<Answer>)
    requires
        stores_none(s),
    ensures
        stores_none(state_after(s, answers)),
    decreases answers.len(),
{
    if answers.len() > 0 {
        lemma_stores_none(s, answers.drop_last());
        lemma_stores_none_after(state_after(s, answers.drop_last()), answers.last());
    }
}

#[verifier::rlimit(30)]
proof fn lemma_stores_none_after(s: State, answer: Answer)
    requires
        stores_none(s),
    ensures
        stores_none(after(s, answer)),
{
    if s.outcome is None {
        let t = answered(s, answer);
        if let Task::Clear = s.todo[0] {
            if let Answer::Listed(l) = answer {
                let r = removal(l);
                assert forall|i: int| 0 <= i < r.len() implies !stores_some(#[trigger] r[i]) by {
                    if i >= l.files.len() {
                        let dirs = path_sort(l.dirs).reverse();
                        assert(r[i] == remove_dir(dirs[i - l.files.len()]));
                    } else {
                        assert(r[i] == remove_file(l.files[i]));
                    }
                }
            }
        }
        assert forall|i: int| 0 <= i < t.todo.len() implies !stores_some(#[trigger] t.todo[i]) by {}
    }
}

/// Whatever comes of its actions, a job over the tasks of a full lock never brings a
/// file into a store.
pub proof fn full_lock_never_stashes(s: State, files: Seq<Seq<char>>, answers: Seq<Answer>, i: int)
    requires
        fully(s.todo, files),
        s.todo.len() > 0,
    ensures
        due(s, answers, i) matches Some(a) ==> a !is Stash,
{
    lemma_stores_none(s, answers.take(i));
}

// ── the dialogue and the command line ──

proof fn lemma_started(
    mode: EncryptMode,
    listing: Listing,
    password: Seq<u8>,
    salt: Seq<u8>,
    job: Job,
)
    requires
        listing@.dirs.len() + listing@.files.len() > 0,
        lock_started(mode, Ok::<Listing, String>(listing), password, salt, Started::Going(job)),
    ensures
        mode == EncryptMode::Full ==> fully(job@.todo, listing@.files),
        mode == EncryptMode::Simple ==> plainly(job@.todo, 1, Store::Streams, listing@.files),
{
    let lm = if mode == EncryptMode::Full {
        LockMode::Full
    } else {
        LockMode::Simple
    };
    let key = password_key(password, salt);
    let plan = choose|plan: Seq<Step>| #[trigger]
        is_lock_plan(lm, key, salt, listing@, false, plan) && job@ == initial(plan, 0);
    lemma_lock_plan(lm, key, salt, listing@, false, plan);
}

/// For every listing, password and salt, the job that the dialogue starts for the
/// full mode writes the mode byte 3, encrypts every listed file into the vault and
/// stores none; the one for the simple mode writes the mode byte 1 and brings every
/// listed file into the streams of the host file.
pub proof fn dialogue_does_what_was_chosen(
    mode: EncryptMode,
    listing: Listing,
    password: &[u8],
    salt: &Salt,
    s: Started,
)
    requires
        listing@.dirs.len() + listing@.files.len() > 0,
        call_ensures(lock_with_salt, (mode, Ok::<Listing, String>(listing), password, salt), s)
            || call_ensures(lock, (mode, Ok::<Listing, String>(listing), password), s),
    ensures
        s matches Started::Going(job) ==> match mode {
            EncryptMode::Full => fully(job@.todo, listing@.files),
            EncryptMode::Simple => plainly(job@.todo, 1, Store::Streams, listing@.files),
        },
{
    let from = Ok::<Listing, String>(listing);
    if let Started::Going(job) = s {
        if lock_started(mode, from, password@, salt@, s) {
            lemma_started(mode, listing, password@, salt@, job);
        } else {
            let other = choose|salt: Seq<u8>|
                salt.len() == 16 && #[trigger] lock_started(mode, from, password@, salt, s);
            lemma_started(mode, listing, password@, other, job);
        }
    }
}

/// For every listing and password, the job of the command `encrypt` writes the mode
/// byte 3, encrypts every listed file into the vault and stores none.
pub proof fn command_encrypt_does_it_fully(
    pw: Option<&str>,
    listing: Listing,
    r: Result<Job, String>,
)
    requires
        listing@.dirs.len() + listing@.files.len() > 0,
        call_ensures(cmd_encrypt, (pw, Ok::<Listing, String>(listing)), r),
    ensures
        r matches Ok(job) ==> pw is Some && fully(job@.todo, listing@.files),
{
    lemma_command(EncryptMode::Full, pw, listing, r);
}

/// For every listing and password, the job of the command `encrypt-simple` writes the
/// mode byte 1 and brings every listed file into the streams of the host file.
pub proof fn command_encrypt_simple_does_it_plainly(
    pw: Option<&str>,
    listing: Listing,
    r: Result<Job, String>,
)
    requires
        listing@.dirs.len() + listing@.files.len() > 0,
        call_ensures(cmd_encrypt_simple, (pw, Ok::<Listing, String>(listing)), r),
    ensures
        r matches Ok(job) ==> pw is Some && plainly(job@.todo, 1, Store::Streams, listing@.files),
{
    lemma_command(EncryptMode::Simple, pw, listing, r);
}

proof fn lemma_command(
    mode: EncryptMode,
    pw: Option<&str>,
    listing: Listing,
    r: Result<Job, String>,
)
    requires
        listing@.dirs.len() + listing@.files.len() > 0,
        cmd_lock_starts(mode, pw_bytes(pw), Ok::<Listing, String>(listing), r),
    ensures
        r matches Ok(job) ==> pw is Some && match mode {
            EncryptMode::Full => fully(job@.todo, listing@.files),
            EncryptMode::Simple => plainly(job@.todo, 1, Store::Streams, listing@.files),
        },
{
    let from = Ok::<Listing, String>(listing);
    if let Ok(job) = r {
        let p = pw_bytes(pw)->Some_0;
        let salt = choose|salt: Seq<u8>|
            salt.len() == 16 && #[trigger] lock_gives(mode, from, p, salt, r);
        lemma_started(mode, listing, p, salt, job);
    }
}

// ── the window ──

/// For every listing, password and salt, the job that the window starts writes the
/// mode byte 3 under the index 0 and encrypts every listed file into the vault, writes
/// 1 under the index 1 and brings every listed file into the streams of the host file,
/// and writes 2 under any other index and moves every listed file into the container.
pub proof fn window_does_what_was_chosen(
    names: &Vec<String>,
    listing: Listing,
    index: i32,
    password: &[u8],
    salt: &Salt,
    r: Result<Job, String>,
)
    requires
        listing@.dirs.len() + listing@.files.len() > 0,
        call_ensures(
            encrypt_with_salt,
            (names, Ok::<Listing, String>(listing), index, password, salt),
            r,
        ) || call_ensures(encrypt, (names, Ok::<Listing, String>(listing), index, password), r),
    ensures
        r matches Ok(job) ==> {
            let todo = job@.todo;
            &&& index == 0 ==> fully(todo, listing@.files)
            &&& index == 1 ==> plainly(todo, 1, Store::Streams, listing@.files)
            &&& index != 0 && index != 1 ==> plainly(todo, 2, Store::Container, listing@.files)
        },
{
    if let Ok(job) = r {
        let lm = if index == 0 {
            LockMode::Full
        } else if index == 1 {
            LockMode::Simple
        } else {
            LockMode::Move
        };
        let (key, other, plan) = choose|key: Seq<u8>, other: Seq<u8>, plan: Seq<Step>| #[trigger]
            is_lock_plan(lm, key, other, listing@, shows_progress(lm), plan) && job_over(
                job,
                plan,
                Action::ShowIcon,
                0,
                key,
            );
        lemma_lock_plan(lm, key, other, listing@, shows_progress(lm), plan);
    }
}

// ── the key, the salt and the journal ──

/// Does a job work with the key of a password and of a salt that it writes into the
/// vault, and record in the journal that the folder is being locked, and nothing else?
pub open spec fn locks_with(job: Job, password: Seq<u8>, salt: Seq<u8>) -> bool {
    &&& job.key() == password_key(password, salt)
    &&& writes_salt(job@.todo, salt)
    &&& records_only(job@.todo, PendingOp::Encrypt)
}

/// Does a job work with the key of a password and a salt, and record in the journal that
/// the folder is being unlocked, and nothing else?
pub open spec fn unlocks_with(job: Job, password: Seq<u8>, salt: Seq<u8>) -> bool {
    &&& job.key() == password_key(password, salt)
    &&& records_only(job@.todo, PendingOp::Decrypt)
}

/// Is this salt written into the vault, and no other?
pub open spec fn writes_salt(todo: Seq<Step>, salt: Seq<u8>) -> bool {
    &&& exists|i: int|
        0 <= i < todo.len() && #[trigger] todo[i] == Task::<Seq<char>, Seq<u8>>::Do(
            Action::WriteVault { part: Part::Salt, bytes: salt },
        )
    &&& forall|i: int|
        0 <= i < todo.len() && (#[trigger] todo[i] matches Task::Do(Action::WriteVault { part, .. })
            && part == Part::Salt) ==> todo[i] == Task::<Seq<char>, Seq<u8>>::Do(
            Action::WriteVault { part: Part::Salt, bytes: salt },
        )
}

/// Is this direction recorded in the journal, no other, and is the journal removed at the
/// end?
pub open spec fn records_only(todo: Seq<Step>, op: PendingOp) -> bool {
    &&& exists|i: int|
        0 <= i < todo.len() && #[trigger] todo[i] == Task::<Seq<char>, Seq<u8>>::Do(
            Action::Mark(op),
        )
    &&& forall|i: int|
        0 <= i < todo.len() && (#[trigger] todo[i] matches Task::Do(Action::Mark(_))) ==> todo[i]
            == Task::<Seq<char>, Seq<u8>>::Do(Action::Mark(op))
    &&& exists|i: int|
        0 <= i < todo.len() && #[trigger] todo[i] == Task::<Seq<char>, Seq<u8>>::Do(
            Action::Unmark,
        ) && forall|j: int| i < j < todo.len() ==> is_icon_task(#[trigger] todo[j])
}

/// Is it the task that gives the folder a look?
pub open spec fn is_icon_task(t: Step) -> bool {
    t == Task::<Seq<char>, Seq<u8>>::Do(Action::ShowIcon) || t == Task::<Seq<char>, Seq<u8>>::Do(
        Action::HideIcon,
    )
}

spec fn plain(t: Step) -> bool {
    &&& !(t matches Task::Do(Action::Mark(_)))
    &&& !(t matches Task::Do(Action::WriteVault { .. }))
}

spec fn all_plain(todo: Seq<Step>) -> bool {
    forall|i: int| 0 <= i < todo.len() ==> plain(#[trigger] todo[i])
}

proof fn lemma_plain_add(a: Seq<Step>, b: Seq<Step>)
    requires
        all_plain(a),
        all_plain(b),
    ensures
        all_plain(a + b),
{
    assert forall|i: int| 0 <= i < (a + b).len() implies plain(#[trigger] (a + b)[i]) by {
        if i < a.len() {
            assert((a + b)[i] == a[i]);
        } else {
            assert((a + b)[i] == b[i - a.len()]);
        }
    }
}

proof fn lemma_seal_files_plain(from: u64, at: nat, files: Seq<Seq<char>>, progress: bool, k: nat)
    ensures
        all_plain(seal_files(from, at, files, progress, k)),
    decreases k,
{
    if k > 0 {
        let j = (k - 1) as nat;
        lemma_seal_files_plain(from, at, files, progress, j);
        let seal = seq![
            Task::<Seq<char>, Seq<u8>>::Do(
                Action::SealFile { rel: files[k - 1], number: stream_number(from, at + j) },
            ),
        ];
        lemma_plain_add(seal_files(from, at, files, progress, j), seal);
        lemma_plain_add(
            seal_files(from, at, files, progress, j) + seal,
            report(progress, k, files.len()),
        );
    }
}

proof fn lemma_lock_files_plain(store: Store, pairs: Seq<Pair>, progress: bool, k: nat)
    ensures
        all_plain(lock_files(store, pairs, progress, k)),
    decreases k,
{
    if k > 0 {
        let j = (k - 1) as nat;
        lemma_lock_files_plain(store, pairs, progress, j);
        let (rel, name) = pairs[k - 1];
        let one = seq![Task::<Seq<char>, Seq<u8>>::Lock { store, rel, name }];
        lemma_plain_add(lock_files(store, pairs, progress, j), one);
        lemma_plain_add(
            lock_files(store, pairs, progress, j) + one,
            report(progress, k, pairs.len()),
        );
    }
}

#[verifier::rlimit(30)]
proof fn lemma_lock_records(
    mode: LockMode,
    key: Seq<u8>,
    salt: Seq<u8>,
    l: Listed,
    progress: bool,
    plan: Seq<Step>,
    more: Seq<Step>,
)
    requires
        l.dirs.len() + l.files.len() > 0,
        is_lock_plan(mode, key, salt, l, progress, plan),
        more.len() <= 1,
        forall|i: int| 0 <= i < more.len() ==> is_icon_task(#[trigger] more[i]),
    ensures
        writes_salt(initial(plan + more, 0).todo, salt),
        records_only(initial(plan + more, 0).todo, PendingOp::Encrypt),
{
    let s = sorted_listing(l);
    let ct = choose|ct: Seq<u8>|
        #![trigger seals(key, lock_manifest(mode, s), ct)]
        seals(key, lock_manifest(mode, s), ct) && plan == lock_plan(mode, salt, ct, s, progress);
    let todo = plan + more;
    let n = plan.len() as int;
    let mark = Task::<Seq<char>, Seq<u8>>::Do(Action::Mark(PendingOp::Encrypt));
    let unmark = Task::<Seq<char>, Seq<u8>>::Do(Action::Unmark);
    let write = Task::<Seq<char>, Seq<u8>>::Do(
        Action::WriteVault { part: Part::Salt, bytes: salt },
    );
    assert(todo[0] == Task::<Seq<char>, Seq<u8>>::Do(Action::CreateVault));
    assert(todo[1] == write);
    if mode == LockMode::Full {
        let mid = seal_files(numbers_from(ct), s.dirs.len(), s.files, progress, s.files.len());
        let m = mid.len() as int;
        lemma_seal_files_plain(numbers_from(ct), s.dirs.len(), s.files, progress, s.files.len());
        assert(n == 10 + m);
        assert(todo[7 + m] == mark);
        assert(todo[9 + m] == unmark);
        assert forall|i: int| 2 <= i < todo.len() && i != 7 + m implies !(
        #[trigger] todo[i] matches Task::Do(Action::Mark(_))) && !(todo[i] matches Task::Do(
            Action::WriteVault { part, .. },
        ) && part == Part::Salt) by {
            if 5 <= i < 5 + m {
                assert(todo[i] == mid[i - 5]);
            } else if i >= n {
                assert(todo[i] == more[i - n]);
            }
        }
    } else {
        let store = if mode == LockMode::Simple {
            Store::Streams
        } else {
            Store::Container
        };
        let pairs = stored_pairs(s.files);
        let mid = lock_files(store, pairs, progress, pairs.len());
        let m = mid.len() as int;
        lemma_lock_files_plain(store, pairs, progress, pairs.len());
        assert(todo[5] == mark);
        assert(todo[n - 1] == unmark);
        assert forall|i: int| 2 <= i < todo.len() && i != 5 implies !(
        #[trigger] todo[i] matches Task::Do(Action::Mark(_))) && !(todo[i] matches Task::Do(
            Action::WriteVault { part, .. },
        ) && part == Part::Salt) by {
            if 8 <= i < 8 + m {
                assert(todo[i] == mid[i - 8]);
            } else if i >= n {
                assert(todo[i] == more[i - n]);
            }
        }
    }
    assert(todo[n - 1] == unmark);
    assert forall|j: int| n - 1 < j < todo.len() implies is_icon_task(#[trigger] todo[j]) by {
        assert(todo[j] == more[j - n]);
    }
}

proof fn lemma_started_with(
    mode: EncryptMode,
    listing: Listing,
    password: Seq<u8>,
    salt: Seq<u8>,
    job: Job,
)
    requires
        listing@.dirs.len() + listing@.files.len() > 0,
        lock_started(mode, Ok::<Listing, String>(listing), password, salt, Started::Going(job)),
    ensures
        locks_with(job, password, salt),
{
    let key = password_key(password, salt);
    let (lm, plan) = choose|lm: LockMode, plan: Seq<Step>| #[trigger]
        is_lock_plan(lm, key, salt, listing@, false, plan) && job@ == initial(plan, 0);
    lemma_lock_records(lm, key, salt, listing@, false, plan, Seq::empty());
    assert(plan + Seq::<Step>::empty() =~= plan);
    assert(job@.todo.len() > 0);
    assert(job@.outcome is None);
}

/// What the dialogue and the command line start to lock works with the key of the
/// password and of the salt that it writes into the vault.
pub proof fn locks_use_the_salt_they_write(
    mode: EncryptMode,
    listing: Listing,
    password: &[u8],
    salt: &Salt,
    pw: &str,
    a: Job,
    b: Job,
    c: Job,
)
    requires
        listing@.dirs.len() + listing@.files.len() > 0,
        call_ensures(
            lock_with_salt,
            (mode, Ok::<Listing, String>(listing), password, salt),
            Started::Going(a),
        ),
        call_ensures(
            lock,
            (mode, Ok::<Listing, String>(listing), password),
            Started::Going(b),
        ),
        call_ensures(
            cmd_encrypt,
            (Some(pw), Ok::<Listing, String>(listing)),
            Ok::<Job, String>(c),
        ) || call_ensures(
            cmd_encrypt_simple,
            (Some(pw), Ok::<Listing, String>(listing)),
            Ok::<Job, String>(c),
        ),
    ensures
        locks_with(a, password@, salt@),
        exists|x: Seq<u8>| x.len() == 16 && #[trigger] locks_with(b, password@, x),
        exists|x: Seq<u8>| x.len() == 16 && #[trigger] locks_with(c, encode_utf8(pw@), x),
{
    let from = Ok::<Listing, String>(listing);
    lemma_started_with(mode, listing, password@, salt@, a);
    let x = choose|x: Seq<u8>|
        x.len() == 16 && #[trigger] lock_started(mode, from, password@, x, Started::Going(b));
    lemma_started_with(mode, listing, password@, x, b);
    let p = encode_utf8(pw@);
    assert(pw_bytes(Some(pw)) == Some(p));
    let (other, y) = choose|other: EncryptMode, y: Seq<u8>|
        y.len() == 16 && #[trigger] lock_gives(other, from, p, y, Ok::<Job, String>(c));
    lemma_started_with(other, listing, p, y, c);
}

/// What the window starts to lock works with the key of the password and of the salt
/// that it writes into the vault, and gives the folder its locked look at the end.
pub proof fn window_locks_with_the_salt_it_writes(
    names: &Vec<String>,
    listing: Listing,
    index: i32,
    password: &[u8],
    salt: &Salt,
    a: Job,
    b: Job,
)
    requires
        listing@.dirs.len() + listing@.files.len() > 0,
        call_ensures(
            encrypt_with_salt,
            (names, Ok::<Listing, String>(listing), index, password, salt),
            Ok::<Job, String>(a),
        ),
        call_ensures(
            encrypt,
            (names, Ok::<Listing, String>(listing), index, password),
            Ok::<Job, String>(b),
        ),
    ensures
        locks_with(a, password@, salt@),
        a@.todo.last() == Task::<Seq<char>, Seq<u8>>::Do(Action::ShowIcon),
        exists|x: Seq<u8>| x.len() == 16 && #[trigger] locks_with(b, password@, x),
        b@.todo.last() == Task::<Seq<char>, Seq<u8>>::Do(Action::ShowIcon),
{
    let l = listing@;
    let (lm, plan) = choose|lm: LockMode, plan: Seq<Step>| #[trigger]
        is_lock_plan(
            lm,
            password_key(password@, salt@),
            salt@,
            l,
            shows_progress(lm),
            plan,
        ) && job_over(a, plan, Action::ShowIcon, 0, password_key(password@, salt@));
    lemma_window_locks_with(lm, password@, salt@, l, shows_progress(lm), plan, a);
    let (other, x, plan2) = choose|other: LockMode, x: Seq<u8>, plan2: Seq<Step>|
        x.len() == 16 && #[trigger] is_lock_plan(
            other,
            password_key(password@, x),
            x,
            l,
            shows_progress(other),
            plan2,
        ) && job_over(b, plan2, Action::ShowIcon, 0, password_key(password@, x));
    lemma_window_locks_with(other, password@, x, l, shows_progress(other), plan2, b);
}

proof fn lemma_window_locks_with(
    mode: LockMode,
    password: Seq<u8>,
    salt: Seq<u8>,
    l: Listed,
    progress: bool,
    plan: Seq<Step>,
    job: Job,
)
    requires
        l.dirs.len() + l.files.len() > 0,
        is_lock_plan(mode, password_key(password, salt), salt, l, progress, plan),
        job_over(job, plan, Action::ShowIcon, 0, password_key(password, salt)),
    ensures
        locks_with(job, password, salt),
        job@.todo.last() == Task::<Seq<char>, Seq<u8>>::Do(Action::ShowIcon),
{
    let icon = seq![Task::<Seq<char>, Seq<u8>>::Do(Action::ShowIcon)];
    lemma_lock_records(mode, password_key(password, salt), salt, l, progress, plan, icon);
    assert(plan + icon =~= plan.push(Task::Do(Action::ShowIcon)));
    let s = sorted_listing(l);
    let ct = choose|ct: Seq<u8>|
        #![trigger seals(password_key(password, salt), lock_manifest(mode, s), ct)]
        seals(password_key(password, salt), lock_manifest(mode, s), ct) && plan == lock_plan(
            mode,
            salt,
            ct,
            s,
            progress,
        );
    assert(plan[0] == Task::<Seq<char>, Seq<u8>>::Do(Action::CreateVault));
    assert(job@.outcome is None);
}

proof fn lemma_open_entries_plain(from: Option<u64>, entries: Seq<Entry>, progress: bool, k: nat)
    ensures
        all_plain(open_entries(from, entries, progress, k)),
    decreases k,
{
    if k > 0 {
        let j = (k - 1) as nat;
        lemma_open_entries_plain(from, entries, progress, j);
        let before = open_entries(from, entries, progress, j);
        let one = open_entry(number_due(from, j), entries[k - 1]);
        lemma_plain_add(before, one);
        lemma_plain_add(before + one, report(progress, k, entries.len()));
    }
}

proof fn lemma_put_entries_plain(
    key: Seq<u8>,
    entries: Seq<Packed>,
    progress: bool,
    total: nat,
    k: nat,
)
    ensures
        all_plain(put_entries(key, entries, progress, total, k)),
    decreases k,
{
    if k > 0 {
        let j = (k - 1) as nat;
        lemma_put_entries_plain(key, entries, progress, total, j);
        let before = put_entries(key, entries, progress, total, j);
        let one = put_entry(key, entries[k - 1]);
        lemma_plain_add(before, one);
        lemma_plain_add(before + one, report(progress, k, total));
    }
}

proof fn lemma_unlock_entries_plain(
    store: Store,
    entries: Seq<Entry>,
    progress: bool,
    total: nat,
    k: nat,
)
    ensures
        all_plain(unlock_entries(store, entries, progress, total, k)),
    decreases k,
{
    if k > 0 {
        let j = (k - 1) as nat;
        lemma_unlock_entries_plain(store, entries, progress, total, j);
        let before = unlock_entries(store, entries, progress, total, j);
        let one = unlock_entry(store, entries[k - 1]);
        lemma_plain_add(before, one);
        lemma_plain_add(before + one, report(progress, k, total));
    }
}

proof fn lemma_from_store_plain(
    store: Store,
    magic: Magic,
    reading: Reading,
    manifest: Seq<u8>,
    progress: bool,
)
    ensures
        all_plain(restore_from_store(store, magic, reading, manifest, progress)),
{
    let (entries, broken) = manifest_says(magic, reading, manifest);
    let n = announced(magic, manifest);
    let mid = unlock_entries(store, entries, progress, n, entries.len());
    lemma_unlock_entries_plain(store, entries, progress, n, entries.len());
    lemma_plain_add(mid, fail_if(broken));
    lemma_plain_add(mid + fail_if(broken), seq![Task::Settle(store)]);
}

proof fn lemma_restore_plain(
    mode: u8,
    key: Seq<u8>,
    manifest: Seq<u8>,
    from: Option<u64>,
    progress: bool,
)
    ensures
        all_plain(restore(mode, key, manifest, from, progress)),
{
    let (entries, broken) = manifest_says(Magic::Full, Reading::Meta, manifest);
    lemma_open_entries_plain(from, entries, progress, entries.len());
    let (packed, cut) = packed_says(manifest);
    let n = announced(Magic::Full, manifest);
    lemma_put_entries_plain(key, packed, progress, n, packed.len());
    lemma_plain_add(put_entries(key, packed, progress, n, packed.len()), fail_if(cut));
    lemma_from_store_plain(Store::Streams, Magic::Simple, Reading::Streams, manifest, progress);
    lemma_from_store_plain(Store::Container, Magic::Move, Reading::Container, manifest, progress);
    lemma_plain_add(
        seq![Task::Do(Action::LiftGuard)],
        restore_from_store(Store::Container, Magic::Move, Reading::Container, manifest, progress),
    );
}

#[verifier::rlimit(30)]
proof fn lemma_unlock_records(
    mode: u8,
    key: Seq<u8>,
    manifest: Seq<u8>,
    from: Option<u64>,
    progress: bool,
    more: Seq<Step>,
)
    requires
        more.len() <= 1,
        forall|i: int| 0 <= i < more.len() ==> is_icon_task(#[trigger] more[i]),
    ensures
        ({
            let s = initial(unlock_plan(mode, key, manifest, from, progress) + more, 0);
            &&& s.outcome is None
            &&& records_only(s.todo, PendingOp::Decrypt)
            &&& more.len() > 0 ==> s.todo.last() == more[0]
        }),
{
    let mid = restore(mode, key, manifest, from, progress);
    let plan = unlock_plan(mode, key, manifest, from, progress);
    let todo = plan + more;
    let m = mid.len() as int;
    lemma_restore_plain(mode, key, manifest, from, progress);
    assert(plan.len() == m + 3);
    assert(todo[0] == Task::<Seq<char>, Seq<u8>>::Do(Action::Mark(PendingOp::Decrypt)));
    assert(todo[m + 2] == Task::<Seq<char>, Seq<u8>>::Do(Action::Unmark));
    assert forall|i: int| 1 <= i < todo.len() implies !(#[trigger] todo[i] matches Task::Do(
        Action::Mark(_),
    )) by {
        if i < 1 + m {
            assert(todo[i] == mid[i - 1]);
        } else if i >= m + 3 {
            assert(todo[i] == more[i - m - 3]);
        }
    }
    assert forall|j: int| m + 2 < j < todo.len() implies is_icon_task(#[trigger] todo[j]) by {
        assert(todo[j] == more[j - m - 3]);
    }
    if more.len() > 0 {
        assert(todo.last() == more[0]);
    }
}

/// What is started to unlock works with the key of the password and the salt of the
/// vault, in the dialogue, on the command line and in the window alike; the window takes
/// the locked look away at the end.
#[verifier::rlimit(30)]
pub proof fn unlocks_use_the_salt_of_the_vault(
    salt: &Salt,
    head: &[u8],
    whole: Vec<u8>,
    body: Result<Vec<u8>, String>,
    password: &[u8],
    pw: &str,
    a: Job,
    b: Job,
    c: Job,
    e: Job,
)
    requires
        call_ensures(unlock, (salt, head, body, password), Started::Going(a)),
        call_ensures(
            cmd_decrypt,
            (Some(pw), Ok::<Vec<u8>, String>(whole), body),
            Ok::<Job, String>(b),
        ),
        call_ensures(decrypt, (head, body, password), Ok::<Job, String>(c)),
        call_ensures(
            resume,
            (Some(PendingOp::Decrypt), head, body, password),
            Ok::<(PendingOp, Job), String>((PendingOp::Decrypt, e)),
        ),
    ensures
        unlocks_with(a, password@, salt@),
        unlocks_with(b, encode_utf8(pw@), whole@.take(16)),
        unlocks_with(c, password@, head@.take(16)),
        c@.todo.last() == Task::<Seq<char>, Seq<u8>>::Do(Action::HideIcon),
        unlocks_with(e, password@, head@.take(16)),
        e@.todo.last() == Task::<Seq<char>, Seq<u8>>::Do(Action::HideIcon),
{
    let none = Seq::<Step>::empty();
    let icon = seq![Task::<Seq<char>, Seq<u8>>::Do(Action::HideIcon)];
    let bytes = body->Ok_0@;
    let k1 = password_key(password@, salt@);
    let m1 = open_manifest(head@[16], k1, bytes)->Ok_0;
    let p1 = unlock_plan(head@[16], k1, m1, numbering(m1, bytes), false);
    lemma_unlock_records(head@[16], k1, m1, numbering(m1, bytes), false, none);
    assert(p1 + none =~= p1);
    let k2 = password_key(encode_utf8(pw@), whole@.take(16));
    let m2 = open_manifest(whole@[16], k2, bytes)->Ok_0;
    let p2 = unlock_plan(whole@[16], k2, m2, numbering(m2, bytes), false);
    lemma_unlock_records(whole@[16], k2, m2, numbering(m2, bytes), false, none);
    assert(p2 + none =~= p2);
    let k3 = password_key(password@, head@.take(16));
    let m3 = open_manifest(head@[16], k3, bytes)->Ok_0;
    lemma_unlock_records(head@[16], k3, m3, numbering(m3, bytes), true, icon);
    lemma_unlock_records(head@[16], k3, m3, numbering(m3, bytes), false, icon);
    let loud = unlock_plan(head@[16], k3, m3, numbering(m3, bytes), true);
    let quiet = unlock_plan(head@[16], k3, m3, numbering(m3, bytes), false);
    assert(loud + icon =~= loud.push(Task::Do(Action::HideIcon)));
    assert(quiet + icon =~= quiet.push(Task::Do(Action::HideIcon)));
}

/// A lock that the window takes up again works with the key of the password and the salt
/// of the vault, records no other direction, and gives the folder its locked look at the
/// end.
#[verifier::rlimit(30)]
pub proof fn finished_locks_use_the_salt_of_the_vault(
    head: &[u8],
    body: Result<Vec<u8>, String>,
    password: &[u8],
    job: Job,
)
    requires
        call_ensures(
            resume,
            (Some(PendingOp::Encrypt), head, body, password),
            Ok::<(PendingOp, Job), String>((PendingOp::Encrypt, job)),
        ),
    ensures
        job.key() == password_key(password@, head@.take(16)),
        job@.todo.last() == Task::<Seq<char>, Seq<u8>>::Do(Action::ShowIcon),
        forall|i: int|
            0 <= i < job@.todo.len() ==> !(#[trigger] job@.todo[i] matches Task::Do(
                Action::Mark(_),
            )),
{
    let key = password_key(password@, head@.take(16));
    let bytes = body->Ok_0@;
    let mode = head@[16];
    let manifest = open_manifest(mode, key, bytes)->Ok_0;
    let (plan, n) = resume_plan(mode, manifest, true)->Ok_0;
    let magic = if mode == 1 {
        Magic::Simple
    } else {
        Magic::Move
    };
    let store = if mode == 1 {
        Store::Streams
    } else {
        Store::Container
    };
    let entries = manifest_says(magic, Reading::Resume, manifest).0;
    let pairs = named_pairs(entries, entries.len());
    let mid = lock_files(store, pairs, true, pairs.len());
    lemma_lock_files_plain(store, pairs, true, pairs.len());
    if mode == 1 || mode == 2 {
        assert(plan == store_files(store, pairs, true));
        assert forall|i: int| 0 <= i < plan.len() implies plain(#[trigger] plan[i]) by {
            if 2 <= i < 2 + mid.len() {
                assert(plan[i] == mid[i - 2]);
            }
        }
    }
    assert(all_plain(plan));
    let todo = plan.push(Task::Do(Action::ShowIcon));
    assert(plan.len() > 0);
    assert(todo[0] == plan[0]);
    assert(job@.todo == todo);
    assert(todo.last() == Task::<Seq<char>, Seq<u8>>::Do(Action::ShowIcon));
    assert forall|i: int| 0 <= i < todo.len() implies !(#[trigger] todo[i] matches Task::Do(
        Action::Mark(_),
    )) by {
        if i < plan.len() {
            assert(todo[i] == plan[i]);
        }
    }
}

/// A folder that holds nothing to lock is not touched: what the dialogue, the command
/// line and the vault itself start has ended with no file before it began.
pub proof fn nothing_to_lock_does_nothing(
    mode: EncryptMode,
    listing: Listing,
    password: &[u8],
    salt: &Salt,
    pw: &str,
    s: Started,
    r: Result<Job, String>,
)
    requires
        listing@.dirs.len() == 0,
        listing@.files.len() == 0,
        password@.len() <= 0xFFFF_FFFF,
        encode_utf8(pw@).len() <= 0xFFFF_FFFF,
        call_ensures(lock_with_salt, (mode, Ok::<Listing, String>(listing), password, salt), s)
            || call_ensures(lock, (mode, Ok::<Listing, String>(listing), password), s),
        call_ensures(cmd_encrypt, (Some(pw), Ok::<Listing, String>(listing)), r) || call_ensures(
            cmd_encrypt_simple,
            (Some(pw), Ok::<Listing, String>(listing)),
            r,
        ),
    ensures
        s matches Started::Going(job) && job@.outcome == Some(Ok::<nat, Seq<char>>(0)),
        r matches Ok(job) && job@.outcome == Some(Ok::<nat, Seq<char>>(0)),
{
    let from = Ok::<Listing, String>(listing);
    let x = choose|x: Seq<u8>| #[trigger] lock_started(mode, from, password@, x, s);
    assert(s is Going);
    let p = encode_utf8(pw@);
    assert(pw_bytes(Some(pw)) == Some(p));
    let (other, y) = choose|other: EncryptMode, y: Seq<u8>| #[trigger]
        lock_gives(other, from, p, y, r);
    assert(lock_gives(other, from, p, y, r));
    assert(r is Ok);
}

/// The stream of a file is numbered by the place of its entry behind the directories,
/// counted on from the number in the first seven bytes of the encrypted metadata.
pub proof fn streams_are_numbered_by_their_entries(
    salt: Seq<u8>,
    ct: Seq<u8>,
    l: Listed,
    progress: bool,
    j: int,
)
    requires
        0 <= j < l.files.len(),
    ensures
        ({
            let todo = lock_plan(LockMode::Full, salt, ct, l, progress);
            let number = (from_le56(ct.take(7)) as u64 + 1 + l.dirs.len() + j)
                % 0x100_0000_0000_0000;
            exists|i: int|
                0 <= i < todo.len() && #[trigger] todo[i] == Task::<Seq<char>, Seq<u8>>::Do(
                    Action::SealFile { rel: l.files[j], number: number as u64 },
                )
        }),
{
    reveal(stream_number);
    reveal(numbers_from);
    let todo = lock_plan(LockMode::Full, salt, ct, l, progress);
    let mid = seal_files(numbers_from(ct), l.dirs.len(), l.files, progress, l.files.len());
    lemma_seal_numbers(numbers_from(ct), l.dirs.len(), l.files, progress, l.files.len(), j);
    let i = choose|i: int|
        0 <= i < mid.len() && #[trigger] mid[i] == Task::<Seq<char>, Seq<u8>>::Do(
            Action::SealFile {
                rel: l.files[j],
                number: stream_number(numbers_from(ct), (l.dirs.len() + j) as nat),
            },
        );
    assert(todo[i + 5] == mid[i]);
}

proof fn lemma_seal_numbers(
    from: u64,
    at: nat,
    files: Seq<Seq<char>>,
    progress: bool,
    k: nat,
    j: int,
)
    requires
        0 <= j < k <= files.len(),
    ensures
        ({
            let todo = seal_files(from, at, files, progress, k);
            exists|i: int|
                0 <= i < todo.len() && #[trigger] todo[i] == Task::<Seq<char>, Seq<u8>>::Do(
                    Action::SealFile { rel: files[j], number: stream_number(from, (at + j) as nat) },
                )
        }),
    decreases k,
{
    let m = (k - 1) as nat;
    let before = seal_files(from, at, files, progress, m);
    let todo = seal_files(from, at, files, progress, k);
    if j < m {
        lemma_seal_numbers(from, at, files, progress, m, j);
        let i = choose|i: int|
            0 <= i < before.len() && #[trigger] before[i] == Task::<Seq<char>, Seq<u8>>::Do(
                Action::SealFile { rel: files[j], number: stream_number(from, (at + j) as nat) },
            );
        assert(todo[i] == before[i]);
    } else {
        assert(todo[before.len() as int] == Task::<Seq<char>, Seq<u8>>::Do(
            Action::SealFile { rel: files[j], number: stream_number(from, (at + j) as nat) },
        ));
    }
}

// ── from the choice to the deed ──

/// A folder that was unlocked for a while is locked again in the mode of its vault: the
/// mode byte that is written is the one that was read, and 3 where the vault was of the
/// first format.
pub proof fn relocking_writes_the_mode_again(
    head: &[u8],
    index: i32,
    names: &Vec<String>,
    listing: Listing,
    password: &[u8],
    salt: &Salt,
    job: Job,
)
    requires
        head@.len() >= 17,
        head@[16] <= 3,
        listing@.dirs.len() + listing@.files.len() > 0,
        call_ensures(mode_to_keep, (Some(head),), index),
        call_ensures(
            encrypt_with_salt,
            (names, Ok::<Listing, String>(listing), index, password, salt),
            Ok::<Job, String>(job),
        ) || call_ensures(
            encrypt,
            (names, Ok::<Listing, String>(listing), index, password),
            Ok::<Job, String>(job),
        ),
    ensures
        head@[16] != 0 ==> writes_mode(job@.todo, head@[16]),
        head@[16] == 0 ==> writes_mode(job@.todo, 3),
{
    kept_mode_is_that_of_the_vault(Some(head), index);
    window_does_what_was_chosen(names, listing, index, password, salt, Ok::<Job, String>(job));
}

/// The folder is locked in the mode that was checked in the mode dialog: simply where the
/// simple mode was checked, and fully where it was not.
pub proof fn checked_mode_is_the_one_that_locks(
    simple_checked: bool,
    mode: EncryptMode,
    listing: Listing,
    password: &[u8],
    salt: &Salt,
    job: Job,
)
    requires
        listing@.dirs.len() + listing@.files.len() > 0,
        call_ensures(encrypt_mode_dialog, (true, simple_checked), Some(mode)),
        call_ensures(
            lock_with_salt,
            (mode, Ok::<Listing, String>(listing), password, salt),
            Started::Going(job),
        ) || call_ensures(
            lock,
            (mode, Ok::<Listing, String>(listing), password),
            Started::Going(job),
        ),
    ensures
        simple_checked ==> plainly(job@.todo, 1, Store::Streams, listing@.files),
        !simple_checked ==> fully(job@.todo, listing@.files),
{
    dialogue_does_what_was_chosen(mode, listing, password, salt, Started::Going(job));
}

} // verus!
