//! Which operations show their progress, and that they show all of it.

use vstd::prelude::*;

use crate::clearing::sorting_keeps_listing;
use crate::cli::{cmd_decrypt, cmd_encrypt, cmd_encrypt_simple, lock_gives, pw_bytes};
use crate::crypto::{password_key, Key, Salt};
use crate::dialog::EncryptMode;
use crate::job::{initial, Action, Job, Step, Store, Task};
use crate::logic::{decrypt, encrypt, encrypt_with_salt, job_over, resume, shows_progress};
use crate::manifest::{
    announced, header_count, manifest_says, packed_says, Entry, Magic, Packed, Reading,
};
use crate::session::{lock, lock_started, lock_with_salt, unlock, Started};
use crate::vault::{
    begin_stream_vault, decrypt_folder, decrypt_folder_with_progress, encrypt_folder,
    encrypt_folder_move, encrypt_folder_move_with_progress, encrypt_folder_simple,
    encrypt_folder_simple_with_progress, encrypt_folder_with_progress, end_stream_vault, fail_if,
    is_lock_job, is_lock_plan, lock_files, lock_manifest, lock_plan, named_pairs, nothing_listed,
    number_due, numbering, numbers_from, open_entries, open_entry, open_manifest, put_entries,
    put_entry, report, restore, restore_from_store, resume_plan, salt_of, seal_files, seals,
    sorted_listing, store_files, stored_pairs, stream_number, unlock_entries, unlock_entry,
    unlock_plan, unlock_starts, write_vault, MODE_MOVE, MODE_SIMPLE, LockMode, Pair, PendingOp,
};
use crate::walk::{Listed, Listing};

verus! {

// ── what is shown ──

/// Does a task show a progress?
pub open spec fn shows(t: Step) -> bool {
    t matches Task::Do(Action::Report { .. })
}

/// Does a task show that `k` of `n` are done?
pub open spec fn shows_that(t: Step, k: nat, n: nat) -> bool {
    t matches Task::Do(Action::Report { done, total }) && done == k as usize && total == n as usize
}

/// Is it shown at some time that `k` of `n` are done?
pub open spec fn is_shown(todo: Seq<Step>, k: nat, n: nat) -> bool {
    exists|i: int| 0 <= i < todo.len() && shows_that(#[trigger] todo[i], k, n)
}

/// Is nothing shown?
pub open spec fn silent(todo: Seq<Step>) -> bool {
    forall|i: int| 0 <= i < todo.len() ==> !shows(#[trigger] todo[i])
}

/// Is the progress shown after each of the first `m` of `n`, and nothing else?
pub open spec fn shows_each(todo: Seq<Step>, m: nat, n: nat) -> bool {
    &&& forall|k: nat| 1 <= k <= m ==> #[trigger] is_shown(todo, k, n)
    &&& forall|i: int|
        0 <= i < todo.len() && shows(#[trigger] todo[i]) ==> exists|k: nat|
            1 <= k <= m && #[trigger] shows_that(todo[i], k, n)
}

/// Is the progress shown after each of the first `m` of `n` where it is to be shown,
/// and is nothing shown otherwise?
pub open spec fn shows_if(progress: bool, todo: Seq<Step>, m: nat, n: nat) -> bool {
    if progress {
        shows_each(todo, m, n)
    } else {
        silent(todo)
    }
}

#[verifier::rlimit(30)]
proof fn lemma_next(progress: bool, before: Seq<Step>, mid: Seq<Step>, k: nat, n: nat)
    requires
        k > 0,
        shows_if(progress, before, (k - 1) as nat, n),
        silent(mid),
    ensures
        shows_if(progress, before + mid + report(progress, k, n), k, n),
{
    let todo = before + mid + report(progress, k, n);
    assert forall|i: int| 0 <= i < todo.len() && shows(#[trigger] todo[i]) implies progress
        && exists|j: nat| 1 <= j <= k && #[trigger] shows_that(todo[i], j, n) by {
        if i < before.len() {
            assert(todo[i] == before[i]);
            let j = choose|j: nat| 1 <= j <= k - 1 && #[trigger] shows_that(before[i], j, n);
            assert(shows_that(todo[i], j, n));
        } else if i < before.len() + mid.len() {
            assert(todo[i] == mid[i - before.len()]);
        } else {
            assert(shows_that(todo[i], k, n));
        }
    }
    if progress {
        assert forall|j: nat| 1 <= j <= k implies #[trigger] is_shown(todo, j, n) by {
            if j < k {
                assert(is_shown(before, j, n));
                let i = choose|i: int|
                    0 <= i < before.len() && shows_that(#[trigger] before[i], j, n);
                assert(todo[i] == before[i]);
            } else {
                assert(shows_that(todo[(before.len() + mid.len()) as int], j, n));
            }
        }
    }
}

#[verifier::rlimit(30)]
proof fn lemma_around(
    progress: bool,
    front: Seq<Step>,
    mid: Seq<Step>,
    back: Seq<Step>,
    m: nat,
    n: nat,
)
    requires
        silent(front),
        silent(back),
        shows_if(progress, mid, m, n),
    ensures
        shows_if(progress, front + mid + back, m, n),
{
    let todo = front + mid + back;
    assert forall|i: int| 0 <= i < todo.len() && shows(#[trigger] todo[i]) implies front.len() <= i
        < front.len() + mid.len() && todo[i] == mid[i - front.len()] by {
        if i < front.len() {
            assert(todo[i] == front[i]);
        } else if i >= front.len() + mid.len() {
            assert(todo[i] == back[i - front.len() - mid.len()]);
        }
    }
    if progress {
        assert forall|i: int| 0 <= i < todo.len() && shows(#[trigger] todo[i]) implies exists|
            k: nat,
        | 1 <= k <= m && #[trigger] shows_that(todo[i], k, n) by {
            let j = i - front.len();
            assert(shows(mid[j]));
            let k = choose|k: nat| 1 <= k <= m && #[trigger] shows_that(mid[j], k, n);
            assert(shows_that(todo[i], k, n));
        }
        assert forall|k: nat| 1 <= k <= m implies #[trigger] is_shown(todo, k, n) by {
            assert(is_shown(mid, k, n));
            let i = choose|i: int| 0 <= i < mid.len() && shows_that(#[trigger] mid[i], k, n);
            assert(todo[front.len() + i] == mid[i]);
        }
    }
}

// ── plans ──

proof fn lemma_seal_files(from: u64, at: nat, files: Seq<Seq<char>>, progress: bool, k: nat)
    ensures
        shows_if(progress, seal_files(from, at, files, progress, k), k, files.len()),
    decreases k,
{
    if k > 0 {
        let j = (k - 1) as nat;
        lemma_seal_files(from, at, files, progress, j);
        let mid = seq![
            Task::<Seq<char>, Seq<u8>>::Do(
                Action::SealFile {
                    rel: files[k - 1],
                    number: stream_number(from, at + j),
                },
            ),
        ];
        lemma_next(progress, seal_files(from, at, files, progress, j), mid, k, files.len());
    }
}

proof fn lemma_lock_files(store: Store, pairs: Seq<Pair>, progress: bool, k: nat)
    ensures
        shows_if(progress, lock_files(store, pairs, progress, k), k, pairs.len()),
    decreases k,
{
    if k > 0 {
        let j = (k - 1) as nat;
        lemma_lock_files(store, pairs, progress, j);
        let (rel, name) = pairs[k - 1];
        let mid = seq![Task::<Seq<char>, Seq<u8>>::Lock { store, rel, name }];
        lemma_next(progress, lock_files(store, pairs, progress, j), mid, k, pairs.len());
    }
}

proof fn lemma_open_entries(from: Option<u64>, entries: Seq<Entry>, progress: bool, k: nat)
    ensures
        shows_if(progress, open_entries(from, entries, progress, k), k, entries.len()),
    decreases k,
{
    if k > 0 {
        let j = (k - 1) as nat;
        lemma_open_entries(from, entries, progress, j);
        let mid = open_entry(number_due(from, j), entries[k - 1]);
        lemma_next(progress, open_entries(from, entries, progress, j), mid, k, entries.len());
    }
}

proof fn lemma_put_entries(key: Seq<u8>, entries: Seq<Packed>, progress: bool, total: nat, k: nat)
    ensures
        shows_if(progress, put_entries(key, entries, progress, total, k), k, total),
    decreases k,
{
    if k > 0 {
        let j = (k - 1) as nat;
        lemma_put_entries(key, entries, progress, total, j);
        let mid = put_entry(key, entries[k - 1]);
        lemma_next(progress, put_entries(key, entries, progress, total, j), mid, k, total);
    }
}

proof fn lemma_unlock_entries(
    store: Store,
    entries: Seq<Entry>,
    progress: bool,
    total: nat,
    k: nat,
)
    ensures
        shows_if(progress, unlock_entries(store, entries, progress, total, k), k, total),
    decreases k,
{
    if k > 0 {
        let j = (k - 1) as nat;
        lemma_unlock_entries(store, entries, progress, total, j);
        let mid = unlock_entry(store, entries[k - 1]);
        lemma_next(progress, unlock_entries(store, entries, progress, total, j), mid, k, total);
    }
}

proof fn lemma_store_files(store: Store, pairs: Seq<Pair>, progress: bool)
    ensures
        shows_if(progress, store_files(store, pairs, progress), pairs.len(), pairs.len()),
{
    let n = pairs.len();
    let mid = lock_files(store, pairs, progress, n);
    lemma_lock_files(store, pairs, progress, n);
    match store {
        Store::Streams => lemma_around(
            progress,
            seq![Task::PrepareHost, Task::Do(Action::HideHost)],
            mid,
            seq![Task::Clear, Task::Do(Action::Unmark)],
            n,
            n,
        ),
        Store::Container => lemma_around(
            progress,
            seq![Task::Do(Action::LiftGuard), Task::Do(Action::CreateData)],
            mid,
            seq![Task::Clear, Task::Do(Action::GuardData), Task::Do(Action::Unmark)],
            n,
            n,
        ),
    }
}

#[verifier::rlimit(30)]
proof fn lemma_lock_plan(
    mode: LockMode,
    key: Seq<u8>,
    salt: Seq<u8>,
    l: Listed,
    progress: bool,
    plan: Seq<Step>,
)
    requires
        is_lock_plan(mode, key, salt, l, progress, plan),
    ensures
        shows_if(progress, initial(plan, 0).todo, l.files.len(), l.files.len()),
        shows_if(
            progress,
            initial(plan.push(Task::Do(Action::ShowIcon)), 0).todo,
            l.files.len(),
            l.files.len(),
        ),
{
    let n = l.files.len();
    let none = Seq::<Step>::empty();
    let icon = seq![Task::<Seq<char>, Seq<u8>>::Do(Action::ShowIcon)];
    assert(plan + icon =~= plan.push(Task::Do(Action::ShowIcon)));
    assert(none + plan + icon =~= plan + icon);
    if nothing_listed(l) {
        assert(shows_if(progress, none, 0, 0));
        assert(plan =~= none);
        assert(initial(plan, 0).todo =~= none);
        assert(plan + icon =~= icon);
        assert(shows_if(progress, icon, 0, 0));
    } else {
        let s = sorted_listing(l);
        let ct = choose|ct: Seq<u8>|
            #![trigger seals(key, lock_manifest(mode, s), ct)]
            seals(key, lock_manifest(mode, s), ct) && plan == lock_plan(
                mode,
                salt,
                ct,
                s,
                progress,
            );
        sorting_keeps_listing(l.files);
        match mode {
            LockMode::Full => {
                let mid = seal_files(numbers_from(ct), s.dirs.len(), s.files, progress, n);
                lemma_seal_files(numbers_from(ct), s.dirs.len(), s.files, progress, n);
                lemma_around(
                    progress,
                    begin_stream_vault(salt, ct),
                    mid,
                    end_stream_vault(),
                    n,
                    n,
                );
            },
            LockMode::Simple => {
                let mid = store_files(Store::Streams, stored_pairs(s.files), progress);
                lemma_store_files(Store::Streams, stored_pairs(s.files), progress);
                lemma_around(
                    progress,
                    write_vault(salt, MODE_SIMPLE, ct),
                    mid,
                    none,
                    n,
                    n,
                );
                assert(plan + none =~= plan);
            },
            LockMode::Move => {
                let mid = store_files(Store::Container, stored_pairs(s.files), progress);
                lemma_store_files(Store::Container, stored_pairs(s.files), progress);
                lemma_around(
                    progress,
                    write_vault(salt, MODE_MOVE, ct),
                    mid,
                    none,
                    n,
                    n,
                );
                assert(plan + none =~= plan);
            },
        }
        assert(shows_if(progress, plan, n, n));
        lemma_around(progress, none, plan, icon, n, n);
        assert(plan[0] == Task::<Seq<char>, Seq<u8>>::Do(Action::CreateVault));
    }
}

/// The entries that can be read of a manifest, and the number that it announces, by the
/// mode byte of its vault: 3 for streams, 0 for the first format, 1 for the simple mode
/// and 2 for the move lock.
pub open spec fn entries_told(mode: u8, manifest: Seq<u8>) -> (nat, nat) {
    if mode == 3 {
        let (entries, broken) = manifest_says(Magic::Full, Reading::Meta, manifest);
        match broken {
            Some(_) => (0, 0),
            None => (entries.len(), entries.len()),
        }
    } else if mode == 0 {
        (packed_says(manifest).0.len(), announced(Magic::Full, manifest) as nat)
    } else if mode == 1 {
        (
            manifest_says(Magic::Simple, Reading::Streams, manifest).0.len(),
            announced(Magic::Simple, manifest) as nat,
        )
    } else if mode == 2 {
        (
            manifest_says(Magic::Move, Reading::Container, manifest).0.len(),
            announced(Magic::Move, manifest) as nat,
        )
    } else {
        (0, 0)
    }
}

proof fn lemma_unlock_plan(
    mode: u8,
    key: Seq<u8>,
    manifest: Seq<u8>,
    from: Option<u64>,
    progress: bool,
)
    ensures
        ({
            let plan = unlock_plan(mode, key, manifest, from, progress);
            let (m, n) = entries_told(mode, manifest);
            &&& shows_if(progress, initial(plan, 0).todo, m, n)
            &&& shows_if(progress, initial(plan.push(Task::Do(Action::HideIcon)), 0).todo, m, n)
        }),
{
    let plan = unlock_plan(mode, key, manifest, from, progress);
    let (m, n) = entries_told(mode, manifest);
    let none = Seq::<Step>::empty();
    let icon = seq![Task::<Seq<char>, Seq<u8>>::Do(Action::HideIcon)];
    let mid = restore(mode, key, manifest, from, progress);
    lemma_restore(mode, key, manifest, from, progress);
    lemma_around(
        progress,
        seq![Task::Do(Action::Mark(PendingOp::Decrypt))],
        mid,
        seq![Task::Do(Action::DropVault), Task::Do(Action::Unmark)],
        m,
        n,
    );
    lemma_around(progress, none, plan, icon, m, n);
    assert(none + plan + icon =~= plan.push(Task::Do(Action::HideIcon)));
    assert(plan[0] == Task::<Seq<char>, Seq<u8>>::Do(Action::Mark(PendingOp::Decrypt)));
}

proof fn lemma_restore(
    mode: u8,
    key: Seq<u8>,
    manifest: Seq<u8>,
    from: Option<u64>,
    progress: bool,
)
    ensures
        ({
            let (m, n) = entries_told(mode, manifest);
            shows_if(progress, restore(mode, key, manifest, from, progress), m, n)
        }),
{
    let (m, n) = entries_told(mode, manifest);
    let none = Seq::<Step>::empty();
    let todo = restore(mode, key, manifest, from, progress);
    if mode == 3 {
        let (entries, broken) = manifest_says(Magic::Full, Reading::Meta, manifest);
        lemma_open_entries(from, entries, progress, entries.len());
    } else if mode == 0 {
        let (entries, broken) = packed_says(manifest);
        let mid = put_entries(key, entries, progress, n, m);
        lemma_put_entries(key, entries, progress, n, m);
        lemma_around(progress, none, mid, fail_if(broken), m, n);
        assert(none + mid + fail_if(broken) =~= todo);
    } else if mode == 1 {
        lemma_from_store(Store::Streams, Magic::Simple, Reading::Streams, manifest, progress);
    } else if mode == 2 {
        let rest = restore_from_store(
            Store::Container,
            Magic::Move,
            Reading::Container,
            manifest,
            progress,
        );
        lemma_from_store(Store::Container, Magic::Move, Reading::Container, manifest, progress);
        if let Ok(_) = header_count(Magic::Move, manifest) {
            let lift = seq![Task::<Seq<char>, Seq<u8>>::Do(Action::LiftGuard)];
            lemma_around(progress, lift, rest, none, m, n);
            assert(lift + rest + none =~= todo);
        }
    }
}

proof fn lemma_from_store(
    store: Store,
    magic: Magic,
    reading: Reading,
    manifest: Seq<u8>,
    progress: bool,
)
    ensures
        shows_if(
            progress,
            restore_from_store(store, magic, reading, manifest, progress),
            manifest_says(magic, reading, manifest).0.len(),
            announced(magic, manifest),
        ),
{
    let (entries, broken) = manifest_says(magic, reading, manifest);
    let n = announced(magic, manifest);
    let mid = unlock_entries(store, entries, progress, n, entries.len());
    let end = seq![Task::<Seq<char>, Seq<u8>>::Settle(store)];
    let none = Seq::<Step>::empty();
    lemma_unlock_entries(store, entries, progress, n, entries.len());
    lemma_around(progress, none, mid, fail_if(broken) + end, entries.len(), n);
    assert(none + mid + (fail_if(broken) + end)
        =~= restore_from_store(store, magic, reading, manifest, progress));
}

// ── laws ──

/// A lock shows its progress after each file where it is asked for, in every mode, and
/// shows nothing where it is not.
pub proof fn locks_show_progress_on_demand(
    listing: &Listing,
    key: &Key,
    salt: &Salt,
    quiet: Job,
    loud: Job,
)
    requires
        ({
            ||| call_ensures(encrypt_folder, (listing, key, salt), Ok::<Job, String>(quiet))
            ||| call_ensures(encrypt_folder_simple, (listing, key, salt), Ok::<Job, String>(quiet))
            ||| call_ensures(encrypt_folder_move, (listing, key, salt), Ok::<Job, String>(quiet))
        }),
        ({
            ||| call_ensures(
                encrypt_folder_with_progress,
                (listing, key, salt),
                Ok::<Job, String>(loud),
            )
            ||| call_ensures(
                encrypt_folder_simple_with_progress,
                (listing, key, salt),
                Ok::<Job, String>(loud),
            )
            ||| call_ensures(
                encrypt_folder_move_with_progress,
                (listing, key, salt),
                Ok::<Job, String>(loud),
            )
        }),
    ensures
        silent(quiet@.todo),
        shows_each(loud@.todo, listing@.files.len(), listing@.files.len()),
{
    let a = choose|mode: LockMode| #[trigger]
        is_lock_job(mode, key@, salt@, listing@, false, quiet);
    lemma_lock_job(a, key@, salt@, listing@, false, quiet);
    let b = choose|mode: LockMode| #[trigger]
        is_lock_job(mode, key@, salt@, listing@, true, loud);
    lemma_lock_job(b, key@, salt@, listing@, true, loud);
}

proof fn lemma_lock_job(
    mode: LockMode,
    key: Seq<u8>,
    salt: Seq<u8>,
    l: Listed,
    progress: bool,
    job: Job,
)
    requires
        is_lock_job(mode, key, salt, l, progress, job),
    ensures
        shows_if(progress, job@.todo, l.files.len(), l.files.len()),
{
    let plan = choose|plan: Seq<Step>| #[trigger]
        is_lock_plan(mode, key, salt, l, progress, plan) && job@ == initial(plan, 0);
    lemma_lock_plan(mode, key, salt, l, progress, plan);
}

/// An unlock shows its progress after each entry where it is asked for, in every mode,
/// and shows nothing where it is not.
pub proof fn unlocks_show_progress_on_demand(
    mode: u8,
    bytes: &[u8],
    key: &Key,
    manifest: Seq<u8>,
    quiet: Job,
    loud: Job,
)
    requires
        call_ensures(decrypt_folder, (mode, bytes, key), Ok::<Job, String>(quiet)),
        call_ensures(decrypt_folder_with_progress, (mode, bytes, key), Ok::<Job, String>(loud)),
        open_manifest(mode, key@, bytes@) == Ok::<Seq<u8>, Seq<char>>(manifest),
    ensures
        silent(quiet@.todo),
        shows_each(loud@.todo, entries_told(mode, manifest).0, entries_told(mode, manifest).1),
{
    lemma_unlock_plan(mode, key@, manifest, numbering(manifest, bytes@), false);
    lemma_unlock_plan(mode, key@, manifest, numbering(manifest, bytes@), true);
}

/// The dialogue and the command line show no progress.
#[verifier::rlimit(30)]
pub proof fn dialogue_and_command_line_are_silent(
    mode: EncryptMode,
    listing: Listing,
    password: &[u8],
    salt: &Salt,
    pw: Option<&str>,
    head: &[u8],
    whole: Vec<u8>,
    body: Vec<u8>,
    a: Job,
    b: Job,
    c: Job,
    e: Job,
)
    requires
        call_ensures(
            lock_with_salt,
            (mode, Ok::<Listing, String>(listing), password, salt),
            Started::Going(a),
        ) || call_ensures(
            lock,
            (mode, Ok::<Listing, String>(listing), password),
            Started::Going(a),
        ),
        call_ensures(
            cmd_encrypt,
            (pw, Ok::<Listing, String>(listing)),
            Ok::<Job, String>(b),
        ) || call_ensures(
            cmd_encrypt_simple,
            (pw, Ok::<Listing, String>(listing)),
            Ok::<Job, String>(b),
        ),
        call_ensures(
            unlock,
            (salt, head, Ok::<Vec<u8>, String>(body), password),
            Started::Going(c),
        ),
        call_ensures(
            cmd_decrypt,
            (pw, Ok::<Vec<u8>, String>(whole), Ok::<Vec<u8>, String>(body)),
            Ok::<Job, String>(e),
        ),
    ensures
        silent(a@.todo),
        silent(b@.todo),
        silent(c@.todo),
        silent(e@.todo),
{
    let from = Ok::<Listing, String>(listing);
    let x = choose|x: Seq<u8>| #[trigger]
        lock_started(mode, from, password@, x, Started::Going(a));
    lemma_started(mode, listing, password@, x, a);
    let p = pw_bytes(pw)->Some_0;
    let (other, y) = choose|other: EncryptMode, y: Seq<u8>| #[trigger]
        lock_gives(other, from, p, y, Ok::<Job, String>(b));
    lemma_started(other, listing, p, y, b);
    lemma_unlock_starts(head@[16], body@, password_key(password@, salt@), false, c);
    lemma_unlock_starts(whole@[16], body@, password_key(p, salt_of(whole@)->Ok_0), false, e);
}

proof fn lemma_started(
    mode: EncryptMode,
    listing: Listing,
    password: Seq<u8>,
    salt: Seq<u8>,
    job: Job,
)
    requires
        lock_started(mode, Ok::<Listing, String>(listing), password, salt, Started::Going(job)),
    ensures
        silent(job@.todo),
{
    let key = password_key(password, salt);
    let lm = choose|lm: LockMode| #[trigger] is_lock_job(lm, key, salt, listing@, false, job);
    lemma_lock_job(lm, key, salt, listing@, false, job);
}

proof fn lemma_unlock_starts(mode: u8, bytes: Seq<u8>, key: Seq<u8>, progress: bool, job: Job)
    requires
        unlock_starts(mode, bytes, key, progress, Ok::<Job, String>(job)),
    ensures
        ({
            let manifest = open_manifest(mode, key, bytes)->Ok_0;
            let (m, n) = entries_told(mode, manifest);
            shows_if(progress, job@.todo, m, n)
        }),
{
    let manifest = open_manifest(mode, key, bytes)->Ok_0;
    lemma_unlock_plan(mode, key, manifest, numbering(manifest, bytes), progress);
}

/// The window shows the progress of a lock after each file under the indices 0 and 1; a
/// move lock is done at once, and shows none.
pub proof fn window_shows_locking(
    names: &Vec<String>,
    listing: Listing,
    index: i32,
    password: &[u8],
    salt: &Salt,
    job: Job,
)
    requires
        call_ensures(
            encrypt_with_salt,
            (names, Ok::<Listing, String>(listing), index, password, salt),
            Ok::<Job, String>(job),
        ) || call_ensures(
            encrypt,
            (names, Ok::<Listing, String>(listing), index, password),
            Ok::<Job, String>(job),
        ),
    ensures
        index == 0 || index == 1 ==> shows_each(
            job@.todo,
            listing@.files.len(),
            listing@.files.len(),
        ),
        index != 0 && index != 1 ==> silent(job@.todo),
{
    let lm = if index == 0 {
        LockMode::Full
    } else if index == 1 {
        LockMode::Simple
    } else {
        LockMode::Move
    };
    let (key, other, plan) = choose|key: Seq<u8>, other: Seq<u8>, plan: Seq<Step>| #[trigger]
        is_lock_plan(lm, key, other, listing@, shows_progress(lm), plan) && job_over(
            job,
            plan,
            Action::ShowIcon,
            0,
            key,
        );
    lemma_lock_plan(lm, key, other, listing@, shows_progress(lm), plan);
}

/// The window shows the progress of an unlock after each entry, but that of a move lock
/// only where it takes up an interrupted one.
pub proof fn window_shows_unlocking(
    head: &[u8],
    body: Vec<u8>,
    password: &[u8],
    manifest: Seq<u8>,
    job: Job,
    resumed: Job,
)
    requires
        head@.len() >= 17,
        open_manifest(head@[16], password_key(password@, head@.take(16)), body@) == Ok::<
            Seq<u8>,
            Seq<char>,
        >(manifest),
        call_ensures(
            decrypt,
            (head, Ok::<Vec<u8>, String>(body), password),
            Ok::<Job, String>(job),
        ),
        call_ensures(
            resume,
            (Some(PendingOp::Decrypt), head, Ok::<Vec<u8>, String>(body), password),
            Ok::<(PendingOp, Job), String>((PendingOp::Decrypt, resumed)),
        ),
    ensures
        ({
            let (m, n) = entries_told(head@[16], manifest);
            &&& head@[16] != 2 ==> shows_each(job@.todo, m, n)
            &&& head@[16] == 2 ==> silent(job@.todo)
            &&& shows_each(resumed@.todo, m, n)
        }),
{
    let key = password_key(password@, head@.take(16));
    let from = numbering(manifest, body@);
    lemma_unlock_plan(head@[16], key, manifest, from, true);
    lemma_unlock_plan(head@[16], key, manifest, from, false);
}

/// A lock that the window takes up again shows its progress after each file that it
/// brings into a store.
pub proof fn window_shows_a_lock_taken_up_again(
    head: &[u8],
    body: Vec<u8>,
    password: &[u8],
    manifest: Seq<u8>,
    resumed: Job,
)
    requires
        head@.len() >= 17,
        head@[16] == 1 || head@[16] == 2,
        open_manifest(head@[16], password_key(password@, head@.take(16)), body@) == Ok::<
            Seq<u8>,
            Seq<char>,
        >(manifest),
        call_ensures(
            resume,
            (Some(PendingOp::Encrypt), head, Ok::<Vec<u8>, String>(body), password),
            Ok::<(PendingOp, Job), String>((PendingOp::Encrypt, resumed)),
        ),
    ensures
        ({
            let magic = if head@[16] == 1 {
                Magic::Simple
            } else {
                Magic::Move
            };
            let entries = manifest_says(magic, Reading::Resume, manifest).0;
            let n = named_pairs(entries, entries.len()).len();
            shows_each(resumed@.todo, n, n)
        }),
{
    let magic = if head@[16] == 1 {
        Magic::Simple
    } else {
        Magic::Move
    };
    let store = if head@[16] == 1 {
        Store::Streams
    } else {
        Store::Container
    };
    let entries = manifest_says(magic, Reading::Resume, manifest).0;
    let pairs = named_pairs(entries, entries.len());
    let plan = store_files(store, pairs, true);
    let none = Seq::<Step>::empty();
    let icon = seq![Task::<Seq<char>, Seq<u8>>::Do(Action::ShowIcon)];
    lemma_store_files(store, pairs, true);
    lemma_around(true, none, plan, icon, pairs.len(), pairs.len());
    assert(none + plan + icon =~= plan.push(Task::Do(Action::ShowIcon)));
    assert(resume_plan(head@[16], manifest, true) == Ok::<(Seq<Step>, nat), Seq<char>>((plan, 0)));
    assert(plan[0] is PrepareHost || plan[0] == Task::<Seq<char>, Seq<u8>>::Do(Action::LiftGuard));
}

} // verus!
