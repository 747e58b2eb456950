//! What a lock and an unlock do around the files: the order in which the vault is put in
//! place, what is hidden and shown, and that a manifest that is broken costs nothing.

use vstd::prelude::*;

use crate::job::{
    action_of, after, answered, initial, removal, remove_dir, remove_file, settled, Action, Answer,
    Part, State, Step, Store, Task,
};
use crate::manifest::{announced, manifest_says, packed_says, Entry, Magic, Packed, Reading};
use crate::order::{due, state_after};
use crate::sort::path_sort;
use crate::text::le32;
use crate::vault::{
    fail_if, lock_plan, numbers_from, put_entries, put_entry, report, restore, restore_from_store,
    seal_files, store_files, unlock_entries, unlock_entry, unlock_plan, LockMode, Pair, PendingOp,
};
use crate::walk::Listed;

verus! {

// ── around the files ──

/// Does a task remove an original, or move one away?
pub open spec fn takes_originals(t: Step) -> bool {
    t is Lock || t is Clear
}

/// Is the action at this place in the list?
pub open spec fn does_at(todo: Seq<Step>, i: int, a: Action<Seq<char>, Seq<u8>>) -> bool {
    0 <= i < todo.len() && todo[i] == Task::<Seq<char>, Seq<u8>>::Do(a)
}

proof fn lemma_seal_files(from: u64, at: nat, files: Seq<Seq<char>>, progress: bool, k: nat)
    ensures
        forall|i: int|
            0 <= i < seal_files(from, at, files, progress, k).len() ==> !takes_originals(
                #[trigger] seal_files(from, at, files, progress, k)[i],
            ),
    decreases k,
{
    if k > 0 {
        let j = (k - 1) as nat;
        lemma_seal_files(from, at, files, progress, j);
        let before = seal_files(from, at, files, progress, j);
        let todo = seal_files(from, at, files, progress, k);
        assert forall|i: int| 0 <= i < todo.len() implies !takes_originals(#[trigger] todo[i]) by {
            if i < before.len() {
                assert(todo[i] == before[i]);
            }
        }
    }
}

/// The vault is put in place, and the journal marked, before anything is taken from the
/// folder; with full encryption every file was encrypted and the vault flushed before.
pub proof fn vault_is_committed_and_marked_first(
    mode: LockMode,
    salt: Seq<u8>,
    ct: Seq<u8>,
    l: Listed,
    progress: bool,
)
    ensures
        ({
            let todo = lock_plan(mode, salt, ct, l, progress);
            exists|c: int|
                #![trigger does_at(todo, c, Action::CommitVault)]
                does_at(todo, c, Action::CommitVault) && does_at(
                    todo,
                    c + 1,
                    Action::Mark(PendingOp::Encrypt),
                ) && (forall|i: int|
                    0 <= i <= c + 1 ==> !takes_originals(#[trigger] todo[i])) && (mode
                    == LockMode::Full ==> does_at(todo, c - 1, Action::FlushVault) && forall|i: int|
                    c <= i < todo.len() ==> !(#[trigger] todo[i] matches Task::Do(
                        Action::SealFile { .. },
                    )))
        }),
{
    let todo = lock_plan(mode, salt, ct, l, progress);
    if mode == LockMode::Full {
        let mid = seal_files(numbers_from(ct), l.dirs.len(), l.files, progress, l.files.len());
        let m = mid.len() as int;
        lemma_seal_files(numbers_from(ct), l.dirs.len(), l.files, progress, l.files.len());
        assert forall|i: int| 0 <= i <= m + 7 implies !takes_originals(#[trigger] todo[i]) by {
            if 5 <= i < 5 + m {
                assert(todo[i] == mid[i - 5]);
            }
        }
        assert(does_at(todo, m + 6, Action::CommitVault));
        assert(does_at(todo, m + 7, Action::Mark(PendingOp::Encrypt)));
        assert(does_at(todo, m + 5, Action::FlushVault));
    } else {
        assert(does_at(todo, 4, Action::CommitVault));
        assert(does_at(todo, 5, Action::Mark(PendingOp::Encrypt)));
        assert forall|i: int| 0 <= i <= 5 implies !takes_originals(#[trigger] todo[i]) by {}
    }
}

/// The host file is there and hidden before a file goes into a stream of it. The
/// container is made accessible and is there before a file goes into it, and is guarded
/// again once the originals are gone. That holds of a lock and of one that is taken up
/// again.
pub proof fn stores_are_prepared_and_guarded(pairs: Seq<Pair>, progress: bool)
    ensures
        ({
            let todo = store_files(Store::Streams, pairs, progress);
            &&& todo.len() >= 4
            &&& todo[0] is PrepareHost
            &&& does_at(todo, 1, Action::HideHost)
            &&& todo[todo.len() - 2] is Clear
            &&& does_at(todo, todo.len() - 1, Action::Unmark)
        }),
        ({
            let todo = store_files(Store::Container, pairs, progress);
            &&& todo.len() >= 5
            &&& does_at(todo, 0, Action::LiftGuard)
            &&& does_at(todo, 1, Action::CreateData)
            &&& todo[todo.len() - 3] is Clear
            &&& does_at(todo, todo.len() - 2, Action::GuardData)
            &&& does_at(todo, todo.len() - 1, Action::Unmark)
        }),
{
}

/// An unlock marks the journal first of all, and drops the vault and then the journal
/// last of all; that of a move lock makes the container accessible before anything else.
pub proof fn unlock_marks_first_and_drops_last(
    mode: u8,
    key: Seq<u8>,
    manifest: Seq<u8>,
    from: Option<u64>,
    progress: bool,
)
    ensures
        ({
            let todo = unlock_plan(mode, key, manifest, from, progress);
            &&& todo.len() >= 3
            &&& does_at(todo, 0, Action::Mark(PendingOp::Decrypt))
            &&& does_at(todo, todo.len() - 2, Action::DropVault)
            &&& does_at(todo, todo.len() - 1, Action::Unmark)
            &&& mode == 2 && manifest_says(Magic::Move, Reading::Container, manifest).1 is None
                ==> does_at(todo, 1, Action::LiftGuard)
        }),
{
}

// ── a broken manifest ──

/// Can what an unlock needs of a manifest not be read, by the mode byte of its vault?
pub open spec fn is_broken(mode: u8, manifest: Seq<u8>) -> bool {
    if mode == 3 {
        manifest_says(Magic::Full, Reading::Meta, manifest).1 is Some
    } else if mode == 0 {
        packed_says(manifest).1 is Some
    } else if mode == 1 {
        manifest_says(Magic::Simple, Reading::Streams, manifest).1 is Some
    } else if mode == 2 {
        manifest_says(Magic::Move, Reading::Container, manifest).1 is Some
    } else {
        true
    }
}

/// Does a task drop the vault or a store?
spec fn drops(t: Step) -> bool {
    t matches Task::Do(Action::DropVault) || (t matches Task::Do(Action::DropStore(_)))
        || t is Settle
}

spec fn stuck(s: State) -> bool {
    match s.outcome {
        Some(r) => r is Err,
        None => s.todo.len() > 0 && blocked(s.todo),
    }
}

spec fn blocked(todo: Seq<Step>) -> bool {
    exists|k: int| blocked_at(todo, k)
}

spec fn blocked_at(todo: Seq<Step>, k: int) -> bool {
    &&& 0 <= k < todo.len()
    &&& todo[k] is Fail
    &&& forall|i: int| 0 <= i < k ==> !drops(#[trigger] todo[i])
}

proof fn lemma_settled_stuck(s: State)
    requires
        s.outcome is None,
        blocked(s.todo),
    ensures
        stuck(settled(s)),
        settled(s).outcome is None ==> !drops(settled(s).todo[0]),
{
    let k = choose|k: int| blocked_at(s.todo, k);
    if k > 0 {
        assert(!drops(s.todo[0]));
    }
}

proof fn lemma_blocked_behind(front: Seq<Step>, rest: Seq<Step>, k: int)
    requires
        blocked_at(rest, k),
        forall|i: int| 0 <= i < front.len() ==> !drops(#[trigger] front[i]),
    ensures
        blocked(front + rest),
{
    let todo = front + rest;
    let n = front.len() as int;
    assert forall|i: int| 0 <= i < k + n implies !drops(#[trigger] todo[i]) by {
        if i < n {
            assert(todo[i] == front[i]);
        } else {
            assert(todo[i] == rest[i - n]);
        }
    }
    assert(todo[k + n] == rest[k]);
    assert(blocked_at(todo, k + n));
}

#[verifier::rlimit(30)]
proof fn lemma_stuck_after(s: State, answer: Answer)
    requires
        stuck(s),
        s.outcome is None ==> settled(s) == s,
    ensures
        stuck(after(s, answer)),
        after(s, answer).outcome is None ==> settled(after(s, answer)) == after(s, answer),
{
    if s.outcome is None {
        let k = choose|k: int| blocked_at(s.todo, k);
        let rest = s.todo.drop_first();
        let t = answered(s, answer);
        assert(k > 0);
        assert(blocked_at(rest, k - 1)) by {
            assert(rest[k - 1] == s.todo[k]);
            assert forall|i: int| 0 <= i < k - 1 implies !drops(#[trigger] rest[i]) by {
                assert(rest[i] == s.todo[i + 1]);
            }
        }
        assert(!drops(s.todo[0]));
        if t.outcome is None {
            let front = t.todo.take(t.todo.len() - rest.len());
            lemma_front(s, answer);
            assert(t.todo =~= front + rest);
            lemma_blocked_behind(front, rest, k - 1);
            lemma_settled_stuck(t);
        }
    }
}

#[verifier::rlimit(30)]
proof fn lemma_front(s: State, answer: Answer)
    requires
        s.outcome is None,
        s.todo.len() > 0,
        !drops(s.todo[0]),
        !(s.todo[0] is Fail),
        answered(s, answer).outcome is None,
    ensures
        ({
            let t = answered(s, answer).todo;
            let rest = s.todo.drop_first();
            &&& t.len() >= rest.len()
            &&& t.skip(t.len() - rest.len()) == rest
            &&& forall|i: int| 0 <= i < t.len() - rest.len() ==> !drops(#[trigger] t[i])
        }),
{
    let t = answered(s, answer).todo;
    let rest = s.todo.drop_first();
    if let Task::Clear = s.todo[0] {
        if let Answer::Listed(l) = answer {
            let r = removal(l);
            assert forall|i: int| 0 <= i < r.len() implies !drops(#[trigger] r[i]) by {
                if i >= l.files.len() {
                    let dirs = path_sort(l.dirs).reverse();
                    assert(r[i] == remove_dir(dirs[i - l.files.len()]));
                } else {
                    assert(r[i] == remove_file(l.files[i]));
                }
            }
            assert(t =~= r + rest);
        }
    }
    assert(t.skip(t.len() - rest.len()) =~= rest);
}

proof fn lemma_stuck(s: State, answers: Seq<Answer>)
    requires
        stuck(s),
        s.outcome is None ==> settled(s) == s,
    ensures
        stuck(state_after(s, answers)),
        state_after(s, answers).outcome is None ==> settled(state_after(s, answers))
            == state_after(s, answers),
    decreases answers.len(),
{
    if answers.len() > 0 {
        lemma_stuck(s, answers.drop_last());
        lemma_stuck_after(state_after(s, answers.drop_last()), answers.last());
    }
}

spec fn undropping(todo: Seq<Step>) -> bool {
    forall|i: int| 0 <= i < todo.len() ==> !drops(#[trigger] todo[i])
}

proof fn lemma_undropping_add(a: Seq<Step>, b: Seq<Step>)
    requires
        undropping(a),
        undropping(b),
    ensures
        undropping(a + b),
{
    assert forall|i: int| 0 <= i < (a + b).len() implies !drops(#[trigger] (a + b)[i]) by {
        if i < a.len() {
            assert((a + b)[i] == a[i]);
        } else {
            assert((a + b)[i] == b[i - a.len()]);
        }
    }
}

proof fn lemma_put_entries(key: Seq<u8>, entries: Seq<Packed>, progress: bool, total: nat, k: nat)
    ensures
        undropping(put_entries(key, entries, progress, total, k)),
    decreases k,
{
    if k > 0 {
        let j = (k - 1) as nat;
        lemma_put_entries(key, entries, progress, total, j);
        let before = put_entries(key, entries, progress, total, j);
        lemma_undropping_add(before, put_entry(key, entries[k - 1]));
        lemma_undropping_add(before + put_entry(key, entries[k - 1]), report(progress, k, total));
    }
}

proof fn lemma_unlock_entries(
    store: Store,
    entries: Seq<Entry>,
    progress: bool,
    total: nat,
    k: nat,
)
    ensures
        undropping(unlock_entries(store, entries, progress, total, k)),
    decreases k,
{
    if k > 0 {
        let j = (k - 1) as nat;
        lemma_unlock_entries(store, entries, progress, total, j);
        let before = unlock_entries(store, entries, progress, total, j);
        lemma_undropping_add(before, unlock_entry(store, entries[k - 1]));
        lemma_undropping_add(
            before + unlock_entry(store, entries[k - 1]),
            report(progress, k, total),
        );
    }
}

proof fn lemma_from_store(
    store: Store,
    magic: Magic,
    reading: Reading,
    manifest: Seq<u8>,
    progress: bool,
)
    requires
        manifest_says(magic, reading, manifest).1 is Some,
    ensures
        blocked(restore_from_store(store, magic, reading, manifest, progress)),
{
    let (entries, broken) = manifest_says(magic, reading, manifest);
    let n = announced(magic, manifest);
    let mid = unlock_entries(store, entries, progress, n, entries.len());
    let todo = restore_from_store(store, magic, reading, manifest, progress);
    let end = fail_if(broken) + seq![Task::<Seq<char>, Seq<u8>>::Settle(store)];
    lemma_unlock_entries(store, entries, progress, n, entries.len());
    assert(blocked_at(end, 0));
    lemma_blocked_behind(mid, end, 0);
    assert(todo =~= mid + end);
}

#[verifier::rlimit(30)]
proof fn lemma_restore(
    mode: u8,
    key: Seq<u8>,
    manifest: Seq<u8>,
    from: Option<u64>,
    progress: bool,
)
    requires
        is_broken(mode, manifest),
    ensures
        blocked(restore(mode, key, manifest, from, progress)),
{
    let todo = restore(mode, key, manifest, from, progress);
    if mode == 0 {
        let (entries, broken) = packed_says(manifest);
        let n = announced(Magic::Full, manifest);
        let mid = put_entries(key, entries, progress, n, entries.len());
        lemma_put_entries(key, entries, progress, n, entries.len());
        assert(blocked_at(fail_if(broken), 0));
        lemma_blocked_behind(mid, fail_if(broken), 0);
    } else if mode == 1 {
        lemma_from_store(Store::Streams, Magic::Simple, Reading::Streams, manifest, progress);
    } else if mode == 2 {
        lemma_from_store(Store::Container, Magic::Move, Reading::Container, manifest, progress);
        let rest = restore_from_store(
            Store::Container,
            Magic::Move,
            Reading::Container,
            manifest,
            progress,
        );
        if todo.len() == 1 {
            if todo[0] is Fail {
                assert(blocked_at(todo, 0));
            }
        }
        if !(todo[0] is Fail) {
            let k = choose|k: int| blocked_at(rest, k);
            lemma_blocked_behind(seq![Task::Do(Action::LiftGuard)], rest, k);
        } else {
            assert(blocked_at(todo, 0));
        }
    } else {
        assert(todo[0] is Fail);
        assert(blocked_at(todo, 0));
    }
}

/// Whatever comes of its actions, an unlock of a vault whose manifest is broken, or whose
/// mode is not known, drops neither the vault nor a store, and does not succeed.
#[verifier::rlimit(30)]
pub proof fn broken_manifest_costs_nothing(
    mode: u8,
    key: Seq<u8>,
    manifest: Seq<u8>,
    from: Option<u64>,
    progress: bool,
    answers: Seq<Answer>,
    i: int,
)
    requires
        is_broken(mode, manifest),
    ensures
        ({
            let s = initial(unlock_plan(mode, key, manifest, from, progress), 0);
            &&& due(s, answers, i) matches Some(a) ==> a !is DropVault && a !is DropStore
            &&& !(state_after(s, answers).outcome matches Some(Ok(_)))
        }),
{
    let plan = unlock_plan(mode, key, manifest, from, progress);
    let s = initial(plan, 0);
    let mid = restore(mode, key, manifest, from, progress);
    let mark = seq![Task::<Seq<char>, Seq<u8>>::Do(Action::Mark(PendingOp::Decrypt))];
    let end = seq![
        Task::<Seq<char>, Seq<u8>>::Do(Action::DropVault),
        Task::Do(Action::Unmark),
    ];
    lemma_restore(mode, key, manifest, from, progress);
    let k = choose|k: int| blocked_at(mid, k);
    assert(blocked_at(mid + end, k)) by {
        assert((mid + end)[k] == mid[k]);
        assert forall|j: int| 0 <= j < k implies !drops(#[trigger] (mid + end)[j]) by {
            assert((mid + end)[j] == mid[j]);
        }
    }
    lemma_blocked_behind(mark, mid + end, k);
    assert(plan =~= mark + (mid + end));
    assert(s.outcome is None && s.todo == plan);
    lemma_stuck(s, answers);
    lemma_stuck(s, answers.take(i));
    let t = state_after(s, answers.take(i));
    if t.outcome is None {
        let j = choose|j: int| blocked_at(t.todo, j);
        assert(j > 0);
        assert(!drops(t.todo[0]));
        assert(action_of(t.todo[0]) !is DropVault && action_of(t.todo[0]) !is DropStore);
    }
}

// ── the parts of a vault ──

/// Is this part of the vault written at this place in the list?
pub open spec fn writes_at(todo: Seq<Step>, i: int, part: Part, bytes: Seq<u8>) -> bool {
    does_at(todo, i, Action::WriteVault { part, bytes })
}

/// A vault is begun anew and written part by part: the salt, the mode, and then the
/// encrypted manifest, with its length in front where streams follow it.
pub proof fn vault_is_written_part_by_part(
    mode: LockMode,
    salt: Seq<u8>,
    ct: Seq<u8>,
    l: Listed,
    progress: bool,
)
    ensures
        ({
            let todo = lock_plan(mode, salt, ct, l, progress);
            &&& does_at(todo, 0, Action::CreateVault)
            &&& writes_at(todo, 1, Part::Salt, salt)
            &&& match mode {
                LockMode::Full => {
                    &&& writes_at(todo, 2, Part::Mode, seq![3u8])
                    &&& writes_at(todo, 3, Part::MetaLength, le32(ct.len() as int))
                    &&& writes_at(todo, 4, Part::Meta, ct)
                },
                LockMode::Simple => {
                    &&& writes_at(todo, 2, Part::Mode, seq![1u8])
                    &&& writes_at(todo, 3, Part::Manifest, ct)
                },
                LockMode::Move => {
                    &&& writes_at(todo, 2, Part::Mode, seq![2u8])
                    &&& writes_at(todo, 3, Part::Manifest, ct)
                },
            }
        }),
{
}

} // verus!
