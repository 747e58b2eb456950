//! What comes before what, whatever fails.
//!
//! The laws of locking and unlocking speak of a disk that works. Those here speak of
//! any answers at all: whichever actions fail, nothing is touched before the vault is in
//! place, no original is removed before its content is stored, and a vault is not removed
//! by an unlock that fails.

use vstd::prelude::*;

use crate::job::{
    action_of, after, answered, best_effort, initial, lock_steps, removal, remove_dir, remove_file,
    settled, unlock_steps, Act, Action, Answer, Place, State, Step, Store, Task,
};
use crate::manifest::{manifest_says, packed_says, Entry, Magic, Packed, Reading};
use crate::vault::{
    begin_stream_vault, end_stream_vault, fail_if, lock_files, lock_plan, named_pairs, number_due,
    numbers_from, open_entries, put_entries, report, restore, restore_from_store, resume_plan,
    seal_files, store_files, stored_pairs, stream_number, unlock_entries, unlock_plan, write_vault,
    LockMode, Pair, MODE_FULL, MODE_FULL_STREAM, MODE_MOVE, MODE_SIMPLE,
};
use crate::walk::Listed;

verus! {

// ── runs ──

/// The state of a job after some answers.
pub open spec fn state_after(s: State, answers: Seq<Answer>) -> State
    decreases answers.len(),
{
    if answers.len() == 0 {
        s
    } else {
        after(state_after(s, answers.drop_last()), answers.last())
    }
}

/// The action that an answer was given to, unless the job had ended.
pub open spec fn due(s: State, answers: Seq<Answer>, i: int) -> Option<Act> {
    let t = state_after(s, answers.take(i));
    if 0 <= i < answers.len() && t.outcome is None {
        Some(action_of(t.todo[0]))
    } else {
        None
    }
}

/// Was an action performed at a place in a run, and did it succeed?
pub open spec fn succeeded(s: State, answers: Seq<Answer>, i: int, a: Act) -> bool {
    due(s, answers, i) == Some(a) && !(answers[i] is Failed)
}

/// The tasks that take the place of the first one.
pub open spec fn expansion(t: Step, answer: Answer) -> Seq<Step> {
    let there = answer == Answer::Found(true);
    match t {
        Task::Lock { store, rel, name } => if there {
            lock_steps(store, rel, name)
        } else {
            seq![Task::CheckStored { store, rel, name }]
        },
        Task::Unlock { store, rel, name } => if there {
            unlock_steps(store, rel, name)
        } else {
            seq![Task::CheckRestored { rel }]
        },
        Task::PrepareHost => if there {
            Seq::empty()
        } else {
            seq![Task::Do(Action::CreateHost)]
        },
        Task::Clear => match answer {
            Answer::Listed(l) => removal(l),
            _ => Seq::empty(),
        },
        _ => Seq::empty(),
    }
}

/// Does an answer to a task end the job with a failure?
pub open spec fn ends(t: Step, answer: Answer) -> bool {
    match t {
        Task::Do(a) => answer is Failed && !best_effort(a),
        Task::CheckStored { .. } => answer != Answer::Found(true),
        Task::Clear => answer is Failed,
        _ => false,
    }
}

/// The first task of a job that goes on asks for an action.
pub open spec fn ready(s: State) -> bool {
    s.outcome is None ==> s.todo.len() > 0 && !(s.todo[0] is Settle) && !(s.todo[0] is Fail)
}

proof fn lemma_settled(s: State)
    ensures
        ready(settled(s)),
        settled(s).outcome is None ==> {
            &&& s.outcome is None
            &&& s.todo.len() > 0
            &&& if s.todo[0] is Settle {
                settled(s).todo == seq![drop_store(s.todo[0]->Settle_0)] + s.todo.drop_first()
                    && s.lost.len() == 0
            } else {
                settled(s) == s
            }
        },
{
}

proof fn lemma_answered(s: State, answer: Answer)
    requires
        s.outcome is None,
        ready(s),
    ensures
        ends(s.todo[0], answer) ==> answered(s, answer).outcome matches Some(Err(_)),
        !ends(s.todo[0], answer) ==> {
            &&& answered(s, answer).outcome is None
            &&& answered(s, answer).todo == expansion(s.todo[0], answer) + s.todo.drop_first()
        },
{
    assert(Seq::<Step>::empty() + s.todo.drop_first() =~= s.todo.drop_first());
}

proof fn lemma_ready_after(s: State, answers: Seq<Answer>)
    requires
        ready(s),
    ensures
        ready(state_after(s, answers)),
    decreases answers.len(),
{
    if answers.len() > 0 {
        let before = state_after(s, answers.drop_last());
        lemma_ready_after(s, answers.drop_last());
        if before.outcome is None {
            lemma_settled(answered(before, answers.last()));
        }
    }
}

proof fn lemma_due_of_take(s: State, answers: Seq<Answer>, n: int, i: int)
    requires
        0 <= i < n <= answers.len(),
    ensures
        due(s, answers.take(n), i) == due(s, answers, i),
        answers.take(n)[i] == answers[i],
{
    assert(answers.take(n).take(i) =~= answers.take(i));
}

// ── duties ──

/// The task of removing a store.
pub open spec fn drop_store(store: Store) -> Step {
    Task::Do(Action::DropStore(store))
}

/// Is a kind of task held back until a duty is done? `guard` tells the tasks that are
/// held back, `duty` the tasks that stand for the duty, and `done` when an answer has
/// done it. No other task brings in one that is held back, and a task that stands for
/// the duty does it, fails, or leaves it to another.
pub open spec fn holds_back(
    guard: spec_fn(Step) -> bool,
    duty: spec_fn(Step) -> bool,
    done: spec_fn(Act, Answer) -> bool,
) -> bool {
    &&& forall|t: Step| #[trigger] duty(t) ==> !guard(t) && !(t is Settle)
    &&& forall|t: Step, answer: Answer, j: int|
        #![trigger expansion(t, answer)[j]]
        !guard(t) && 0 <= j < expansion(t, answer).len() ==> !guard(expansion(t, answer)[j])
    &&& forall|store: Store| !guard(#[trigger] drop_store(store))
    &&& forall|t: Step, answer: Answer|
        #![trigger ends(t, answer)]
        duty(t) && !done(action_of(t), answer) ==> ends(t, answer) || handed_on(duty, t, answer)
}

/// Does a task leave its duty to one of those that take its place?
pub open spec fn handed_on(duty: spec_fn(Step) -> bool, t: Step, answer: Answer) -> bool {
    exists|j: int|
        0 <= j < expansion(t, answer).len() && duty(#[trigger] expansion(t, answer)[j])
}

/// Does a task that stands for the duty come before all that are held back?
pub open spec fn waits(
    guard: spec_fn(Step) -> bool,
    duty: spec_fn(Step) -> bool,
    todo: Seq<Step>,
) -> bool {
    exists|k: int|
        0 <= k < todo.len() && duty(#[trigger] todo[k]) && (forall|m: int|
            0 <= m <= k ==> !guard(#[trigger] todo[m]))
}

/// Was the duty done?
pub open spec fn fulfilled(
    s: State,
    answers: Seq<Answer>,
    done: spec_fn(Act, Answer) -> bool,
) -> bool {
    exists|j: int|
        0 <= j < answers.len() && (#[trigger] due(s, answers, j) matches Some(a) && done(
            a,
            answers[j],
        ))
}

proof fn lemma_waits_settled(
    guard: spec_fn(Step) -> bool,
    duty: spec_fn(Step) -> bool,
    done: spec_fn(Act, Answer) -> bool,
    s: State,
)
    requires
        holds_back(guard, duty, done),
        waits(guard, duty, s.todo),
        settled(s).outcome is None,
    ensures
        waits(guard, duty, settled(s).todo),
{
    lemma_settled(s);
    let k = choose|k: int|
        0 <= k < s.todo.len() && duty(#[trigger] s.todo[k]) && (forall|m: int|
            0 <= m <= k ==> !guard(#[trigger] s.todo[m]));
    let t = settled(s).todo;
    assert(t[k] == s.todo[k]);
    assert forall|m: int| 0 <= m <= k implies !guard(#[trigger] t[m]) by {
        assert(!guard(s.todo[m]));
        if m > 0 {
            assert(t[m] == s.todo[m]);
        }
    }
}

proof fn lemma_duty_step(
    guard: spec_fn(Step) -> bool,
    duty: spec_fn(Step) -> bool,
    done: spec_fn(Act, Answer) -> bool,
    s: State,
    answer: Answer,
)
    requires
        holds_back(guard, duty, done),
        s.outcome is None,
        ready(s),
        waits(guard, duty, s.todo),
        !done(action_of(s.todo[0]), answer),
        after(s, answer).outcome is None,
    ensures
        waits(guard, duty, after(s, answer).todo),
{
    let k = choose|k: int|
        0 <= k < s.todo.len() && duty(#[trigger] s.todo[k]) && (forall|m: int|
            0 <= m <= k ==> !guard(#[trigger] s.todo[m]));
    let first = s.todo[0];
    let by = expansion(first, answer);
    let a = answered(s, answer);
    lemma_answered(s, answer);
    lemma_settled(a);
    assert(!ends(first, answer));
    assert(!guard(first)) by {
        assert(!guard(s.todo[0]));
    }
    if k == 0 {
        assert(duty(first));
        let j = choose|j: int| 0 <= j < by.len() && duty(#[trigger] by[j]);
        assert(a.todo[j] == by[j]);
        assert forall|m: int| 0 <= m <= j implies !guard(#[trigger] a.todo[m]) by {
            assert(a.todo[m] == by[m]);
        }
        assert(duty(a.todo[j]));
    } else {
        let n = by.len() + k - 1;
        assert(a.todo[n] == s.todo[k]);
        assert forall|m: int| 0 <= m <= n implies !guard(#[trigger] a.todo[m]) by {
            if m < by.len() {
                assert(a.todo[m] == by[m]);
            } else {
                assert(a.todo[m] == s.todo[m - by.len() + 1]);
            }
        }
        assert(duty(a.todo[n]));
    }
    lemma_waits_settled(guard, duty, done, a);
}

proof fn lemma_duty(
    guard: spec_fn(Step) -> bool,
    duty: spec_fn(Step) -> bool,
    done: spec_fn(Act, Answer) -> bool,
    s: State,
    answers: Seq<Answer>,
)
    requires
        holds_back(guard, duty, done),
        ready(s),
        s.outcome is None ==> waits(guard, duty, s.todo),
    ensures
        state_after(s, answers).outcome is None ==> waits(
            guard,
            duty,
            state_after(s, answers).todo,
        ) || fulfilled(s, answers, done),
    decreases answers.len(),
{
    if answers.len() > 0 {
        let n = answers.len() - 1;
        let front = answers.drop_last();
        let before = state_after(s, front);
        lemma_duty(guard, duty, done, s, front);
        lemma_ready_after(s, front);
        assert(answers.take(n) =~= front);
        if state_after(s, answers).outcome is None {
            assert(due(s, answers, n) == Some(action_of(before.todo[0])));
            if fulfilled(s, front, done) {
                let j = choose|j: int|
                    0 <= j < front.len() && (#[trigger] due(s, front, j) matches Some(a) && done(
                        a,
                        front[j],
                    ));
                lemma_due_of_take(s, answers, n, j);
                assert(due(s, answers, j) == due(s, front, j));
            } else if !done(action_of(before.todo[0]), answers.last()) {
                lemma_duty_step(guard, duty, done, before, answers.last());
            }
        }
    }
}

/// A task that is held back only comes up once the duty was done.
proof fn lemma_duty_first(
    guard: spec_fn(Step) -> bool,
    duty: spec_fn(Step) -> bool,
    done: spec_fn(Act, Answer) -> bool,
    s: State,
    answers: Seq<Answer>,
    i: int,
) -> (j: int)
    requires
        holds_back(guard, duty, done),
        ready(s),
        s.outcome is None ==> waits(guard, duty, s.todo),
        due(s, answers, i) is Some,
        guard(state_after(s, answers.take(i)).todo[0]),
    ensures
        0 <= j < i,
        due(s, answers, j) matches Some(a) && done(a, answers[j]),
{
    let front = answers.take(i);
    let t = state_after(s, front);
    lemma_duty(guard, duty, done, s, front);
    lemma_ready_after(s, front);
    if waits(guard, duty, t.todo) {
        let k = choose|k: int|
            0 <= k < t.todo.len() && duty(#[trigger] t.todo[k]) && (forall|m: int|
                0 <= m <= k ==> !guard(#[trigger] t.todo[m]));
        assert(!guard(t.todo[0]));
    }
    let j = choose|j: int|
        0 <= j < front.len() && (#[trigger] due(s, front, j) matches Some(a) && done(a, front[j]));
    lemma_due_of_take(s, answers, i, j);
    j
}

// ── locking ──

/// Actions that touch what is in the folder, or look at it to remove it.
pub open spec fn touches(a: Act) -> bool {
    match a {
        Action::RemoveFile { .. } => true,
        Action::RemoveDir { .. } => true,
        Action::Stash { .. } => true,
        Action::ListTree => true,
        _ => false,
    }
}

spec fn touching(t: Step) -> bool {
    match t {
        Task::Do(a) => touches(a),
        Task::Lock { .. } => true,
        Task::CheckStored { .. } => true,
        Task::Clear => true,
        _ => false,
    }
}

spec fn gathers(t: Step) -> bool {
    t is Clear || t == Step::Do(Action::ListTree)
}

spec fn plain(t: Step) -> bool {
    t is Do && !touching(t)
}

proof fn lemma_seal_files(from: u64, at: nat, files: Seq<Seq<char>>, progress: bool, k: nat)
    requires
        k <= files.len(),
    ensures
        forall|i: int|
            0 <= i < seal_files(from, at, files, progress, k).len() ==> plain(
                #[trigger] seal_files(from, at, files, progress, k)[i],
            ),
        forall|f: int|
            0 <= f < k ==> exists|i: int|
                0 <= i < seal_files(from, at, files, progress, k).len() && #[trigger] seal_files(
                    from,
                    at,
                    files,
                    progress,
                    k,
                )[i] == Task::<Seq<char>, Seq<u8>>::Do(
                    Action::SealFile {
                        rel: #[trigger] files[f],
                        number: stream_number(from, at + f as nat),
                    },
                ),
    decreases k,
{
    if k > 0 {
        let j = (k - 1) as nat;
        lemma_seal_files(from, at, files, progress, j);
        let before = seal_files(from, at, files, progress, j);
        let all = seal_files(from, at, files, progress, k);
        assert(all[before.len() as int] == Task::<Seq<char>, Seq<u8>>::Do(
            Action::SealFile { rel: files[j as int], number: stream_number(from, at + j) },
        ));
        assert forall|f: int| 0 <= f < k implies exists|i: int|
            0 <= i < all.len() && #[trigger] all[i] == Task::<Seq<char>, Seq<u8>>::Do(
                Action::SealFile {
                        rel: #[trigger] files[f],
                        number: stream_number(from, at + f as nat),
                    },
            ) by {
            if f < j {
                let i = choose|i: int|
                    0 <= i < before.len() && #[trigger] before[i] == Task::<
                        Seq<char>,
                        Seq<u8>,
                    >::Do(Action::SealFile { rel: files[f], number: stream_number(from, at + f as nat) });
                assert(all[i] == before[i]);
            }
        }
        assert forall|i: int| 0 <= i < all.len() implies plain(#[trigger] all[i]) by {
            if i < before.len() {
                assert(all[i] == before[i]);
            }
        }
    }
}

proof fn lemma_lock_files(store: Store, pairs: Seq<Pair>, progress: bool, k: nat)
    requires
        k <= pairs.len(),
    ensures
        forall|i: int|
            0 <= i < lock_files(store, pairs, progress, k).len() ==> !gathers(
                #[trigger] lock_files(store, pairs, progress, k)[i],
            ),
        forall|p: int|
            0 <= p < k ==> exists|i: int|
                0 <= i < lock_files(store, pairs, progress, k).len() && #[trigger] lock_files(
                    store,
                    pairs,
                    progress,
                    k,
                )[i] == (Task::<Seq<char>, Seq<u8>>::Lock {
                    store,
                    rel: (#[trigger] pairs[p]).0,
                    name: pairs[p].1,
                }),
    decreases k,
{
    if k > 0 {
        let j = (k - 1) as nat;
        lemma_lock_files(store, pairs, progress, j);
        let before = lock_files(store, pairs, progress, j);
        let all = lock_files(store, pairs, progress, k);
        assert(all[before.len() as int] == (Task::<Seq<char>, Seq<u8>>::Lock {
            store,
            rel: pairs[j as int].0,
            name: pairs[j as int].1,
        }));
        assert forall|p: int| 0 <= p < k implies exists|i: int|
            0 <= i < all.len() && #[trigger] all[i] == (Task::<Seq<char>, Seq<u8>>::Lock {
                store,
                rel: (#[trigger] pairs[p]).0,
                name: pairs[p].1,
            }) by {
            if p < j {
                let i = choose|i: int|
                    0 <= i < before.len() && #[trigger] before[i] == (Task::<
                        Seq<char>,
                        Seq<u8>,
                    >::Lock { store, rel: pairs[p].0, name: pairs[p].1 });
                assert(all[i] == before[i]);
            }
        }
        assert forall|i: int| 0 <= i < all.len() implies !gathers(#[trigger] all[i]) by {
            if i < before.len() {
                assert(all[i] == before[i]);
            }
        }
    }
}

/// Whatever fails, nothing in the folder is touched by a lock before the vault was put
/// into place.
pub proof fn vault_is_in_place_first(
    mode: LockMode,
    salt: Seq<u8>,
    ct: Seq<u8>,
    l: Listed,
    progress: bool,
    answers: Seq<Answer>,
    i: int,
)
    requires
        due(initial(lock_plan(mode, salt, ct, l, progress), 0), answers, i) matches Some(a)
            && touches(a),
    ensures
        exists|j: int|
            0 <= j < i && #[trigger] succeeded(
                initial(lock_plan(mode, salt, ct, l, progress), 0),
                answers,
                j,
                Action::CommitVault,
            ),
{
    let plan = lock_plan(mode, salt, ct, l, progress);
    let s = initial(plan, 0);
    let commit = Task::<Seq<char>, Seq<u8>>::Do(Action::CommitVault);
    let guard = |t: Step| touching(t);
    let duty = |t: Step| t == commit;
    let done = |a: Act, answer: Answer| a == Act::CommitVault && !(answer is Failed);
    assert(plan[0] == Task::<Seq<char>, Seq<u8>>::Do(Action::CreateVault));
    assert(s.todo == plan);
    let k: int = match mode {
        LockMode::Full => 6 + seal_files(
            numbers_from(ct),
            l.dirs.len(),
            l.files,
            progress,
            l.files.len(),
        ).len() as int,
        _ => 4,
    };
    if mode == LockMode::Full {
        let begin = begin_stream_vault(salt, ct);
        let seals = seal_files(numbers_from(ct), l.dirs.len(), l.files, progress, l.files.len());
        lemma_seal_files(numbers_from(ct), l.dirs.len(), l.files, progress, l.files.len());
        assert(plan =~= begin + seals + end_stream_vault());
        assert forall|m: int| 0 <= m <= k implies !guard(#[trigger] plan[m]) by {
            if m < 5 {
                assert(plan[m] == begin[m]);
            } else if m < 5 + seals.len() {
                assert(plan[m] == seals[m - 5]);
            } else {
                assert(plan[m] == end_stream_vault()[m - 5 - seals.len()]);
            }
        }
        assert(plan[k] == end_stream_vault()[1]);
    } else {
        let byte = if mode == LockMode::Simple {
            MODE_SIMPLE
        } else {
            MODE_MOVE
        };
        let written = write_vault(salt, byte, ct);
        assert forall|m: int| 0 <= m <= k implies !guard(#[trigger] plan[m]) by {
            assert(plan[m] == written[m]);
        }
        assert(plan[k] == written[k]);
    }
    assert(duty(plan[k]));
    assert(waits(guard, duty, s.todo));
    lemma_held_back_by_commit(guard, duty, done);
    lemma_ready_after(s, answers.take(i));
    let j = lemma_duty_first(guard, duty, done, s, answers, i);
    assert(succeeded(s, answers, j, Action::CommitVault));
}

proof fn lemma_held_back_by_commit(
    guard: spec_fn(Step) -> bool,
    duty: spec_fn(Step) -> bool,
    done: spec_fn(Act, Answer) -> bool,
)
    requires
        forall|t: Step| #[trigger] guard(t) == touching(t),
        forall|t: Step| #[trigger]
            duty(t) == (t == Task::<Seq<char>, Seq<u8>>::Do(Action::CommitVault)),
        forall|a: Act, answer: Answer| #[trigger]
            done(a, answer) == (a == Act::CommitVault && !(answer is Failed)),
    ensures
        holds_back(guard, duty, done),
{
    assert forall|t: Step, answer: Answer, j: int|
        !guard(t) && 0 <= j < expansion(t, answer).len() implies !guard(
        #[trigger] expansion(t, answer)[j],
    ) by {
        lemma_expansion_of_untouching(t, answer, j);
    }
}

proof fn lemma_expansion_of_untouching(t: Step, answer: Answer, j: int)
    requires
        !touching(t),
        0 <= j < expansion(t, answer).len(),
    ensures
        !touching(expansion(t, answer)[j]),
{
}

/// Was the content of a file just brought into the store, or seen to be there?
pub open spec fn seen_stored(store: Store, pair: Pair, a: Act, answer: Answer) -> bool {
    ||| a == (Act::Stash { store, rel: pair.0, name: pair.1 }) && !(answer is Failed)
    ||| a == Act::Probe(Place::Stored { store, name: pair.1 }) && answer == Answer::Found(true)
}

spec fn stores_pair(store: Store, pair: Pair, t: Step) -> bool {
    ||| t == (Step::Lock { store, rel: pair.0, name: pair.1 })
    ||| t == (Step::CheckStored { store, rel: pair.0, name: pair.1 })
    ||| t == Step::Do(Action::Stash { store, rel: pair.0, name: pair.1 })
}

proof fn lemma_held_back_by_pair(
    guard: spec_fn(Step) -> bool,
    duty: spec_fn(Step) -> bool,
    done: spec_fn(Act, Answer) -> bool,
    store: Store,
    pair: Pair,
)
    requires
        forall|t: Step| #[trigger] guard(t) == gathers(t),
        forall|t: Step| #[trigger] duty(t) == stores_pair(store, pair, t),
        forall|a: Act, answer: Answer| #[trigger]
            done(a, answer) == seen_stored(store, pair, a, answer),
    ensures
        holds_back(guard, duty, done),
{
    assert forall|t: Step, answer: Answer, j: int|
        !guard(t) && 0 <= j < expansion(t, answer).len() implies !guard(
        #[trigger] expansion(t, answer)[j],
    ) by {
        lemma_expansion_of_ungathering(t, answer, j);
    }
    assert forall|t: Step, answer: Answer|
        #![trigger ends(t, answer)]
        duty(t) && !done(action_of(t), answer) implies ends(t, answer) || handed_on(
        duty,
        t,
        answer,
    ) by {
        if t is Lock {
            assert(duty(expansion(t, answer)[0]));
        }
    }
}

proof fn lemma_expansion_of_ungathering(t: Step, answer: Answer, j: int)
    requires
        !gathers(t),
        0 <= j < expansion(t, answer).len(),
    ensures
        !gathers(expansion(t, answer)[j]),
{
}

proof fn lemma_stored_first(
    front: Seq<Step>,
    store: Store,
    pairs: Seq<Pair>,
    progress: bool,
    count: nat,
    answers: Seq<Answer>,
    i: int,
    p: int,
) -> (j: int)
    requires
        0 <= p < pairs.len(),
        forall|m: int| 0 <= m < front.len() ==> plain(#[trigger] front[m]),
        due(initial(front + store_files(store, pairs, progress), count), answers, i) == Some(
            Act::ListTree,
        ),
    ensures
        0 <= j < i,
        due(
            initial(front + store_files(store, pairs, progress), count),
            answers,
            j,
        ) matches Some(a) && seen_stored(store, pairs[p], a, answers[j]),
{
    let pair = pairs[p];
    let all = front + store_files(store, pairs, progress);
    let files = lock_files(store, pairs, progress, pairs.len());
    let s = initial(all, count);
    let guard = |t: Step| gathers(t);
    let duty = |t: Step| stores_pair(store, pair, t);
    let done = |a: Act, answer: Answer| seen_stored(store, pair, a, answer);
    lemma_lock_files(store, pairs, progress, pairs.len());
    let at = choose|at: int|
        0 <= at < files.len() && #[trigger] files[at] == (Task::<Seq<char>, Seq<u8>>::Lock {
            store,
            rel: pairs[p].0,
            name: pairs[p].1,
        });
    let n = front.len() as int;
    let k = n + 2 + at;
    assert forall|m: int| 0 <= m < files.len() implies #[trigger] all[n + 2 + m] == files[m] by {
        assert(all[n + 2 + m] == store_files(store, pairs, progress)[2 + m]);
    }
    assert(all[n] == store_files(store, pairs, progress)[0]);
    assert(all[n + 1] == store_files(store, pairs, progress)[1]);
    assert(n > 0 ==> all[0] == front[0]);
    assert(s.todo == all);
    assert forall|m: int| 0 <= m <= k implies !guard(#[trigger] all[m]) by {
        if m < n {
            assert(all[m] == front[m]);
        } else if m >= n + 2 {
            assert(all[n + 2 + (m - n - 2)] == files[m - n - 2]);
        }
    }
    assert(all[n + 2 + at] == files[at]);
    assert(duty(all[k]));
    lemma_held_back_by_pair(guard, duty, done, store, pair);
    lemma_ready_after(s, answers.take(i));
    lemma_duty_first(guard, duty, done, s, answers, i)
}

/// Where the contents go in a mode that does not encrypt them.
spec fn goes_to(mode: LockMode) -> Store {
    match mode {
        LockMode::Simple => Store::Streams,
        _ => Store::Container,
    }
}

/// Whatever fails, a lock that keeps contents in a store does not gather what is left
/// in the folder, to remove it, before the content of every file was brought into the
/// store or seen to be there.
pub proof fn contents_are_stored_first(
    mode: LockMode,
    salt: Seq<u8>,
    ct: Seq<u8>,
    l: Listed,
    progress: bool,
    answers: Seq<Answer>,
    i: int,
    p: int,
)
    requires
        mode != LockMode::Full,
        0 <= p < l.files.len(),
        due(initial(lock_plan(mode, salt, ct, l, progress), 0), answers, i) == Some(Act::ListTree),
    ensures
        exists|j: int|
            0 <= j < i && (#[trigger] due(
                initial(lock_plan(mode, salt, ct, l, progress), 0),
                answers,
                j,
            ) matches Some(a) && seen_stored(
                match mode {
                    LockMode::Simple => Store::Streams,
                    _ => Store::Container,
                },
                stored_pairs(l.files)[p],
                a,
                answers[j],
            )),
{
    let byte = if mode == LockMode::Simple {
        MODE_SIMPLE
    } else {
        MODE_MOVE
    };
    let front = write_vault(salt, byte, ct);
    let j = lemma_stored_first(
        front,
        goes_to(mode),
        stored_pairs(l.files),
        progress,
        0,
        answers,
        i,
        p,
    );
    assert(due(initial(lock_plan(mode, salt, ct, l, progress), 0), answers, j) is Some);
}

/// The same of finishing an interrupted lock: nothing that is left in the folder is
/// gathered before every content that the manifest names is stored.
pub proof fn resumed_contents_are_stored_first(
    mode: u8,
    manifest: Seq<u8>,
    progress: bool,
    answers: Seq<Answer>,
    i: int,
    p: int,
)
    requires
        mode == MODE_SIMPLE || mode == MODE_MOVE,
        0 <= p < resumed_pairs(mode, manifest).len(),
        resume_plan(mode, manifest, progress) matches Ok(t) && due(
            initial(t.0, t.1),
            answers,
            i,
        ) == Some(Act::ListTree),
    ensures
        resume_plan(mode, manifest, progress) matches Ok(t) && exists|j: int|
            0 <= j < i && (#[trigger] due(initial(t.0, t.1), answers, j) matches Some(a)
                && seen_stored(
                if mode == MODE_SIMPLE {
                    Store::Streams
                } else {
                    Store::Container
                },
                resumed_pairs(mode, manifest)[p],
                a,
                answers[j],
            )),
{
    let front = Seq::<Step>::empty();
    let pairs = resumed_pairs(mode, manifest);
    let store = if mode == MODE_SIMPLE {
        Store::Streams
    } else {
        Store::Container
    };
    let rest = store_files(store, pairs, progress);
    assert(front + rest =~= rest);
    let j = lemma_stored_first(front, store, pairs, progress, 0, answers, i, p);
    assert(due(initial(rest, 0), answers, j) is Some);
}

/// The files that a manifest names, with the names that they are stored under.
pub open spec fn resumed_pairs(mode: u8, manifest: Seq<u8>) -> Seq<Pair> {
    let magic = if mode == MODE_SIMPLE {
        Magic::Simple
    } else {
        Magic::Move
    };
    let entries = manifest_says(magic, Reading::Resume, manifest).0;
    named_pairs(entries, entries.len())
}

/// Whatever fails, full encryption does not gather what is in the folder, to remove
/// it, before every file was encrypted into the vault.
pub proof fn files_are_sealed_first(
    salt: Seq<u8>,
    ct: Seq<u8>,
    l: Listed,
    progress: bool,
    answers: Seq<Answer>,
    i: int,
    f: int,
)
    requires
        0 <= f < l.files.len(),
        due(initial(lock_plan(LockMode::Full, salt, ct, l, progress), 0), answers, i) == Some(
            Act::ListTree,
        ),
    ensures
        exists|j: int|
            0 <= j < i && #[trigger] succeeded(
                initial(lock_plan(LockMode::Full, salt, ct, l, progress), 0),
                answers,
                j,
                Action::SealFile {
                    rel: l.files[f],
                    number: stream_number(numbers_from(ct), l.dirs.len() + f as nat),
                },
            ),
{
    let plan = lock_plan(LockMode::Full, salt, ct, l, progress);
    let s = initial(plan, 0);
    let seal = Act::SealFile {
                    rel: l.files[f],
                    number: stream_number(numbers_from(ct), l.dirs.len() + f as nat),
                };
    let begin = begin_stream_vault(salt, ct);
    let seals = seal_files(numbers_from(ct), l.dirs.len(), l.files, progress, l.files.len());
    let guard = |t: Step| gathers(t);
    let duty = |t: Step| t == Step::Do(seal);
    let done = |a: Act, answer: Answer| a == seal && !(answer is Failed);
    lemma_seal_files(numbers_from(ct), l.dirs.len(), l.files, progress, l.files.len());
    let at = choose|at: int|
        0 <= at < seals.len() && #[trigger] seals[at] == Task::<Seq<char>, Seq<u8>>::Do(
            Action::SealFile {
                    rel: l.files[f],
                    number: stream_number(numbers_from(ct), l.dirs.len() + f as nat),
                },
        );
    assert(plan =~= begin + seals + end_stream_vault());
    assert(plan[0] == begin[0]);
    assert(s.todo == plan);
    let k = 5 + at;
    assert forall|m: int| 0 <= m <= k implies !guard(#[trigger] plan[m]) by {
        if m < 5 {
            assert(plan[m] == begin[m]);
        } else {
            assert(plan[m] == seals[m - 5]);
        }
    }
    assert(plan[k] == seals[at]);
    assert(duty(plan[k]));
    assert(holds_back(guard, duty, done)) by {
        assert forall|t: Step, answer: Answer, j: int|
            !guard(t) && 0 <= j < expansion(t, answer).len() implies !guard(
            #[trigger] expansion(t, answer)[j],
        ) by {
            lemma_expansion_of_ungathering(t, answer, j);
        }
    }
    lemma_ready_after(s, answers.take(i));
    let j = lemma_duty_first(guard, duty, done, s, answers, i);
    assert(succeeded(s, answers, j, seal));
}

// ── unlocking ──

/// Actions that remove what a folder is unlocked from.
pub open spec fn discards(a: Act) -> bool {
    match a {
        Action::DropVault => true,
        Action::DropStore(_) => true,
        Action::Unmark => true,
        _ => false,
    }
}

/// Tasks that neither discard anything nor stand in front of what does.
spec fn spares(t: Step) -> bool {
    match t {
        Task::Do(a) => !discards(a),
        Task::Settle(_) => false,
        _ => true,
    }
}

/// Tasks that cannot fail any more.
spec fn closing(todo: Seq<Step>) -> bool {
    forall|m: int|
        0 <= m < todo.len() ==> ((#[trigger] todo[m]) matches Task::Do(a) && best_effort(a))
}

/// The end of an unlock.
spec fn is_end(todo: Seq<Step>) -> bool {
    let end = seq![
        Task::<Seq<char>, Seq<u8>>::Do(Action::DropVault),
        Task::<Seq<char>, Seq<u8>>::Do(Action::Unmark),
    ];
    ||| todo == end
    ||| todo.len() == 3 && todo[0] is Settle && todo.drop_first() == end
}

/// Tasks with an end of an unlock behind the first `k`, none of which discards
/// anything.
spec fn ends_at(todo: Seq<Step>, k: int) -> bool {
    &&& 0 <= k <= todo.len()
    &&& forall|m: int| 0 <= m < k ==> spares(#[trigger] todo[m])
    &&& is_end(todo.skip(k))
}

/// A job that still spares all, or cannot fail any more.
spec fn careful(s: State) -> bool {
    s.outcome is None ==> closing(s.todo) || exists|k: int| 1 <= k && #[trigger] ends_at(s.todo, k)
}

proof fn lemma_careful_settled(s: State, k: int)
    requires
        s.outcome is None,
        ends_at(s.todo, k),
    ensures
        careful(settled(s)),
{
    lemma_settled(s);
    if settled(s).outcome is None {
        assert(s.todo.skip(0) =~= s.todo);
        if s.todo[0] is Settle {
            assert(k == 0);
            let t = settled(s).todo;
            assert(t =~= seq![drop_store(s.todo[0]->Settle_0)] + s.todo.drop_first());
            assert(closing(t));
        } else if k == 0 {
            assert(closing(s.todo));
        } else {
            assert(ends_at(settled(s).todo, k));
        }
    }
}

proof fn lemma_expansion_spares(t: Step, answer: Answer, j: int)
    requires
        0 <= j < expansion(t, answer).len(),
    ensures
        spares(expansion(t, answer)[j]),
{
    if t is Clear && answer is Listed {
        let l = answer->Listed_0;
        let files = l.files.map_values(|rel: Seq<char>| remove_file(rel));
        if j < files.len() {
            assert(removal(l)[j] == files[j]);
        } else {
            let dirs = crate::sort::path_sort(l.dirs).reverse().map_values(
                |rel: Seq<char>| remove_dir(rel),
            );
            assert(removal(l)[j] == dirs[j - files.len()]);
        }
    }
}

proof fn lemma_careful_step(s: State, answer: Answer)
    requires
        s.outcome is None,
        ready(s),
        careful(s),
    ensures
        careful(after(s, answer)),
        closing(s.todo) ==> !(after(s, answer).outcome matches Some(Err(_))) && (after(
            s,
            answer,
        ).outcome is None ==> closing(after(s, answer).todo)),
{
    let a = answered(s, answer);
    let by = expansion(s.todo[0], answer);
    lemma_answered(s, answer);
    lemma_settled(a);
    if closing(s.todo) {
        assert(s.todo[0] is Do);
        assert(by =~= Seq::empty());
        assert(a.todo =~= s.todo.drop_first());
        assert forall|m: int| 0 <= m < a.todo.len() implies ((#[trigger] a.todo[m]) matches Task::Do(
            x,
        ) && best_effort(x)) by {
            assert(a.todo[m] == s.todo[m + 1]);
        }
        assert(settled(a).outcome is None ==> settled(a) == a);
    } else if !ends(s.todo[0], answer) {
        let k = choose|k: int| 1 <= k && #[trigger] ends_at(s.todo, k);
        let n = by.len() + k - 1;
        assert(a.todo.skip(n) =~= s.todo.skip(k));
        assert forall|m: int| 0 <= m < n implies spares(#[trigger] a.todo[m]) by {
            if m < by.len() {
                lemma_expansion_spares(s.todo[0], answer, m);
                assert(a.todo[m] == by[m]);
            } else {
                assert(a.todo[m] == s.todo[m - by.len() + 1]);
            }
        }
        assert(ends_at(a.todo, n));
        lemma_careful_settled(a, n);
    }
}

proof fn lemma_careful(s: State, answers: Seq<Answer>, i: int)
    requires
        ready(s),
        careful(s),
        0 <= i <= answers.len(),
    ensures
        careful(state_after(s, answers)),
        ({
            let t = state_after(s, answers.take(i));
            t.outcome is None && closing(t.todo) ==> {
                &&& !(state_after(s, answers).outcome matches Some(Err(_)))
                &&& state_after(s, answers).outcome is None ==> closing(
                    state_after(s, answers).todo,
                )
            }
        }),
    decreases answers.len(),
{
    if i == answers.len() {
        assert(answers.take(i) =~= answers);
    }
    if answers.len() > 0 {
        let front = answers.drop_last();
        let before = state_after(s, front);
        lemma_ready_after(s, front);
        if i < answers.len() {
            lemma_careful(s, front, i);
            assert(front.take(i) =~= answers.take(i));
        } else {
            lemma_careful(s, front, front.len() as int);
        }
        if before.outcome is None {
            lemma_careful_step(before, answers.last());
        }
    }
}

/// Do all tasks of a list spare, and does none remove a stream?
spec fn all_spare(todo: Seq<Step>) -> bool {
    forall|m: int|
        0 <= m < todo.len() ==> spares(#[trigger] todo[m]) && !(todo[m] matches Task::Do(
            a,
        ) && a is RemoveStream)
}

proof fn lemma_all_spare_add(a: Seq<Step>, b: Seq<Step>)
    requires
        all_spare(a),
        all_spare(b),
    ensures
        all_spare(a + b),
{
    assert forall|m: int| 0 <= m < (a + b).len() implies spares(#[trigger] (a + b)[m]) && !((a
        + b)[m] matches Task::Do(x) && x is RemoveStream) by {
        if m < a.len() {
            assert((a + b)[m] == a[m]);
        } else {
            assert((a + b)[m] == b[m - a.len()]);
        }
    }
}

proof fn lemma_open_entries_spare(from: Option<u64>, entries: Seq<Entry>, progress: bool, k: nat)
    requires
        k <= entries.len(),
    ensures
        all_spare(open_entries(from, entries, progress, k)),
    decreases k,
{
    if k > 0 {
        let j = (k - 1) as nat;
        lemma_open_entries_spare(from, entries, progress, j);
        let one = crate::vault::open_entry(number_due(from, j), entries[j as int]);
        let told = report(progress, k, entries.len());
        lemma_all_spare_add(open_entries(from, entries, progress, j), one);
        lemma_all_spare_add(open_entries(from, entries, progress, j) + one, told);
    }
}

proof fn lemma_put_entries_spare(
    key: Seq<u8>,
    entries: Seq<Packed>,
    progress: bool,
    total: nat,
    k: nat,
)
    requires
        k <= entries.len(),
    ensures
        all_spare(put_entries(key, entries, progress, total, k)),
    decreases k,
{
    if k > 0 {
        let j = (k - 1) as nat;
        lemma_put_entries_spare(key, entries, progress, total, j);
        let before = put_entries(key, entries, progress, total, j);
        let one = crate::vault::put_entry(key, entries[j as int]);
        let told = report(progress, k, total);
        lemma_all_spare_add(before, one);
        lemma_all_spare_add(before + one, told);
    }
}

proof fn lemma_unlock_entries_spare(
    store: Store,
    entries: Seq<Entry>,
    progress: bool,
    total: nat,
    k: nat,
)
    requires
        k <= entries.len(),
    ensures
        all_spare(unlock_entries(store, entries, progress, total, k)),
    decreases k,
{
    if k > 0 {
        let j = (k - 1) as nat;
        lemma_unlock_entries_spare(store, entries, progress, total, j);
        let before = unlock_entries(store, entries, progress, total, j);
        let one = crate::vault::unlock_entry(store, entries[j as int]);
        let told = report(progress, k, total);
        lemma_all_spare_add(before, one);
        lemma_all_spare_add(before + one, told);
    }
}

/// The tasks of an unlock in front of its end.
spec fn unlock_front(
    mode: u8,
    key: Seq<u8>,
    manifest: Seq<u8>,
    from: Option<u64>,
    progress: bool,
) -> Seq<Step> {
    let all = restore(mode, key, manifest, from, progress);
    seq![Task::Do(Action::Mark(crate::vault::PendingOp::Decrypt))] + if all.len() > 0
        && all.last() is Settle {
        all.drop_last()
    } else {
        all
    }
}

proof fn lemma_restore_from_store_spares(
    store: Store,
    magic: Magic,
    reading: Reading,
    manifest: Seq<u8>,
    progress: bool,
)
    ensures
        restore_from_store(store, magic, reading, manifest, progress).len() > 0,
        restore_from_store(store, magic, reading, manifest, progress).last() is Settle,
        all_spare(restore_from_store(store, magic, reading, manifest, progress).drop_last()),
{
    let (entries, broken) = manifest_says(magic, reading, manifest);
    let total = crate::manifest::announced(magic, manifest);
    let first = unlock_entries(store, entries, progress, total, entries.len());
    lemma_unlock_entries_spare(store, entries, progress, total, entries.len());
    lemma_all_spare_add(first, fail_if(broken));
    assert(restore_from_store(store, magic, reading, manifest, progress).drop_last() =~= first
        + fail_if(broken));
}

proof fn lemma_unlock_front(
    mode: u8,
    key: Seq<u8>,
    manifest: Seq<u8>,
    from: Option<u64>,
    progress: bool,
)
    ensures
        ({
            let front = unlock_front(mode, key, manifest, from, progress);
            let plan = unlock_plan(mode, key, manifest, from, progress);
            &&& all_spare(front)
            &&& front.len() > 0
            &&& ends_at(plan, front.len() as int)
            &&& plan.take(front.len() as int) == front
        }),
{
    let all = restore(mode, key, manifest, from, progress);
    let front = unlock_front(mode, key, manifest, from, progress);
    let plan = unlock_plan(mode, key, manifest, from, progress);
    let mark = seq![
        Task::<Seq<char>, Seq<u8>>::Do(Action::Mark(crate::vault::PendingOp::Decrypt)),
    ];
    let end = seq![
        Task::<Seq<char>, Seq<u8>>::Do(Action::DropVault),
        Task::<Seq<char>, Seq<u8>>::Do(Action::Unmark),
    ];
    let rest = if all.len() > 0 && all.last() is Settle {
        all.drop_last()
    } else {
        all
    };
    assert(all_spare(rest)) by {
        if mode == MODE_FULL_STREAM {
            let (entries, broken) = manifest_says(Magic::Full, Reading::Meta, manifest);
            lemma_open_entries_spare(from, entries, progress, entries.len());
        } else if mode == MODE_FULL {
            let (entries, broken) = packed_says(manifest);
            let total = crate::manifest::announced(Magic::Full, manifest);
            let first = put_entries(key, entries, progress, total, entries.len());
            lemma_put_entries_spare(key, entries, progress, total, entries.len());
            lemma_all_spare_add(first, fail_if(broken));
        } else if mode == MODE_SIMPLE {
            lemma_restore_from_store_spares(
                Store::Streams,
                Magic::Simple,
                Reading::Streams,
                manifest,
                progress,
            );
        } else if mode == MODE_MOVE {
            lemma_restore_from_store_spares(
                Store::Container,
                Magic::Move,
                Reading::Container,
                manifest,
                progress,
            );
            let from = restore_from_store(
                Store::Container,
                Magic::Move,
                Reading::Container,
                manifest,
                progress,
            );
            let lift = seq![Task::<Seq<char>, Seq<u8>>::Do(Action::LiftGuard)];
            lemma_all_spare_add(lift, from.drop_last());
            assert((lift + from).drop_last() =~= lift + from.drop_last());
        }
    }
    lemma_all_spare_add(mark, rest);
    let k = front.len() as int;
    assert(plan =~= mark + all + end);
    assert(plan.take(k) =~= front);
    assert forall|m: int| 0 <= m < k implies spares(#[trigger] plan[m]) by {
        assert(plan[m] == plan.take(k)[m]);
    }
    if all.len() > 0 && all.last() is Settle {
        assert(plan.skip(k)[0] == all.last());
        assert(plan.skip(k).drop_first() =~= end);
    } else {
        assert(plan.skip(k) =~= end);
    }
}

/// Whatever fails, an unlock that ends with a failure has removed neither the vault nor
/// the store nor the journal.
pub proof fn failed_unlock_keeps_the_vault(
    mode: u8,
    key: Seq<u8>,
    manifest: Seq<u8>,
    from: Option<u64>,
    progress: bool,
    answers: Seq<Answer>,
    i: int,
)
    requires
        state_after(
            initial(unlock_plan(mode, key, manifest, from, progress), 0),
            answers,
        ).outcome matches Some(Err(_)),
    ensures
        due(initial(unlock_plan(mode, key, manifest, from, progress), 0), answers, i) matches Some(a)
            ==> !discards(a),
{
    let plan = unlock_plan(mode, key, manifest, from, progress);
    let s = initial(plan, 0);
    let front = unlock_front(mode, key, manifest, from, progress);
    lemma_unlock_front(mode, key, manifest, from, progress);
    assert(plan[0] == plan.take(front.len() as int)[0]);
    assert(s.todo == plan);
    if due(s, answers, i) is Some {
        let t = state_after(s, answers.take(i));
        lemma_careful(s, answers, i);
        lemma_careful(s, answers.take(i), i);
        lemma_ready_after(s, answers.take(i));
        assert(!closing(t.todo));
        let k = choose|k: int| 1 <= k && #[trigger] ends_at(t.todo, k);
        assert(spares(t.todo[0]));
    }
}

// ── removing one thing once another is there ──

/// A relation between a task and the one behind it that only says something of some
/// tasks, and of those that they come behind an action that must succeed.
spec fn couples(marked: spec_fn(Step) -> bool, follows: spec_fn(Step, Step) -> bool) -> bool {
    &&& forall|a: Step, b: Step| #![trigger follows(a, b)] !marked(b) ==> follows(a, b)
    &&& forall|a: Step, b: Step|
        #![trigger follows(a, b)]
        marked(b) && follows(a, b) ==> (a matches Task::Do(x) && !best_effort(x))
}

/// Does every task follow the one before it?
spec fn in_line(follows: spec_fn(Step, Step) -> bool, todo: Seq<Step>) -> bool {
    forall|m: int| 1 <= m < todo.len() ==> follows(todo[m - 1], #[trigger] todo[m])
}

/// Are the tasks that take the place of a task in line, with none that says something
/// at their head?
spec fn orderly(
    marked: spec_fn(Step) -> bool,
    follows: spec_fn(Step, Step) -> bool,
    t: Step,
    answer: Answer,
) -> bool {
    &&& in_line(follows, expansion(t, answer))
    &&& expansion(t, answer).len() > 0 ==> !marked(expansion(t, answer)[0])
}

proof fn lemma_line_step(
    marked: spec_fn(Step) -> bool,
    follows: spec_fn(Step, Step) -> bool,
    s: State,
    answer: Answer,
)
    requires
        couples(marked, follows),
        forall|store: Store| !marked(#[trigger] drop_store(store)),
        s.outcome is None,
        ready(s),
        in_line(follows, s.todo),
        orderly(marked, follows, s.todo[0], answer),
    ensures
        after(s, answer).outcome is None ==> {
            &&& in_line(follows, after(s, answer).todo)
            &&& marked(after(s, answer).todo[0]) ==> follows(
                s.todo[0],
                after(s, answer).todo[0],
            ) && !(answer is Failed)
        },
{
    let first = s.todo[0];
    let by = expansion(first, answer);
    let a = answered(s, answer);
    lemma_answered(s, answer);
    lemma_settled(a);
    if after(s, answer).outcome is None {
        let n = by.len() as int;
        assert forall|m: int| 1 <= m < a.todo.len() implies follows(
            a.todo[m - 1],
            #[trigger] a.todo[m],
        ) by {
            if m < n {
                assert(a.todo[m] == by[m]);
                assert(a.todo[m - 1] == by[m - 1]);
            } else {
                assert(a.todo[m] == s.todo[m - n + 1]);
                assert(follows(s.todo[m - n], s.todo[m - n + 1]));
                if m > n {
                    assert(a.todo[m - 1] == s.todo[m - n]);
                } else {
                    assert(marked(s.todo[1]) ==> first is Do);
                    assert(follows(a.todo[m - 1], s.todo[1]) || marked(s.todo[1]));
                }
            }
        }
        assert(in_line(follows, a.todo));
        if n == 0 {
            assert(a.todo[0] == s.todo[1]);
            assert(follows(first, s.todo[1]));
        } else {
            assert(a.todo[0] == by[0]);
        }
        let t = settled(a).todo;
        if a.todo[0] is Settle {
            assert(t[0] == drop_store(a.todo[0]->Settle_0));
            assert forall|m: int| 1 <= m < t.len() implies follows(t[m - 1], #[trigger] t[m]) by {
                assert(t[m] == a.todo[m]);
                assert(follows(a.todo[m - 1], a.todo[m]));
                if m > 1 {
                    assert(t[m - 1] == a.todo[m - 1]);
                } else {
                    assert(follows(t[0], t[1]) || marked(t[1]));
                }
            }
        }
    }
}

proof fn lemma_line(
    marked: spec_fn(Step) -> bool,
    follows: spec_fn(Step, Step) -> bool,
    s: State,
    answers: Seq<Answer>,
)
    requires
        couples(marked, follows),
        forall|store: Store| !marked(#[trigger] drop_store(store)),
        ready(s),
        s.outcome is None ==> in_line(follows, s.todo) && !marked(s.todo[0]),
        forall|j: int|
            #![trigger answers[j]]
            0 <= j < answers.len() && state_after(s, answers.take(j)).outcome is None ==> orderly(
                marked,
                follows,
                state_after(s, answers.take(j)).todo[0],
                answers[j],
            ),
    ensures
        state_after(s, answers).outcome is None ==> {
            let t = state_after(s, answers).todo;
            let n = answers.len() - 1;
            &&& in_line(follows, t)
            &&& marked(t[0]) ==> {
                &&& n >= 0
                &&& state_after(s, answers.take(n)).outcome is None
                &&& follows(state_after(s, answers.take(n)).todo[0], t[0])
                &&& !(answers[n] is Failed)
            }
        },
    decreases answers.len(),
{
    if answers.len() > 0 {
        let n = answers.len() - 1;
        let front = answers.drop_last();
        let before = state_after(s, front);
        assert forall|j: int|
            #![trigger front[j]]
            0 <= j < front.len() && state_after(s, front.take(j)).outcome is None implies orderly(
            marked,
            follows,
            state_after(s, front.take(j)).todo[0],
            front[j],
        ) by {
            assert(front.take(j) =~= answers.take(j));
            assert(front[j] == answers[j]);
        }
        lemma_line(marked, follows, s, front);
        lemma_ready_after(s, front);
        assert(answers.take(n) =~= front);
        assert(answers[n] == answers.last());
        if before.outcome is None {
            lemma_line_step(marked, follows, before, answers.last());
        }
    }
}

/// Was the file of a stream brought back at a place in a run?
pub open spec fn fetched_at(s: State, answers: Seq<Answer>, i: int, name: Seq<char>) -> bool {
    &&& 0 <= i < answers.len()
    &&& !(answers[i] is Failed)
    &&& due(s, answers, i) matches Some(Action::Fetch { store, name: n, .. })
    &&& store == Store::Streams
    &&& n == name
}

/// Was a file copied into its stream at a place in a run?
pub open spec fn copied_at(s: State, answers: Seq<Answer>, i: int, rel: Seq<char>) -> bool {
    &&& 0 <= i < answers.len()
    &&& !(answers[i] is Failed)
    &&& due(s, answers, i) matches Some(Action::Stash { store, rel: r, .. })
    &&& store == Store::Streams
    &&& r == rel
}

spec fn removes_stream(t: Step) -> bool {
    t matches Task::Do(a) && a is RemoveStream
}

spec fn removes_fetched(before: Step, t: Step) -> bool {
    match t {
        Task::Do(Action::RemoveStream { name }) => match before {
            Task::Do(Action::Fetch { store, name: n, .. }) => store == Store::Streams && n == name,
            _ => false,
        },
        _ => true,
    }
}

spec fn removes_file(t: Step) -> bool {
    t matches Task::Do(a) && a is RemoveFile
}

spec fn removes_copied(before: Step, t: Step) -> bool {
    match t {
        Task::Do(Action::RemoveFile { rel }) => match before {
            Task::Do(Action::Stash { store, rel: r, .. }) => store == Store::Streams && r == rel,
            _ => false,
        },
        _ => true,
    }
}

proof fn lemma_removal_steps(l: Listed, j: int)
    requires
        0 <= j < removal(l).len(),
    ensures
        removal(l)[j] matches Task::Do(a) && (a is RemoveFile || a is RemoveDir),
{
    let files = l.files.map_values(|rel: Seq<char>| remove_file(rel));
    let dirs = crate::sort::path_sort(l.dirs).reverse().map_values(
        |rel: Seq<char>| remove_dir(rel),
    );
    if j < files.len() {
        assert(removal(l)[j] == files[j]);
    } else {
        assert(removal(l)[j] == dirs[j - files.len()]);
    }
}

/// Whatever fails, an unlock removes a stream only when the action just before has
/// brought its file back.
pub proof fn stream_is_removed_once_it_is_back(
    mode: u8,
    key: Seq<u8>,
    manifest: Seq<u8>,
    from: Option<u64>,
    progress: bool,
    answers: Seq<Answer>,
    i: int,
    name: Seq<char>,
)
    requires
        due(initial(unlock_plan(mode, key, manifest, from, progress), 0), answers, i) == Some(
            Act::RemoveStream { name },
        ),
    ensures
        fetched_at(
            initial(unlock_plan(mode, key, manifest, from, progress), 0),
            answers,
            i - 1,
            name,
        ),
{
    let plan = unlock_plan(mode, key, manifest, from, progress);
    let s = initial(plan, 0);
    let front = unlock_front(mode, key, manifest, from, progress);
    let n = front.len() as int;
    let marked = |t: Step| removes_stream(t);
    let follows = |a: Step, b: Step| removes_fetched(a, b);
    lemma_unlock_front(mode, key, manifest, from, progress);
    assert(plan[0] == plan.take(n)[0]);
    assert(s.todo == plan);
    assert forall|m: int| 0 <= m < plan.len() implies !removes_stream(#[trigger] plan[m]) by {
        if m < n {
            assert(plan[m] == plan.take(n)[m]);
        } else {
            assert(plan[m] == plan.skip(n)[m - n]);
            let rest = plan.skip(n);
            if rest.len() == 3 && m > n {
                assert(rest[m - n] == rest.drop_first()[m - n - 1]);
            }
        }
    }
    let taken = answers.take(i);
    assert forall|t: Step, answer: Answer| #[trigger] orderly(marked, follows, t, answer) by {
        if t is Clear && answer is Listed {
            assert forall|j: int| 0 <= j < expansion(t, answer).len() implies !removes_stream(
                #[trigger] expansion(t, answer)[j],
            ) by {
                lemma_removal_steps(answer->Listed_0, j);
            }
        }
    }
    lemma_line(marked, follows, s, taken);
    lemma_ready_after(s, taken);
    let t = state_after(s, taken);
    assert(removes_stream(t.todo[0]));
    assert(taken.take(i - 1) =~= answers.take(i - 1));
    assert(taken[i - 1] == answers[i - 1]);
}

/// Whatever fails, simple encryption removes an original, before it gathers what is
/// left, only when the action just before has copied it into its stream.
pub proof fn original_is_removed_once_it_is_copied(
    salt: Seq<u8>,
    ct: Seq<u8>,
    l: Listed,
    progress: bool,
    answers: Seq<Answer>,
    i: int,
    rel: Seq<char>,
)
    requires
        due(initial(lock_plan(LockMode::Simple, salt, ct, l, progress), 0), answers, i) == Some(
            Act::RemoveFile { rel },
        ),
        forall|j: int|
            0 <= j < i ==> #[trigger] due(
                initial(lock_plan(LockMode::Simple, salt, ct, l, progress), 0),
                answers,
                j,
            ) != Some(Act::ListTree),
    ensures
        copied_at(
            initial(lock_plan(LockMode::Simple, salt, ct, l, progress), 0),
            answers,
            i - 1,
            rel,
        ),
{
    let plan = lock_plan(LockMode::Simple, salt, ct, l, progress);
    let s = initial(plan, 0);
    let pairs = stored_pairs(l.files);
    let written = write_vault(salt, MODE_SIMPLE, ct);
    let files = lock_files(Store::Streams, pairs, progress, pairs.len());
    let stored = store_files(Store::Streams, pairs, progress);
    let marked = |t: Step| removes_file(t);
    let follows = |a: Step, b: Step| removes_copied(a, b);
    assert(plan =~= written + stored);
    assert(plan[0] == written[0]);
    assert(s.todo == plan);
    lemma_lock_files_remove_nothing(Store::Streams, pairs, progress, pairs.len());
    assert forall|m: int| 0 <= m < plan.len() implies !removes_file(#[trigger] plan[m]) by {
        if m < written.len() {
            assert(plan[m] == written[m]);
        } else {
            let k = m - written.len();
            assert(plan[m] == stored[k]);
            if 2 <= k < 2 + files.len() {
                assert(stored[k] == files[k - 2]);
            }
        }
    }
    let taken = answers.take(i);
    assert forall|j: int|
        #![trigger taken[j]]
        0 <= j < taken.len() && state_after(s, taken.take(j)).outcome is None implies orderly(
        marked,
        follows,
        state_after(s, taken.take(j)).todo[0],
        taken[j],
    ) by {
        assert(taken.take(j) =~= answers.take(j));
        assert(due(s, answers, j) != Some(Act::ListTree));
    }
    lemma_line(marked, follows, s, taken);
    lemma_ready_after(s, taken);
    let t = state_after(s, taken);
    assert(removes_file(t.todo[0]));
    assert(taken.take(i - 1) =~= answers.take(i - 1));
    assert(taken[i - 1] == answers[i - 1]);
}

proof fn lemma_lock_files_remove_nothing(store: Store, pairs: Seq<Pair>, progress: bool, k: nat)
    requires
        k <= pairs.len(),
    ensures
        forall|i: int|
            0 <= i < lock_files(store, pairs, progress, k).len() ==> !removes_file(
                #[trigger] lock_files(store, pairs, progress, k)[i],
            ),
    decreases k,
{
    if k > 0 {
        let j = (k - 1) as nat;
        lemma_lock_files_remove_nothing(store, pairs, progress, j);
        let before = lock_files(store, pairs, progress, j);
        let all = lock_files(store, pairs, progress, k);
        assert forall|i: int| 0 <= i < all.len() implies !removes_file(#[trigger] all[i]) by {
            if i < before.len() {
                assert(all[i] == before[i]);
            }
        }
    }
}

} // verus!
