//! What a job makes of what it is told: which failures stop it, which files it counts,
//! and what it asks for next.

use vstd::prelude::*;

use crate::job::{
    act_view, listing_text, loss_message, settled, Act, Action, Job, Place, Reply, State, Step,
    Store, Task,
};
use crate::text::{decimal, holds, holds_at};

verus! {

/// The actions whose failure stops nothing: those on the journal, on what is left of the
/// originals, on attributes, on what is no longer needed, on the progress and on the
/// icon.
pub open spec fn minor(a: Act) -> bool {
    ||| a is Mark
    ||| a is Unmark
    ||| a is RemoveFile
    ||| a is RemoveDir
    ||| a is RemoveStream
    ||| a is HideHost
    ||| a is LiftGuard
    ||| a is GuardData
    ||| a is DropStore
    ||| a is DropVault
    ||| a is Report
    ||| a is ShowIcon
    ||| a is HideIcon
}

/// The actions that deal with the content of a file.
pub open spec fn handles_a_file(a: Act) -> bool {
    a is SealFile || a is Stash || a is Fetch || a is PutFile || a is OpenFile
}

/// A job that goes on with other tasks in place of its first.
pub open spec fn goes_on(a: State, b: State, tasks: Seq<Step>, counted: nat) -> bool {
    b == settled(State { todo: tasks + a.todo.drop_first(), count: a.count + counted, ..a })
}

/// A failure stops a job with its message, unless it is that of a minor action, after
/// which the job goes on as if it had been done.
pub proof fn failures_stop_a_job(job: &mut Job, m: String)
    requires
        old(job).wf(),
        old(job)@.outcome is None,
        call_ensures(Job::reply, (job, Reply::Failed(m)), ()),
    ensures
        ({
            let (a, b) = (old(job)@, final(job)@);
            match a.todo[0] {
                Task::Do(act) => if minor(act) {
                    goes_on(a, b, Seq::empty(), 0)
                } else {
                    b.outcome == Some(Err::<nat, Seq<char>>(m@))
                },
                Task::Clear => b.outcome == Some(Err::<nat, Seq<char>>(m@)),
                _ => true,
            }
        }),
{
    let rest = old(job)@.todo.drop_first();
    assert(Seq::<Step>::empty() + rest =~= rest);
}

/// An action that was done is behind the job, and one that dealt with the content of a
/// file counts it.
pub proof fn handled_files_are_counted(job: &mut Job, act: Act)
    requires
        old(job).wf(),
        old(job)@.outcome is None,
        old(job)@.todo[0] == Task::<Seq<char>, Seq<u8>>::Do(act),
        call_ensures(Job::reply, (job, Reply::Done), ()),
    ensures
        goes_on(
            old(job)@,
            final(job)@,
            Seq::empty(),
            if handles_a_file(act) {
                1
            } else {
                0
            },
        ),
{
    let rest = old(job)@.todo.drop_first();
    assert(Seq::<Step>::empty() + rest =~= rest);
}

/// A file to lock is brought into the store where it is there, and is then removed where
/// the store is a copy; where it is not there, the store has to have it, or the lock
/// fails and names it.
#[verifier::rlimit(30)]
pub proof fn files_to_lock_are_looked_for(
    job: &mut Job,
    store: Store,
    rel: Seq<char>,
    name: Seq<char>,
    there: bool,
)
    requires
        old(job).wf(),
        old(job)@.outcome is None,
        call_ensures(Job::reply, (job, Reply::Found(there)), ()),
    ensures
        old(job)@.todo[0] == (Task::<Seq<char>, Seq<u8>>::Lock { store, rel, name }) ==> {
            let stash = Task::<Seq<char>, Seq<u8>>::Do(Action::Stash { store, rel, name });
            let remove = Task::<Seq<char>, Seq<u8>>::Do(Action::RemoveFile { rel });
            goes_on(
                old(job)@,
                final(job)@,
                if !there {
                    seq![Task::CheckStored { store, rel, name }]
                } else if store == Store::Streams {
                    seq![stash, remove]
                } else {
                    seq![stash]
                },
                0,
            )
        },
        old(job)@.todo[0] == (Task::<Seq<char>, Seq<u8>>::CheckStored { store, rel, name }) ==> if there {
            goes_on(old(job)@, final(job)@, Seq::empty(), 1)
        } else {
            final(job)@.outcome matches Some(Err(e)) && holds(e, rel)
        },
{
    let rest = old(job)@.todo.drop_first();
    assert(Seq::<Step>::empty() + rest =~= rest);
    lemma_end_is_held("源文件与 ADS 均缺失，无法锁定: "@, rel);
    lemma_end_is_held("源文件与容器均缺失，无法锁定: "@, rel);
}

/// A file to unlock is brought back where the store has it, and is then removed from a
/// store that is a copy; where the store does not have it, it counts where it is there
/// already, and is noted as lost where it is not.
#[verifier::rlimit(30)]
pub proof fn files_to_unlock_are_looked_for(
    job: &mut Job,
    store: Store,
    rel: Seq<char>,
    name: Seq<char>,
    there: bool,
)
    requires
        old(job).wf(),
        old(job)@.outcome is None,
        call_ensures(Job::reply, (job, Reply::Found(there)), ()),
    ensures
        old(job)@.todo[0] == (Task::<Seq<char>, Seq<u8>>::Unlock { store, rel, name }) ==> {
            let parents = Task::<Seq<char>, Seq<u8>>::Do(Action::MakeParents { rel });
            let fetch = Task::<Seq<char>, Seq<u8>>::Do(Action::Fetch { store, rel, name });
            let remove = Task::<Seq<char>, Seq<u8>>::Do(Action::RemoveStream { name });
            goes_on(
                old(job)@,
                final(job)@,
                if !there {
                    seq![Task::CheckRestored { rel }]
                } else if store == Store::Streams {
                    seq![parents, fetch, remove]
                } else {
                    seq![parents, fetch]
                },
                0,
            )
        },
        old(job)@.todo[0] == (Task::<Seq<char>, Seq<u8>>::CheckRestored { rel }) ==> if there {
            goes_on(old(job)@, final(job)@, Seq::empty(), 1)
        } else {
            goes_on(
                State { lost: old(job)@.lost.push(rel), ..old(job)@ },
                final(job)@,
                Seq::empty(),
                0,
            )
        },
        old(job)@.todo[0] == Task::<Seq<char>, Seq<u8>>::PrepareHost ==> goes_on(
            old(job)@,
            final(job)@,
            if there {
                Seq::empty()
            } else {
                seq![Task::Do(Action::CreateHost)]
            },
            0,
        ),
{
    let rest = old(job)@.todo.drop_first();
    assert(Seq::<Step>::empty() + rest =~= rest);
}

/// A job asks for the action of its first task until it has an outcome, and the outcome
/// is told as it is.
pub proof fn job_asks_until_it_ends(
    job: &Job,
    a: Option<Action<String, Vec<u8>>>,
    o: Option<Result<usize, String>>,
)
    requires
        job.wf(),
        call_ensures(Job::action, (job,), a),
        call_ensures(Job::outcome, (job,), o),
    ensures
        a is None <==> o is Some,
        a matches Some(act) ==> match job@.todo[0] {
            Task::Do(due) => act_view(act) == due,
            Task::Lock { rel, .. } => act_view(act) == Action::<Seq<char>, Seq<u8>>::Probe(
                Place::File { rel },
            ),
            Task::CheckRestored { rel } => act_view(act) == Action::<Seq<char>, Seq<u8>>::Probe(
                Place::File { rel },
            ),
            Task::Unlock { store, name, .. } => act_view(act) == Action::<
                Seq<char>,
                Seq<u8>,
            >::Probe(Place::Stored { store, name }),
            Task::CheckStored { store, name, .. } => act_view(act) == Action::<
                Seq<char>,
                Seq<u8>,
            >::Probe(Place::Stored { store, name }),
            Task::PrepareHost => act_view(act) == Action::<Seq<char>, Seq<u8>>::Probe(Place::Host),
            Task::Clear => act is ListTree,
            _ => true,
        },
        o matches Some(Ok(n)) ==> job@.outcome == Some(Ok::<nat, Seq<char>>(n as nat)),
        o matches Some(Err(e)) ==> job@.outcome == Some(Err::<nat, Seq<char>>(e@)),
        o is None ==> job@.outcome is None,
{
}

proof fn lemma_end_is_held(front: Seq<char>, end: Seq<char>)
    ensures
        holds(front + end, end),
{
    let text = front + end;
    let at = front.len() as int;
    assert(text.subrange(at, at + end.len()) =~= end);
    assert(holds_at(text, end, at));
}

proof fn lemma_held_in_front(text: Seq<char>, part: Seq<char>, more: Seq<char>)
    requires
        holds(text, part),
    ensures
        holds(text + more, part),
{
    let i = choose|i: int| #[trigger] holds_at(text, part, i);
    let all = text + more;
    assert(all.subrange(i, i + part.len()) =~= text.subrange(i, i + part.len()));
    assert(holds_at(all, part, i));
}

proof fn lemma_listed(list: Seq<Seq<char>>, i: int)
    requires
        0 <= i < list.len(),
    ensures
        holds(listing_text(list), list[i]),
    decreases list.len(),
{
    if list.len() == 1 {
        assert(list[0].subrange(0, list[0].len() as int) =~= list[0]);
        assert(holds_at(list[0], list[0], 0));
    } else if i == list.len() - 1 {
        lemma_end_is_held(listing_text(list.drop_last()) + ", "@, list.last());
    } else {
        lemma_listed(list.drop_last(), i);
        assert(list.drop_last()[i] == list[i]);
        let text = listing_text(list.drop_last());
        assert(listing_text(list) =~= text + (", "@ + list.last()));
        lemma_held_in_front(text, list[i], ", "@ + list.last());
    }
}

/// An unlock that lost files says how many it restored and how many it lost, and names
/// every one of these.
#[verifier::rlimit(30)]
pub proof fn lost_files_are_named(count: nat, lost: Seq<Seq<char>>, i: int)
    requires
        0 <= i < lost.len(),
    ensures
        holds(loss_message(count, lost), lost[i]),
        holds(loss_message(count, lost), decimal(count)),
        holds(loss_message(count, lost), decimal(lost.len())),
{
    let a = "已恢复 "@;
    let b = " 个文件，"@;
    let c = " 个数据已丢失无法恢复: "@;
    let text = loss_message(count, lost);
    let list = listing_text(lost);
    lemma_listed(lost, i);
    let j = choose|j: int| #[trigger] holds_at(list, lost[i], j);
    let front = a + decimal(count) + b + decimal(lost.len()) + c;
    let at = front.len() + j;
    assert(text =~= front + list);
    assert(text.subrange(at, at + lost[i].len()) =~= list.subrange(j, j + lost[i].len()));
    assert(holds_at(text, lost[i], at));
    lemma_end_is_held(a, decimal(count));
    lemma_held_in_front(a + decimal(count), decimal(count), b + decimal(lost.len()) + c + list);
    assert(text =~= a + decimal(count) + (b + decimal(lost.len()) + c + list));
    lemma_end_is_held(a + decimal(count) + b, decimal(lost.len()));
    lemma_held_in_front(
        a + decimal(count) + b + decimal(lost.len()),
        decimal(lost.len()),
        c + list,
    );
    assert(text =~= a + decimal(count) + b + decimal(lost.len()) + (c + list));
}

} // verus!
