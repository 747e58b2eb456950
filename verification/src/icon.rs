//! The icon behind a plan changes nothing else.
//!
//! The window runs a plan with one more task at its end, which gives the folder its
//! locked look or takes it away. What is proved of a plan holds of such a job too.

use vstd::prelude::*;

use crate::disk::{
    gets_to, keeps_through, lemma_here, lemma_one, lemma_then, perform, run, Disk, World,
};
use crate::job::{
    action_of, after, answered, initial, settled, Act, Action, Answer, Job, State, Step, Task,
};
use crate::logic::job_over;
use crate::order::{due, state_after};

verus! {

/// Is it an action on the folder's icon?
pub open spec fn is_icon(a: Act) -> bool {
    a is ShowIcon || a is HideIcon
}

/// A state that a job can be in: it has tasks left or an outcome, and the outcome of
/// one that succeeded is its count.
pub open spec fn proper(s: State) -> bool {
    match s.outcome {
        None => s.todo.len() > 0,
        Some(Ok(n)) => s.todo.len() == 0 && n == s.count,
        Some(Err(_)) => s.todo.len() == 0,
    }
}

/// The state of a job with the icon behind its plan, while it has not come to the
/// icon.
pub open spec fn with_icon(s: State, icon: Act) -> State {
    match s.outcome {
        None => State { todo: s.todo.push(Task::Do(icon)), ..s },
        Some(Ok(_)) => State { todo: seq![Task::Do(icon)], outcome: None, ..s },
        Some(Err(_)) => s,
    }
}

proof fn lemma_settled(s: State, icon: Act)
    requires
        is_icon(icon),
        s.outcome is None || proper(s),
    ensures
        proper(settled(s)),
        s.outcome is None ==> settled(State { todo: s.todo.push(Task::Do(icon)), ..s }) == with_icon(
            settled(s),
            icon,
        ),
{
    let task = Task::<Seq<char>, Seq<u8>>::Do(icon);
    if s.outcome is None {
        if s.todo.len() == 0 {
            assert(s.todo.push(task) =~= seq![task]);
        } else {
            assert(s.todo.push(task)[0] == s.todo[0]);
            if let Task::Settle(store) = s.todo[0] {
                let drop = seq![Task::<Seq<char>, Seq<u8>>::Do(Action::DropStore(store))];
                assert(drop + s.todo.push(task).drop_first() =~= (drop + s.todo.drop_first()).push(
                    task,
                ));
            }
        }
    }
}

/// A fresh job over a plan is in a proper state, and the icon stands behind it.
proof fn lemma_fresh(plan: Seq<Step>, count: nat, icon: Act)
    requires
        is_icon(icon),
    ensures
        proper(initial(plan, count)),
        initial(plan.push(Task::Do(icon)), count) == with_icon(initial(plan, count), icon),
{
    lemma_settled(State { todo: plan, count, lost: Seq::empty(), outcome: None }, icon);
}

/// An answer has the same effect with the icon behind the plan.
proof fn lemma_after(s: State, icon: Act, answer: Answer)
    requires
        is_icon(icon),
        proper(s),
        s.outcome is None,
    ensures
        proper(after(s, answer)),
        after(with_icon(s, icon), answer) == with_icon(after(s, answer), icon),
{
    let task = Task::<Seq<char>, Seq<u8>>::Do(icon);
    let behind = s.todo.drop_first();
    assert(s.todo.push(task)[0] == s.todo[0]);
    assert(s.todo.push(task).drop_first() =~= behind.push(task));
    assert forall|by: Seq<Step>| #[trigger] (by + behind).push(task) == by + behind.push(task) by {
        assert((by + behind).push(task) =~= by + behind.push(task));
    }
    let t = answered(s, answer);
    let u = answered(with_icon(s, icon), answer);
    assert(t.outcome is None ==> u == State { todo: t.todo.push(task), ..t });
    assert(t.outcome is Some ==> u == t);
    lemma_settled(t, icon);
}

/// Once only the icon is left, whatever comes of it ends the job.
proof fn lemma_icon_ends(s: State, icon: Act, answer: Answer)
    requires
        is_icon(icon),
        proper(s),
        s.outcome matches Some(Ok(_)),
    ensures
        after(with_icon(s, icon), answer) == s,
{
    let t = with_icon(s, icon);
    assert(Seq::<Step>::empty() + t.todo.drop_first() =~= Seq::empty());
    assert(s.todo =~= Seq::empty());
}

proof fn lemma_run_with_icon(
    w: World,
    keeps: spec_fn(Disk) -> bool,
    n: nat,
    s: State,
    d: Disk,
    icon: Act,
)
    requires
        is_icon(icon),
        proper(s),
        run(w, n, s, d).0.outcome is Some,
        keeps_through(w, keeps, n, s, d),
    ensures
        gets_to(w, keeps, with_icon(s, icon), d, run(w, n, s, d).0, run(w, n, s, d).1),
    decreases n,
{
    let t = with_icon(s, icon);
    assert(keeps(d)) by {
        assert(run(w, 0, s, d) == (s, d));
        assert(keeps(run(w, 0, s, d).1));
    }
    match s.outcome {
        Some(Ok(_)) => {
            assert(perform(w, d, icon) == (d, Answer::Done));
            lemma_icon_ends(s, icon, Answer::Done);
            lemma_one(w, keeps, t, d);
        },
        Some(Err(_)) => {
            lemma_here(w, keeps, t, d);
        },
        None => {
            let m = (n - 1) as nat;
            let (next, answer) = perform(w, d, action_of(s.todo[0]));
            let s1 = after(s, answer);
            let (s2, e) = run(w, n, s, d);
            lemma_after(s, icon, answer);
            assert(t.todo[0] == s.todo[0]);
            assert forall|i: nat| i <= m implies keeps((#[trigger] run(w, i, s1, next)).1) by {
                assert(run(w, i + 1, s, d) == run(w, i, s1, next));
            }
            assert(keeps(next)) by {
                assert(run(w, 0, s1, next) == (s1, next));
                assert(keeps(run(w, 0, s1, next).1));
            }
            lemma_one(w, keeps, t, d);
            lemma_run_with_icon(w, keeps, m, s1, next, icon);
            lemma_then(w, keeps, t, d, with_icon(s1, icon), next, s2, e);
        },
    }
}

/// A job with the icon behind its plan ends as a job over the plan alone does: with
/// the same outcome and the same count, on the same disk, which satisfies the same
/// condition all the way.
pub proof fn icon_changes_nothing(
    w: World,
    keeps: spec_fn(Disk) -> bool,
    plan: Seq<Step>,
    count: nat,
    icon: Act,
    d: Disk,
    s2: State,
    e: Disk,
)
    requires
        is_icon(icon),
        gets_to(w, keeps, initial(plan, count), d, s2, e),
        s2.outcome is Some,
    ensures
        gets_to(w, keeps, initial(plan.push(Task::Do(icon)), count), d, s2, e),
{
    let s = initial(plan, count);
    let n = choose|n: nat|
        #![trigger run(w, n, s, d)]
        run(w, n, s, d) == (s2, e) && keeps_through(w, keeps, n, s, d);
    lemma_fresh(plan, count, icon);
    lemma_run_with_icon(w, keeps, n, s, d, icon);
}

/// A job of the window ends as its plan does: what the laws of locking and unlocking
/// say of a plan holds of the job.
pub proof fn window_job_ends_as_its_plan(
    w: World,
    keeps: spec_fn(Disk) -> bool,
    job: Job,
    plan: Seq<Step>,
    icon: Act,
    count: nat,
    key: Seq<u8>,
    d: Disk,
    s2: State,
    e: Disk,
)
    requires
        is_icon(icon),
        job_over(job, plan, icon, count, key),
        gets_to(w, keeps, initial(plan, count), d, s2, e),
        s2.outcome is Some,
    ensures
        gets_to(w, keeps, job@, d, s2, e),
{
    icon_changes_nothing(w, keeps, plan, count, icon, d, s2, e);
}

proof fn lemma_states_with_icon(s: State, icon: Act, answers: Seq<Answer>)
    requires
        is_icon(icon),
        proper(s),
    ensures
        proper(state_after(s, answers)),
        ({
            let t = state_after(s, answers);
            let u = state_after(with_icon(s, icon), answers);
            u == with_icon(t, icon) || (t.outcome is Some && u == t)
        }),
    decreases answers.len(),
{
    if answers.len() > 0 {
        let front = answers.drop_last();
        let t = state_after(s, front);
        lemma_states_with_icon(s, icon, front);
        match t.outcome {
            None => lemma_after(t, icon, answers.last()),
            Some(Ok(_)) => lemma_icon_ends(t, icon, answers.last()),
            Some(Err(_)) => {},
        }
    }
}

/// Whatever comes of the actions, a job with the icon behind its plan performs the
/// actions of the plan, in their order, and the icon at most once the plan has
/// succeeded; an outcome that it has is that of the plan.
pub proof fn icon_comes_last(plan: Seq<Step>, count: nat, icon: Act, answers: Seq<Answer>, i: int)
    requires
        is_icon(icon),
        0 <= i < answers.len(),
    ensures
        ({
            let s = initial(plan, count);
            let t = initial(plan.push(Task::Do(icon)), count);
            &&& due(s, answers, i) is Some ==> due(t, answers, i) == due(s, answers, i)
            &&& due(s, answers, i) is None && due(t, answers, i) is Some ==> due(t, answers, i)
                == Some(icon) && (state_after(s, answers.take(i)).outcome matches Some(Ok(_)))
            &&& state_after(t, answers).outcome is Some ==> state_after(t, answers)
                == state_after(s, answers)
        }),
{
    lemma_fresh(plan, count, icon);
    lemma_states_with_icon(initial(plan, count), icon, answers.take(i));
    lemma_states_with_icon(initial(plan, count), icon, answers);
}

} // verus!
