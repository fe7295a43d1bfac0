//! The driver of the evaluation machine: a stack of tasks run until none is left,
//! with a cancellation flag polled on a stride.
//!
//! What each task does (evaluating an expression, applying a continuation frame,
//! taking a transition) is outside this module; the machine here decides which task
//! runs next, when the flag is polled, and what the run yields.
use vstd::prelude::*;

verus! {

/// A unit of work of the machine.
pub enum Task<X, F, T> {
    /// Evaluate an expression in an environment.
    Eval(X),
    /// Apply a continuation frame to the values computed so far.
    Apply(F),
    /// Take a direct state transition, which yields one result set.
    Transition(T),
}

/// The state of a run: the stack of pending tasks, the stack of computed result
/// sets, and the count of tasks taken while a cancellation flag is installed.
pub struct Machine<X, F, T, R> {
    pub work: Vec<Task<X, F, T>>,
    pub vals: Vec<R>,
    pub steps: u32,
    pub cancellable: bool,
}

/// The step the machine takes next.
pub enum Next<X, F, T> {
    /// The task to take up. With `poll`, the cancellation flag is checked before
    /// it, and a raised flag ends the run with no results.
    Run { task: Task<X, F, T>, poll: bool },
    /// No task is left: the run is over.
    Done,
}

/// The stride of flag polls: every 1024th task.
pub open spec fn polls_at(steps: u32) -> bool {
    steps & 0x3ff == 0
}

impl<X, F, T, R> Machine<X, F, T, R> {
    /// A run of the expression `root`; `cancellable` when a cancellation flag is
    /// installed on this thread.
    pub fn new(root: X, cancellable: bool) -> (m: Self)
        ensures
            m.work@ == seq![Task::<X, F, T>::Eval(root)],
            m.vals@.len() == 0,
            m.steps == 0,
            m.cancellable == cancellable,
    {
        let mut work: Vec<Task<X, F, T>> = Vec::new();
        work.push(Task::Eval(root));
        Machine { work, vals: Vec::new(), steps: 0, cancellable }
    }

    /// Takes the task on top of the stack. With a flag installed, each task taken
    /// counts one step (wrapping), and a poll is due when the count is a multiple
    /// of 1024.
    pub fn next(&mut self) -> (n: Next<X, F, T>)
        ensures
            final(self).vals@ == old(self).vals@,
            final(self).cancellable == old(self).cancellable,
            old(self).work@.len() == 0 ==> (n is Done && final(self).work@ == old(self).work@
                && final(self).steps == old(self).steps),
            old(self).work@.len() > 0 ==> final(self).work@ == old(self).work@.drop_last(),
            old(self).work@.len() > 0 ==> (n matches Next::Run { task, poll } && task == old(self).work@.last()
                && final(self).steps == (if old(self).cancellable {
                    (if old(self).steps == u32::MAX { 0 } else { (old(self).steps + 1) as u32 })
                } else {
                    old(self).steps
                })
                && poll == (old(self).cancellable && polls_at(final(self).steps))),
    {
        match self.work.pop() {
            None => Next::Done,
            Some(task) => {
                let mut poll = false;
                if self.cancellable {
                    self.steps = self.steps.wrapping_add(1);
                    poll = self.steps & 0x3ff == 0;
                }
                Next::Run { task, poll }
            },
        }
    }

    /// Reacts to the cancellation flag before the task that `next` handed out:
    /// where a poll was due (`poll`) and the flag was found raised (`raised`), the
    /// run ends with no results, so every pending task and computed result set is
    /// dropped and `finish` gives the empty result set. Returns whether the run ended.
    pub fn cancel_if_raised(&mut self, poll: bool, raised: bool) -> (stop: bool)
        ensures
            stop == (poll && raised),
            stop ==> final(self).work@.len() == 0 && final(self).vals@.len() == 0,
            !stop ==> final(self).work@ == old(self).work@ && final(self).vals@ == old(self).vals@,
            final(self).steps == old(self).steps,
            final(self).cancellable == old(self).cancellable,
    {
        if poll && raised {
            self.work = Vec::new();
            self.vals = Vec::new();
            true
        } else {
            false
        }
    }

    /// Queues a task.
    pub fn push_task(&mut self, t: Task<X, F, T>)
        ensures
            final(self).work@ == old(self).work@.push(t),
            final(self).vals@ == old(self).vals@,
            final(self).steps == old(self).steps,
            final(self).cancellable == old(self).cancellable,
    {
        self.work.push(t);
    }

    /// Records the result set of a transition.
    pub fn push_val(&mut self, v: R)
        ensures
            final(self).vals@ == old(self).vals@.push(v),
            final(self).work@ == old(self).work@,
            final(self).steps == old(self).steps,
            final(self).cancellable == old(self).cancellable,
    {
        self.vals.push(v);
    }

    /// The result of the run: the last result set computed, or `None`, which
    /// stands for the empty result set.
    pub fn finish(self) -> (r: Option<R>)
        ensures
            self.vals@.len() == 0 ==> r is None,
            self.vals@.len() > 0 ==> r == Some(self.vals@.last()),
    {
        let mut vals = self.vals;
        vals.pop()
    }
}

/// A nondeterministic stream of results, given in order.
pub struct NDet<A> {
    results: Vec<A>,
}

impl<A> NDet<A> {
    /// The results still to come.
    pub closed spec fn items(&self) -> Seq<A> {
        self.results@
    }

    /// The stream of the given results, in order.
    pub fn stream(results: Vec<A>) -> (s: Self)
        ensures
            s.items() == results@,
    {
        NDet { results }
    }

    /// The results still to come, in order.
    pub fn into_results(self) -> (v: Vec<A>)
        ensures
            v@ == self.items(),
    {
        self.results
    }
}

/// Turns the results of a run (or its error) into a nondeterministic result stream.
pub fn run_as_ndet<A>(results: Result<Vec<A>, String>) -> (r: Result<NDet<A>, String>)
    ensures
        match results {
            Ok(v) => r matches Ok(s) && s.items() == v@,
            Err(e) => r matches Err(e2) && e2 == e,
        },
{
    let results = results?;
    Ok(NDet::stream(results))
}

} // verus!
