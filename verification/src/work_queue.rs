//! The shared queue of directories that scanner workers pull from.
//!
//! The queue decides; the caller that owns the lock and the condition
//! variable acts: it wakes workers when told to and waits when told to.

use vstd::prelude::*;
use std::collections::VecDeque;

verus! {

/// Queue of directories still to scan, with the number of workers busy on
/// an item and whether the scan has been found finished.
pub struct WorkQueue {
    /// Pending directories to scan, oldest first.
    pending: VecDeque<String>,
    /// Number of workers currently processing an item.
    active: usize,
    /// Set once the queue was found empty with no worker active.
    done: bool,
}

/// The mathematical value of a [`WorkQueue`].
pub struct QueueView {
    pub pending: Seq<Seq<char>>,
    pub active: nat,
    pub done: bool,
}

/// What a call of [`WorkQueue::pop`] asks of its caller.
#[derive(Debug, PartialEq, Eq)]
pub enum PopStep {
    /// Work on this directory, then call [`WorkQueue::complete_item`].
    Work(String),
    /// The scan is over: wake every waiting worker and stop.
    Finished,
    /// Nothing to do yet but other workers are busy: wait to be woken,
    /// then call `pop` again.
    Wait,
}

/// The view of a sequence of strings.
pub open spec fn strings_view(s: Seq<String>) -> Seq<Seq<char>> {
    Seq::new(s.len(), |i: int| s[i]@)
}

impl View for WorkQueue {
    type V = QueueView;

    closed spec fn view(&self) -> QueueView {
        QueueView { pending: strings_view(self.pending@), active: self.active as nat, done: self.done }
    }
}

/// The kind of a step, with the directory handed out as characters.
pub enum StepView {
    Work(Seq<char>),
    Finished,
    Wait,
}

/// The view of a step.
pub open spec fn step_view(s: PopStep) -> StepView {
    match s {
        PopStep::Work(p) => StepView::Work(p@),
        PopStep::Finished => StepView::Finished,
        PopStep::Wait => StepView::Wait,
    }
}

/// One decision of the queue: the state after it and the step returned.
/// A finished queue stays finished; otherwise the oldest pending directory
/// is handed out and counted active; an empty queue with no active worker
/// becomes finished; an empty queue with active workers asks to wait.
pub open spec fn pop_step(q: QueueView) -> (QueueView, StepView) {
    if q.done {
        (q, StepView::Finished)
    } else if q.pending.len() > 0 {
        (
            QueueView { pending: q.pending.drop_first(), active: q.active + 1, done: false },
            StepView::Work(q.pending[0]),
        )
    } else if q.active == 0 {
        (QueueView { done: true, ..q }, StepView::Finished)
    } else {
        (q, StepView::Wait)
    }
}

impl WorkQueue {
    /// Creates an empty queue with no active worker.
    pub fn new() -> (q: Self)
        ensures
            q@ == (QueueView { pending: Seq::empty(), active: 0, done: false }),
    {
        let q = WorkQueue { pending: VecDeque::new(), active: 0, done: false };
        assert(q@.pending =~= Seq::<Seq<char>>::empty());
        q
    }

    /// Appends a directory to the back of the queue; the caller then wakes
    /// one waiting worker.
    pub fn push(&mut self, path: String)
        ensures
            final(self)@ == (QueueView { pending: old(self)@.pending.push(path@), ..old(self)@ }),
    {
        let ghost p = path@;
        self.pending.push_back(path);
        assert(self@.pending =~= old(self)@.pending.push(p));
    }

    /// Appends several directories in order and returns how many were
    /// added; the caller wakes that many waiting workers.
    pub fn push_many(&mut self, paths: Vec<String>) -> (added: usize)
        ensures
            added == paths@.len(),
            final(self)@ == (QueueView {
                pending: old(self)@.pending + strings_view(paths@),
                ..old(self)@
            }),
    {
        let n = paths.len();
        assert(strings_view(paths@).len() == n);
        let ghost pv = strings_view(paths@);
        let mut paths = paths;
        let mut rest: Vec<String> = Vec::new();
        // Move the paths out in reverse, then push them back in order.
        while paths.len() > 0
            invariant
                paths@.len() + rest@.len() == n,
                forall|i: int| 0 <= i < paths@.len() ==> #[trigger] paths@[i]@ == pv[i],
                forall|i: int| 0 <= i < rest@.len() ==> #[trigger] rest@[i]@ == pv[n - 1 - i],
            decreases paths@.len(),
        {
            let p = paths.pop().unwrap();
            rest.push(p);
        }
        let ghost start = self@.pending;
        let mut k: usize = 0;
        while rest.len() > 0
            invariant
                rest@.len() + k == n,
                pv.len() == n,
                forall|i: int| 0 <= i < rest@.len() ==> #[trigger] rest@[i]@ == pv[n - 1 - i],
                self@.pending =~= start + pv.take(k as int),
                self@.active == old(self)@.active,
                self@.done == old(self)@.done,
                start == old(self)@.pending,
            decreases rest@.len(),
        {
            let p = rest.pop().unwrap();
            assert(p@ == pv[k as int]);
            let ghost old_pending = self@.pending;
            self.pending.push_back(p);
            assert(self@.pending =~= old_pending.push(pv[k as int]));
            assert(pv.take(k + 1) =~= pv.take(k as int).push(pv[k as int]));
            k = k + 1;
            assert(self@.pending =~= start + pv.take(k as int));
        }
        assert(pv.take(n as int) =~= pv);
        n
    }

    /// Decides the next step of a worker (see [`pop_step`]): hand out the
    /// oldest pending directory, report that the scan is finished, or ask
    /// the worker to wait.
    pub fn pop(&mut self) -> (step: PopStep)
        requires
            old(self)@.active < usize::MAX,
        ensures
            (final(self)@, step_view(step)) == pop_step(old(self)@),
    {
        if self.done {
            return PopStep::Finished;
        }
        let ghost before = self@;
        match self.pending.pop_front() {
            Some(path) => {
                self.active = self.active + 1;
                assert(self@.pending =~= before.pending.drop_first());
                PopStep::Work(path)
            },
            None => {
                if self.active == 0 {
                    self.done = true;
                    PopStep::Finished
                } else {
                    PopStep::Wait
                }
            },
        }
    }

    /// Records that a worker finished the item it was given; the caller
    /// then wakes every waiting worker so they re-check for completion.
    pub fn complete_item(&mut self)
        requires
            old(self)@.active > 0,
        ensures
            final(self)@ == (QueueView { active: (old(self)@.active - 1) as nat, ..old(self)@ }),
    {
        self.active = self.active - 1;
    }

    /// Number of pending directories.
    pub fn pending_len(&self) -> (n: usize)
        ensures
            n == self@.pending.len(),
    {
        self.pending.len()
    }

    /// Number of workers busy on an item.
    pub fn active(&self) -> (n: usize)
        ensures
            n == self@.active,
    {
        self.active
    }
}

/// A finished queue stays finished: every later `pop` reports the end of
/// the scan and changes nothing.
pub proof fn lemma_finished_is_final(q: QueueView)
    requires
        q.done,
    ensures
        pop_step(q) == (q, StepView::Finished),
{
}

/// Directories come out in the order they went in: after pushing `p` onto
/// a queue that is not finished, popping hands out the oldest directory,
/// which is `p` when nothing was pending before.
pub proof fn lemma_fifo(q: QueueView, p: Seq<char>)
    requires
        !q.done,
    ensures
        pop_step(QueueView { pending: q.pending.push(p), ..q }).1 == (if q.pending.len() == 0 {
            StepView::Work(p)
        } else {
            StepView::Work(q.pending[0])
        }),
{
}

/// The scan is reported finished only when nothing is pending and no
/// worker is active, or once it has been so reported.
pub proof fn lemma_finished_only_when_idle(q: QueueView)
    ensures
        pop_step(q).1 is Finished ==> q.done || (q.pending.len() == 0 && q.active == 0),
        pop_step(q).1 is Wait ==> q.pending.len() == 0 && q.active > 0 && !q.done,
{
}

} // verus!
