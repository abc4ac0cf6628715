//! Wake handles: counted capabilities that make a suspended task ready again.
//!
//! The count lives in the task's own [`EmbedWaker`]. A [`WakeHandle`] names
//! the task; an owned handle stands for one unit of that count, from the
//! duplication that made it to the release that gives it back.
//!
//! Thread affinity is a precondition, not a check: every operation of a
//! handle takes exclusive access to the pool it acts on, so a handle can be
//! used only where that pool is, by the thread that owns the scheduler.
//! Nothing tests this at run time, and a handle is of no use elsewhere.

use vstd::prelude::*;

verus! {

/// What wake handles act on: something that can make a task ready, given
/// the task's identity, and that counts the owned handles of each task.
pub trait EmbedWake: Sized {
    /// Whether `task_id` names a task that can be woken.
    spec fn can_wake(&self, task_id: usize) -> bool;

    /// Whether `after` is this wake target once `task_id` has been woken.
    spec fn woken(&self, task_id: usize, after: &Self) -> bool;

    /// Whether one more handle of `task_id` can be counted.
    spec fn can_duplicate(&self, task_id: usize) -> bool;

    /// Whether `after` is this wake target with one more handle of
    /// `task_id` counted.
    spec fn duplicated(&self, task_id: usize, after: &Self) -> bool;

    /// Whether an owned handle of `task_id` is out and can be taken back.
    spec fn can_release(&self, task_id: usize) -> bool;

    /// Whether `after` is this wake target with one handle of `task_id`
    /// fewer counted.
    spec fn released(&self, task_id: usize, after: &Self) -> bool;

    /// Makes the task ready, unless it already is.
    fn wake(&mut self, task_id: usize)
        requires
            old(self).can_wake(task_id),
        ensures
            old(self).woken(task_id, final(self)),
    ;

    /// Makes an owned handle from a handle of a live task, and counts it.
    fn duplicate(&mut self, handle: &WakeHandle) -> (h: WakeHandle)
        requires
            old(self).can_duplicate(handle@),
        ensures
            h@ == handle@,
            old(self).duplicated(handle@, final(self)),
    ;

    /// Takes an owned handle back.
    fn release(&mut self, handle: WakeHandle)
        requires
            old(self).can_release(handle@),
        ensures
            old(self).released(handle@, final(self)),
    ;
}

/// A capability to wake one task.
#[derive(Debug)]
pub struct WakeHandle {
    task_id: usize,
}

impl View for WakeHandle {
    type V = usize;

    /// The identity of the task that the handle wakes.
    closed spec fn view(&self) -> usize {
        self.task_id
    }
}

impl WakeHandle {
    /// The identity of the task that the handle wakes.
    pub fn task_id(&self) -> (id: usize)
        ensures
            id == self@,
    {
        self.task_id
    }

    /// Whether this handle and `other` wake the same task.
    pub fn will_wake(&self, other: &WakeHandle) -> (b: bool)
        ensures
            b == (self@ == other@),
    {
        self.task_id == other.task_id
    }

    /// Wakes the task and keeps the handle.
    pub fn wake_by_ref<W: EmbedWake>(&self, target: &mut W)
        requires
            old(target).can_wake(self@),
        ensures
            old(target).woken(self@, final(target)),
    {
        target.wake(self.task_id);
    }

    /// Makes an owned handle of the same task.
    pub fn duplicate<W: EmbedWake>(&self, target: &mut W) -> (h: WakeHandle)
        requires
            old(target).can_duplicate(self@),
        ensures
            h@ == self@,
            old(target).duplicated(self@, final(target)),
    {
        target.duplicate(self)
    }

    /// Gives this owned handle back.
    pub fn release<W: EmbedWake>(self, target: &mut W)
        requires
            old(target).can_release(self@),
        ensures
            old(target).released(self@, final(target)),
    {
        target.release(self)
    }
}

/// The wake-handle count embedded in a task. It starts at one, the
/// scheduler's own share; every outstanding owned handle adds one.
#[derive(Debug)]
pub struct EmbedWaker {
    refs: usize,
    task_id: usize,
}

impl EmbedWaker {
    /// The number of shares: one for the scheduler and one for each owned
    /// handle that has not been released.
    pub closed spec fn refs(&self) -> nat {
        self.refs as nat
    }

    /// The identity of the task the waker is embedded in.
    pub closed spec fn id(&self) -> usize {
        self.task_id
    }

    /// The waker of a new task: the scheduler's share only.
    pub fn new(task_id: usize) -> (w: Self)
        ensures
            w.refs() == 1,
            w.id() == task_id,
    {
        EmbedWaker { refs: 1, task_id }
    }

    /// The current count.
    pub fn ref_count(&self) -> (n: usize)
        ensures
            n == self.refs(),
    {
        self.refs
    }

    /// The scheduler's own handle, lent to the task while it runs. It takes
    /// no share of the count and is never released.
    pub fn as_handle(&self) -> (h: WakeHandle)
        ensures
            h@ == self.id(),
    {
        WakeHandle { task_id: self.task_id }
    }

    /// Makes an owned handle and counts it.
    pub fn duplicate(&mut self) -> (h: WakeHandle)
        requires
            old(self).refs() < usize::MAX,
        ensures
            h@ == old(self).id(),
            final(self).id() == old(self).id(),
            final(self).refs() == old(self).refs() + 1,
    {
        self.refs = self.refs + 1;
        WakeHandle { task_id: self.task_id }
    }

    /// Takes an owned handle back. Only the scheduler's share may remain
    /// uncounted, so the count must be above one.
    pub fn release(&mut self, handle: WakeHandle)
        requires
            handle@ == old(self).id(),
            old(self).refs() > 1,
        ensures
            final(self).id() == old(self).id(),
            final(self).refs() == old(self).refs() - 1,
    {
        self.refs = self.refs - 1;
    }
}

} // verus!
