//! The scheduler: a fixed-capacity pool of tasks, the queue of those that are
//! ready, and the loop that resumes them.

use crate::arena::{Arena, CapacityExceeded};
use crate::list::List;
use crate::waker::{EmbedWake, EmbedWaker, WakeHandle};
use vstd::prelude::*;

verus! {

/// What a continuation reports when it returns from being resumed.
#[derive(Clone, Copy, Debug, PartialEq, Eq, Structural)]
pub enum Step {
    /// It waits for a wake-up and stays in the pool.
    Suspended,
    /// It has run to its end and leaves the pool.
    Done,
}

/// One task as contracts see it.
pub ghost struct TaskView<C> {
    /// The suspended continuation; `None` while the task is being resumed.
    pub cont: Option<C>,
    /// The wake-handle count: one for the scheduler, one per owned handle.
    pub refs: nat,
    /// Whether the task is queued for resumption.
    pub awake: bool,
}

/// The pool as contracts see it.
pub ghost struct TasksView<C> {
    /// The live tasks by identity.
    pub tasks: Map<usize, TaskView<C>>,
    /// The identities queued for resumption, next first.
    pub ready: Seq<usize>,
    /// The configured maximum number of live tasks.
    pub limit: nat,
    /// How many tasks were ever spawned.
    pub spawned: nat,
    /// How many tasks ran to their end and were removed.
    pub completed: nat,
    /// How often a task was taken out of the queue to be resumed.
    pub resumes: nat,
    /// How often the scheduler parked.
    pub parks: nat,
}

impl<C> TasksView<C> {
    /// Whether `id` names a live task.
    pub open spec fn contains(self, id: usize) -> bool {
        self.tasks.dom().contains(id)
    }

    /// Whether `id` names a live task that is being resumed.
    pub open spec fn running(self, id: usize) -> bool {
        self.contains(id) && self.tasks[id].cont is None
    }

    /// Whether no task is being resumed.
    pub open spec fn idle(self) -> bool {
        forall|id: usize| self.contains(id) ==> (#[trigger] self.tasks[id]).cont is Some
    }

    /// What holds of every pool: it is within its limit, a task is queued
    /// exactly when its awake flag is set, and never twice; every count
    /// includes the scheduler's share; every task spawned is live or
    /// completed.
    pub open spec fn inv(self) -> bool {
        &&& self.tasks.dom().finite()
        &&& self.tasks.dom().len() <= self.limit
        &&& self.ready.no_duplicates()
        &&& forall|id: usize|
            #![trigger self.ready.contains(id)]
            #![trigger self.tasks[id]]
            self.ready.contains(id) <==> self.tasks.dom().contains(id) && self.tasks[id].awake
        &&& forall|id: usize| self.tasks.dom().contains(id) ==> (#[trigger] self.tasks[id]).refs >= 1
        &&& self.spawned == self.completed + self.tasks.dom().len()
    }

    /// The pool after `id` was woken: queued at the back if it was not awake,
    /// unchanged if it was.
    pub open spec fn wake(self, id: usize) -> Self {
        if self.tasks[id].awake {
            self
        } else {
            TasksView {
                tasks: self.tasks.insert(id, TaskView { awake: true, ..self.tasks[id] }),
                ready: self.ready.push(id),
                ..self
            }
        }
    }

    /// The pool after a wake handle of `id` was duplicated.
    pub open spec fn duplicate(self, id: usize) -> Self {
        TasksView {
            tasks: self.tasks.insert(
                id,
                TaskView { refs: self.tasks[id].refs + 1, ..self.tasks[id] },
            ),
            ..self
        }
    }

    /// The pool after an owned wake handle of `id` was released.
    pub open spec fn release(self, id: usize) -> Self {
        TasksView {
            tasks: self.tasks.insert(
                id,
                TaskView { refs: (self.tasks[id].refs - 1) as nat, ..self.tasks[id] },
            ),
            ..self
        }
    }

    /// The pool after `cont` was spawned under the identity `id`: the new
    /// task is awake, queued at the back, and counted once.
    pub open spec fn spawn(self, id: usize, cont: C) -> Self {
        TasksView {
            tasks: self.tasks.insert(id, TaskView { cont: Some(cont), refs: 1, awake: true }),
            ready: self.ready.push(id),
            spawned: self.spawned + 1,
            ..self
        }
    }

    /// The pool after the task at the front of the queue was taken out to be
    /// resumed.
    pub open spec fn begin(self) -> Self {
        let id = self.ready[0];
        TasksView {
            tasks: self.tasks.insert(
                id,
                TaskView { cont: None, awake: false, ..self.tasks[id] },
            ),
            ready: self.ready.drop_first(),
            resumes: self.resumes + 1,
            ..self
        }
    }

    /// The pool after the scheduler has parked once more.
    pub open spec fn parked(self) -> Self {
        TasksView { parks: self.parks + 1, ..self }
    }

    /// The pool as it was before `id` was taken out from the front of the
    /// queue: `id` awake again, and first in the queue.
    pub open spec fn requeue(self, id: usize) -> Self {
        TasksView {
            tasks: self.tasks.insert(id, TaskView { awake: true, ..self.tasks[id] }),
            ready: seq![id] + self.ready,
            resumes: (self.resumes - 1) as nat,
            ..self
        }
    }

    /// The pool after the continuation of `id` was put back.
    pub open spec fn suspend(self, id: usize, cont: C) -> Self {
        TasksView {
            tasks: self.tasks.insert(id, TaskView { cont: Some(cont), ..self.tasks[id] }),
            ..self
        }
    }

    /// The queue without `id`.
    pub open spec fn ready_without(self, id: usize) -> Seq<usize> {
        if self.ready.contains(id) {
            self.ready.remove(self.ready.index_of(id))
        } else {
            self.ready
        }
    }

    /// The pool after `id` completed and was removed.
    pub open spec fn finish(self, id: usize) -> Self {
        TasksView {
            tasks: self.tasks.remove(id),
            ready: self.ready_without(id),
            completed: self.completed + 1,
            ..self
        }
    }

    /// Whether every live task is queued for resumption, as after spawning.
    pub open spec fn all_awake(self) -> bool {
        forall|id: usize| self.contains(id) ==> (#[trigger] self.tasks[id]).awake
    }

    /// The pool after every queued task, front first, was taken out, resumed
    /// and removed as `Done`, none of them having acted on the pool.
    pub open spec fn complete_ready(self) -> Self
        decreases self.ready.len(),
    {
        if self.ready.len() == 0 {
            self
        } else {
            let next = self.begin().finish(self.ready[0]);
            if next.ready.len() < self.ready.len() {
                next.complete_ready()
            } else {
                next
            }
        }
    }

    /// The pool with its scheduling state blanked out: who is live, with
    /// which continuation and which count, the limit, and how often the
    /// scheduler has parked. Nothing of the queue, the awake flags or the
    /// other totals is left in it.
    pub open spec fn at_rest(self) -> Self {
        TasksView {
            tasks: Map::new(
                |id: usize| self.tasks.dom().contains(id),
                |id: usize| TaskView { awake: false, ..self.tasks[id] },
            ),
            ready: Seq::empty(),
            limit: self.limit,
            spawned: 0,
            completed: 0,
            resumes: 0,
            parks: self.parks,
        }
    }

    /// What a continuation may do to the pool while it is resumed: spawn new
    /// tasks, wake tasks, duplicate and release wake handles. No task leaves,
    /// no suspended continuation is touched, and nothing is counted but what
    /// was spawned.
    pub open spec fn evolves(self, later: Self) -> bool {
        &&& later.limit == self.limit
        &&& later.spawned >= self.spawned
        &&& later.completed == self.completed
        &&& later.resumes == self.resumes
        &&& later.parks == self.parks
        &&& forall|id: usize|
            self.contains(id) ==> later.contains(id) && (#[trigger] later.tasks[id]).cont
                == self.tasks[id].cont
        &&& forall|id: usize|
            later.contains(id) && !self.contains(id) ==> (#[trigger] later.tasks[id]).cont is Some
    }
}

/// A suspendable unit of work. When resumed it runs until it either waits
/// for a wake-up or has finished; while it runs it may spawn tasks, wake
/// tasks and duplicate or release wake handles through the pool, and act on
/// its environment.
///
/// `E` is what the continuations act on besides the pool, such as a reactor.
pub trait Continuation<E>: Sized {
    /// The kind of what stays fixed in the environment.
    type Fixed;

    /// What of the environment no resume and no park changes.
    spec fn fixed(env: &E) -> Self::Fixed;

    /// What the continuations rely on between resumes, of the environment and
    /// of each other. It is only ever asked of a pool at rest, with every
    /// continuation in its slot.
    spec fn inv(env: &E, tasks: TasksView<Self>) -> bool;

    /// What the continuations keep, of the pool as it is queued, so that a
    /// run comes to its end. Continuations that promise no end say `false`.
    spec fn live(env: &E, tasks: TasksView<Self>) -> bool;

    /// A bound on the steps that a run still takes where `live` holds. Every
    /// resume and every park lowers it.
    spec fn fuel(env: &E, tasks: TasksView<Self>) -> usize;

    /// Runs the continuation once. `waker` is the scheduler's handle of this
    /// task, lent for the call. A continuation that reports `Done` has given
    /// back every owned handle of itself, so that its count is one again.
    fn resume(&mut self, waker: &WakeHandle, tasks: &mut Tasks<Self>, env: &mut E) -> (step: Step)
        requires
            old(tasks).wf(),
            old(tasks)@.running(waker@),
            !old(tasks)@.tasks[waker@].awake,
            old(tasks)@.suspend(waker@, *old(self)).idle(),
            Self::inv(old(env), old(tasks)@.suspend(waker@, *old(self)).at_rest()),
        ensures
            final(tasks).wf(),
            final(tasks).passes() == old(tasks).passes(),
            old(tasks)@.evolves(final(tasks)@),
            Self::fixed(final(env)) == Self::fixed(old(env)),
            step == Step::Suspended ==> Self::inv(
                final(env),
                final(tasks)@.suspend(waker@, *final(self)).at_rest(),
            ),
            step == Step::Done ==> final(tasks)@.tasks[waker@].refs == 1 && Self::inv(
                final(env),
                final(tasks)@.finish(waker@).at_rest(),
            ),
            Self::live(old(env), old(tasks)@.suspend(waker@, *old(self)).requeue(waker@)) ==> {
                let before = old(tasks)@.suspend(waker@, *old(self)).requeue(waker@);
                let after = if step == Step::Done {
                    final(tasks)@.finish(waker@)
                } else {
                    final(tasks)@.suspend(waker@, *final(self))
                };
                Self::live(final(env), after) && Self::fuel(final(env), after) < Self::fuel(
                    old(env),
                    before,
                )
            },
    ;

    /// Waits until the environment has made progress, once, and lets it wake
    /// the tasks it has handles of. The scheduler counts the park when the
    /// call has returned.
    fn park(tasks: &mut Tasks<Self>, env: &mut E)
        requires
            old(tasks).wf(),
            old(tasks)@.idle(),
            old(tasks)@.ready.len() == 0,
            old(tasks)@.tasks.dom().len() > 0,
            Self::inv(old(env), old(tasks)@.at_rest()),
        ensures
            final(tasks).wf(),
            final(tasks).passes() == old(tasks).passes(),
            old(tasks)@.evolves(final(tasks)@),
            Self::fixed(final(env)) == Self::fixed(old(env)),
            Self::inv(final(env), final(tasks)@.parked().at_rest()),
            Self::live(old(env), old(tasks)@) ==> Self::live(final(env), final(tasks)@.parked())
                && Self::fuel(final(env), final(tasks)@.parked()) < Self::fuel(
                old(env),
                old(tasks)@,
            ),
    ;
}

/// A continuation that is made from an argument of type `A`.
pub trait Start<A>: Sized {
    /// Whether `c` is the continuation that `arg` starts.
    spec fn starts(arg: A, c: Self) -> bool;

    /// Makes the continuation. Nothing of it runs before its first resume.
    fn start(arg: A) -> (c: Self)
        ensures
            Self::starts(arg, c),
    ;
}

/// A task in its slot.
pub struct Task<C> {
    cont: Option<Box<C>>,
    waker: EmbedWaker,
    awake: bool,
}

impl<C> Task<C> {
    /// The task as contracts see it.
    pub closed spec fn view(self) -> TaskView<C> {
        TaskView {
            cont: match self.cont {
                Some(b) => Some(*b),
                None => None,
            },
            refs: self.waker.refs(),
            awake: self.awake,
        }
    }
}

/// The pool of tasks with the queue of those that are ready.
pub struct Tasks<C> {
    nodes: Arena<Task<C>>,
    next: List,
    spawned: Ghost<nat>,
    completed: Ghost<nat>,
    resumes: Ghost<nat>,
    parks: Ghost<nat>,
    passes: Ghost<nat>,
}

impl<C> View for Tasks<C> {
    type V = TasksView<C>;

    closed spec fn view(&self) -> TasksView<C> {
        TasksView {
            tasks: Map::new(
                |id: usize| self.nodes@.dom().contains(id),
                |id: usize| self.nodes@[id].view(),
            ),
            ready: self.next@,
            limit: self.nodes.limit(),
            spawned: self.spawned@,
            completed: self.completed@,
            resumes: self.resumes@,
            parks: self.parks@,
        }
    }
}

impl<C> Tasks<C> {
    /// How often the scheduler went through the queue: each call of
    /// `process_next` is one pass. The count is no part of the view, so that
    /// what continuations rely on cannot depend on it.
    pub closed spec fn passes(&self) -> nat {
        self.passes@
    }

    /// Well-formedness: the arena and the queue are consistent, and the
    /// pool's invariant holds.
    pub closed spec fn wf(&self) -> bool {
        &&& self.nodes.wf()
        &&& self.next.wf(self.nodes.links())
        &&& self@.inv()
        &&& forall|id: usize|
            self.nodes@.dom().contains(id) ==> (#[trigger] self.nodes@[id]).waker.id() == id
    }

    /// A well-formed pool satisfies the pool's invariant.
    pub proof fn lemma_inv(&self)
        requires
            self.wf(),
        ensures
            self@.inv(),
    {
    }

    /// An empty pool for at most `tasks_max` tasks.
    pub fn new(tasks_max: usize) -> (t: Self)
        ensures
            t.wf(),
            t@.tasks == Map::<usize, TaskView<C>>::empty(),
            t@.ready == Seq::<usize>::empty(),
            t@.limit == tasks_max,
            t@.spawned == 0,
            t@.completed == 0,
            t@.resumes == 0,
            t@.parks == 0,
            t.passes() == 0,
    {
        let t = Tasks {
            nodes: Arena::new(tasks_max),
            next: List::new(),
            spawned: Ghost(0),
            completed: Ghost(0),
            resumes: Ghost(0),
            parks: Ghost(0),
            passes: Ghost(0),
        };
        proof {
            assert(t@.tasks =~= Map::<usize, TaskView<C>>::empty());
            assert(forall|id: usize| !t@.ready.contains(id));
        }
        t
    }

    /// Whether the pool holds no task.
    pub fn is_empty(&self) -> (b: bool)
        requires
            self.wf(),
        ensures
            b == (self@.tasks.dom().len() == 0),
            b ==> self@.tasks == Map::<usize, TaskView<C>>::empty() && self@.ready.len() == 0
                && self@.completed == self@.spawned,
    {
        let b = self.nodes.is_empty();
        proof {
            if b {
                assert(self@.tasks =~= Map::<usize, TaskView<C>>::empty());
                assert(self@.tasks.dom() =~= Set::<usize>::empty());
                if self@.ready.len() > 0 {
                    assert(self@.ready.contains(self@.ready[0]));
                }
            } else {
                assert(self@.tasks.dom() =~= self.nodes@.dom());
                if self@.tasks.dom().len() == 0 {
                    assert(self.nodes@.dom() =~= Set::<usize>::empty());
                    assert(self.nodes@ =~= Map::<usize, Task<C>>::empty());
                }
            }
        }
        b
    }

    /// The number of live tasks.
    pub fn len(&self) -> (n: usize)
        requires
            self.wf(),
        ensures
            n == self@.tasks.dom().len(),
    {
        proof {
            assert(self@.tasks.dom() =~= self.nodes@.dom());
        }
        self.nodes.len()
    }

    /// The configured maximum number of live tasks.
    pub fn capacity(&self) -> (n: usize)
        ensures
            n == self@.limit,
    {
        self.nodes.capacity()
    }

    /// Whether `id` names a live task.
    pub fn contains(&self, id: usize) -> (b: bool)
        ensures
            b == self@.contains(id),
    {
        self.nodes.contains(id)
    }

    /// Whether the task is queued for resumption.
    pub fn is_awake(&self, id: usize) -> (b: bool)
        requires
            self.wf(),
            self@.contains(id),
        ensures
            b == self@.tasks[id].awake,
    {
        self.nodes.get(id).unwrap().awake
    }

    /// The wake-handle count of the task.
    pub fn ref_count(&self, id: usize) -> (n: usize)
        requires
            self.wf(),
            self@.contains(id),
        ensures
            n == self@.tasks[id].refs,
    {
        self.nodes.get(id).unwrap().waker.ref_count()
    }

    /// The identity at the front of the queue, if any.
    pub fn front(&self) -> (r: Option<usize>)
        requires
            self.wf(),
        ensures
            r == (if self@.ready.len() == 0 {
                None
            } else {
                Some(self@.ready[0])
            }),
    {
        self.next.front()
    }

    /// Adds a task for `cont`, awake and queued at the back, and returns its
    /// identity. It is not resumed here. At the configured maximum nothing is
    /// added and the pool is left unchanged.
    pub fn add(&mut self, cont: Box<C>) -> (r: Result<usize, CapacityExceeded>)
        requires
            old(self).wf(),
        ensures
            final(self).wf(),
            final(self).passes() == old(self).passes(),
            r is Err <==> old(self)@.tasks.dom().len() == old(self)@.limit,
            r is Err ==> final(self)@ == old(self)@,
            r matches Ok(id) ==> !old(self)@.contains(id) && final(self)@ == old(self)@.spawn(
                id,
                *cont,
            ),
    {
        proof {
            assert(self@.tasks.dom() =~= self.nodes@.dom());
        }
        if self.nodes.len() == self.nodes.capacity() {
            return Err(CapacityExceeded);
        }
        let ghost before = self@;
        let ghost links = self.nodes.links();
        proof {
            assert forall|k: usize| before.ready.contains(k) implies self.nodes@.dom().contains(
                k,
            ) by {
                assert(before.tasks.dom().contains(k));
            }
        }
        // The identity is not known before the slot is taken: the waker is
        // given it right after.
        let task = Task { cont: Some(cont), waker: EmbedWaker::new(0), awake: true };
        let id = match self.nodes.insert(task) {
            Ok(id) => id,
            Err(_) => {
                return Err(CapacityExceeded);
            },
        };
        self.nodes.get_mut(id).waker = EmbedWaker::new(id);
        proof {
            assert(!before.ready.contains(id));
            self.next.lemma_wf_frame(links, id);
        }
        self.next.push_back(&mut self.nodes, id);
        proof {
            self.spawned@ = self.spawned@ + 1;
            let after = before.spawn(id, *cont);
            assert(self@.tasks =~= after.tasks);
            assert(self@ == after);
            assert forall|k: usize| after.ready.contains(k) <==> after.tasks.dom().contains(k) && (
            #[trigger] after.tasks[k]).awake by {
                if k == id {
                    assert(after.ready[before.ready.len() as int] == id);
                } else if before.ready.contains(k) {
                    let i = choose|i: int| 0 <= i < before.ready.len() && before.ready[i] == k;
                    assert(after.ready[i] == k);
                }
            }
        }
        Ok(id)
    }

    /// Makes the task ready: if its awake flag is unset, sets it and queues
    /// the task at the back; if it is set, does nothing.
    pub fn wake(&mut self, id: usize)
        requires
            old(self).wf(),
            old(self)@.contains(id),
        ensures
            final(self).wf(),
            final(self).passes() == old(self).passes(),
            final(self)@ == old(self)@.wake(id),
    {
        let ghost before = self@;
        if !self.nodes.get(id).unwrap().awake {
            self.nodes.get_mut(id).awake = true;
            self.next.remove(&mut self.nodes, id);
            self.next.push_back(&mut self.nodes, id);
            proof {
                let after = before.wake(id);
                assert(self@.tasks =~= after.tasks);
                assert(self@ == after);
                assert(self@.tasks.dom() =~= before.tasks.dom());
                assert forall|k: usize| after.ready.contains(k) <==> after.tasks.dom().contains(k)
                    && (#[trigger] after.tasks[k]).awake by {
                    if k == id {
                        assert(after.ready[before.ready.len() as int] == id);
                    } else if before.ready.contains(k) {
                        let i = choose|i: int| 0 <= i < before.ready.len() && before.ready[i] == k;
                        assert(after.ready[i] == k);
                    }
                }
            }
        }
    }

    /// Makes an owned handle from a handle of a live task, and counts it.
    pub fn duplicate(&mut self, handle: &WakeHandle) -> (h: WakeHandle)
        requires
            old(self).wf(),
            old(self)@.contains(handle@),
            old(self)@.tasks[handle@].refs < usize::MAX,
        ensures
            final(self).wf(),
            final(self).passes() == old(self).passes(),
            h@ == handle@,
            final(self)@ == old(self)@.duplicate(handle@),
    {
        let ghost before = self@;
        let id = handle.task_id();
        let h = self.nodes.get_mut(id).waker.duplicate();
        proof {
            let after = before.duplicate(id);
            assert(self@.tasks =~= after.tasks);
            assert(self@.tasks.dom() =~= before.tasks.dom());
        }
        h
    }

    /// Gives an owned handle back. Only owned handles are released: the
    /// count stays above zero.
    pub fn release(&mut self, handle: WakeHandle)
        requires
            old(self).wf(),
            old(self)@.contains(handle@),
            old(self)@.tasks[handle@].refs > 1,
        ensures
            final(self).wf(),
            final(self).passes() == old(self).passes(),
            final(self)@ == old(self)@.release(handle@),
    {
        let ghost before = self@;
        let id = handle.task_id();
        self.nodes.get_mut(id).waker.release(handle);
        proof {
            let after = before.release(id);
            assert(self@.tasks =~= after.tasks);
            assert(self@.tasks.dom() =~= before.tasks.dom());
        }
    }

    /// Wakes the task and gives the handle back.
    pub fn wake_and_release(&mut self, handle: WakeHandle)
        requires
            old(self).wf(),
            old(self)@.contains(handle@),
            old(self)@.tasks[handle@].refs > 1,
        ensures
            final(self).wf(),
            final(self).passes() == old(self).passes(),
            final(self)@ == old(self)@.wake(handle@).release(handle@),
    {
        self.wake(handle.task_id());
        self.release(handle);
    }

    /// Takes the task at the front of the queue out to be resumed: clears its
    /// awake flag and hands out its continuation with the scheduler's handle.
    pub fn begin(&mut self) -> (r: Option<(WakeHandle, Box<C>)>)
        requires
            old(self).wf(),
            old(self)@.idle(),
        ensures
            final(self).wf(),
            final(self).passes() == old(self).passes(),
            old(self)@.ready.len() == 0 ==> r is None && final(self)@ == old(self)@,
            old(self)@.ready.len() > 0 ==> r is Some && final(self)@ == old(self)@.begin(),
            r matches Some((waker, cont)) ==> {
                &&& waker@ == old(self)@.ready[0]
                &&& old(self)@.contains(waker@)
                &&& old(self)@.tasks[waker@].cont == Some(*cont)
            },
    {
        let ghost before = self@;
        proof {
            if before.ready.len() > 0 {
                assert(before.ready.contains(before.ready[0]));
                assert(before.tasks.dom().contains(before.ready[0]));
                assert(self.nodes@.dom().contains(before.ready[0]));
            }
        }
        let id = match self.next.pop_front(&mut self.nodes) {
            Some(id) => id,
            None => {
                proof {
                    assert(self@.tasks =~= before.tasks);
                }
                return None;
            },
        };
        let task = self.nodes.get_mut(id);
        task.awake = false;
        let mut cont = None;
        std::mem::swap(&mut cont, &mut task.cont);
        let waker = task.waker.as_handle();
        proof {
            self.resumes@ = self.resumes@ + 1;
            let after = before.begin();
            assert(self@.tasks =~= after.tasks);
            assert(self@.tasks.dom() =~= before.tasks.dom());
            assert forall|k: usize| after.ready.contains(k) <==> after.tasks.dom().contains(k) && (
            #[trigger] after.tasks[k]).awake by {
                if after.ready.contains(k) {
                    let i = choose|i: int| 0 <= i < after.ready.len() && after.ready[i] == k;
                    assert(before.ready[i + 1] == k);
                    assert(before.ready.contains(k));
                } else if k != id && before.ready.contains(k) {
                    let i = choose|i: int| 0 <= i < before.ready.len() && before.ready[i] == k;
                    assert(after.ready[i - 1] == k);
                }
            }
        }
        Some((waker, cont.unwrap()))
    }

    /// Puts the continuation of a task that reported `Suspended` back. The
    /// task is not queued here: it is, if it was woken while it ran.
    pub fn suspend(&mut self, waker: WakeHandle, cont: Box<C>)
        requires
            old(self).wf(),
            old(self)@.running(waker@),
        ensures
            final(self).wf(),
            final(self).passes() == old(self).passes(),
            final(self)@ == old(self)@.suspend(waker@, *cont),
    {
        let ghost before = self@;
        let id = waker.task_id();
        self.nodes.get_mut(id).cont = Some(cont);
        proof {
            let after = before.suspend(id, *cont);
            assert(self@.tasks =~= after.tasks);
            assert(self@.tasks.dom() =~= before.tasks.dom());
        }
    }

    /// Removes a task that reported `Done`, taking it out of the queue if it
    /// was woken while it ran. Its count must be back at the scheduler's
    /// share: no owned handle of it is left anywhere.
    pub fn finish(&mut self, waker: WakeHandle)
        requires
            old(self).wf(),
            old(self)@.running(waker@),
            old(self)@.tasks[waker@].refs == 1,
        ensures
            final(self).wf(),
            final(self).passes() == old(self).passes(),
            final(self)@ == old(self)@.finish(waker@),
    {
        let ghost before = self@;
        let id = waker.task_id();
        self.next.remove(&mut self.nodes, id);
        proof {
            self.next.lemma_wf_frame(self.nodes.links(), id);
        }
        let _ = self.nodes.remove(id);
        proof {
            self.completed@ = self.completed@ + 1;
            let after = before.finish(id);
            assert(self@.tasks =~= after.tasks);
            assert(self@ == after);
            assert(after.tasks.dom() =~= before.tasks.dom().remove(id));
            assert(after.ready.no_duplicates()) by {
                if before.ready.contains(id) {
                    let at = before.ready.index_of(id);
                    assert forall|i: int, j: int|
                        0 <= i < after.ready.len() && 0 <= j < after.ready.len() && i
                            != j implies after.ready[i] != after.ready[j] by {
                        let si = if i < at {
                            i
                        } else {
                            i + 1
                        };
                        let sj = if j < at {
                            j
                        } else {
                            j + 1
                        };
                        assert(after.ready[i] == before.ready[si]);
                        assert(after.ready[j] == before.ready[sj]);
                    }
                }
            }
            assert forall|k: usize| after.ready.contains(k) <==> after.tasks.dom().contains(k) && (
            #[trigger] after.tasks[k]).awake by {
                if before.ready.contains(id) {
                    let at = before.ready.index_of(id);
                    if after.ready.contains(k) {
                        let i = choose|i: int| 0 <= i < after.ready.len() && after.ready[i] == k;
                        let si = if i < at {
                            i
                        } else {
                            i + 1
                        };
                        assert(before.ready[si] == k);
                        assert(before.ready.contains(k));
                    } else if k != id && before.ready.contains(k) {
                        let i = choose|i: int| 0 <= i < before.ready.len() && before.ready[i] == k;
                        if i < at {
                            assert(after.ready[i] == k);
                        } else {
                            assert(after.ready[i - 1] == k);
                        }
                    }
                }
            }
        }
    }
}

impl<C> Tasks<C> {
    /// Makes one pass through the queue: resumes ready tasks, front first,
    /// each exactly once per turn, until the queue is empty or `budget`
    /// resumes were made, and returns how much of the budget is left. A task
    /// that reports `Done` is removed; one that reports `Suspended` stays and
    /// is queued again only by a wake-up.
    pub fn process_next<E>(&mut self, env: &mut E, budget: usize) -> (left: usize) where
        C: Continuation<E>,

        requires
            old(self).wf(),
            old(self)@.idle(),
            C::inv(old(env), old(self)@.at_rest()),
        ensures
            final(self).wf(),
            final(self)@.idle(),
            C::inv(final(env), final(self)@.at_rest()),
            C::fixed(final(env)) == C::fixed(old(env)),
            final(self)@.limit == old(self)@.limit,
            left <= budget,
            left > 0 ==> final(self)@.ready.len() == 0,
            final(self)@.resumes == old(self)@.resumes + (budget - left),
            final(self)@.parks == old(self)@.parks,
            final(self).passes() == old(self).passes() + 1,
            old(self)@.spawned <= final(self)@.spawned,
            old(self)@.completed <= final(self)@.completed <= old(self)@.completed + (budget - left),
            C::live(old(env), old(self)@) ==> C::live(final(env), final(self)@) && C::fuel(
                final(env),
                final(self)@,
            ) + (budget - left) <= C::fuel(old(env), old(self)@),
            old(self)@.ready.len() == 0 ==> left == budget && final(self)@ == old(self)@ && *final(env) == *old(env),
    {
        let mut left = budget;
        while left > 0
            invariant
                self.wf(),
                self@.idle(),
                C::inv(env, self@.at_rest()),
                C::fixed(env) == C::fixed(old(env)),
                self@.limit == old(self)@.limit,
                left <= budget,
                self@.resumes == old(self)@.resumes + (budget - left),
                self@.parks == old(self)@.parks,
                self.passes() == old(self).passes(),
                old(self)@.spawned <= self@.spawned,
                old(self)@.completed <= self@.completed <= old(self)@.completed + (budget - left),
                C::live(old(env), old(self)@) ==> C::live(env, self@) && C::fuel(env, self@) + (
                budget - left) <= C::fuel(old(env), old(self)@),
                old(self)@.ready.len() == 0 ==> left == budget && self@ == old(self)@ && *env
                    == *old(env),
            ensures
                left > 0 ==> self@.ready.len() == 0,
            decreases left,
        {
            let ghost before = self@;
            let (waker, mut cont) = match self.begin() {
                Some(taken) => taken,
                None => {
                    break ;
                },
            };
            proof {
                let id = waker@;
                let back = self@.suspend(id, *cont);
                assert(back.at_rest().tasks =~= before.at_rest().tasks);
                assert(back.at_rest() == before.at_rest());
                assert(back.requeue(id).tasks =~= before.tasks);
                assert(back.requeue(id).ready =~= before.ready);
                assert(back.requeue(id) == before);
                assert(back.idle()) by {
                    assert forall|k: usize| back.contains(k) implies (#[trigger] back.tasks[k]).cont
                        is Some by {
                        if k != id {
                            assert(before.tasks[k].cont is Some);
                        }
                    }
                }
            }
            let ghost mid = self@;
            let step = cont.resume(&waker, self, env);
            proof {
                assert(self@.running(waker@));
            }
            match step {
                Step::Suspended => {
                    self.suspend(waker, cont);
                },
                Step::Done => {
                    self.finish(waker);
                },
            }
            proof {
                assert forall|k: usize| self@.contains(k) implies (#[trigger] self@.tasks[k]).cont
                    is Some by {
                    if mid.contains(k) {
                        assert(mid.tasks[k].cont == before.begin().tasks[k].cont);
                        if k != before.ready[0] {
                            assert(before.tasks[k].cont is Some);
                        }
                    }
                }
            }
            left = left - 1;
        }
        proof {
            self.passes@ = self.passes@ + 1;
        }
        left
    }

    /// Runs the tasks until none is left, or until `budget` steps were made,
    /// and says whether none is left. A step is one resume of a task or one
    /// park, and both are counted. Between parks every ready task is
    /// resumed, in one pass; the scheduler parks only when tasks are left
    /// and none of them is ready, once after each such pass and never after
    /// the last: it parks once less often than it goes through the queue.
    pub fn run<E>(&mut self, env: &mut E, budget: usize) -> (finished: bool) where C: Continuation<E>
        requires
            old(self).wf(),
            old(self)@.idle(),
            C::inv(old(env), old(self)@.at_rest()),
        ensures
            final(self).wf(),
            final(self)@.idle(),
            C::inv(final(env), final(self)@.at_rest()),
            C::fixed(final(env)) == C::fixed(old(env)),
            final(self)@.limit == old(self)@.limit,
            old(self)@.completed <= final(self)@.completed <= old(self)@.completed + budget,
            final(self)@.resumes - old(self)@.resumes + final(self)@.parks - old(self)@.parks
                <= budget,
            !finished ==> final(self)@.resumes - old(self)@.resumes + final(self)@.parks - old(self)@.parks == budget,
            final(self).passes() - old(self).passes() == final(self)@.parks - old(self)@.parks + 1,
            C::live(old(env), old(self)@) ==> C::live(final(env), final(self)@),
            C::live(old(env), old(self)@) && C::fuel(old(env), old(self)@) <= budget ==> finished
                || C::fuel(final(env), final(self)@) == 0,
            C::live(old(env), old(self)@) && C::fuel(old(env), old(self)@) < budget ==> finished,
            C::live(old(env), old(self)@) ==> C::fuel(final(env), final(self)@) + (final(self)@.resumes
                - old(self)@.resumes + final(self)@.parks - old(self)@.parks) <= C::fuel(
                old(env),
                old(self)@,
            ),
            final(self)@.completed - old(self)@.completed <= final(self)@.resumes - old(self)@.resumes,
            old(self)@.spawned <= final(self)@.spawned,
            finished <==> final(self)@.tasks.dom().len() == 0,
            finished ==> final(self)@.tasks == Map::<usize, TaskView<C>>::empty() && final(self)@.ready.len() == 0 && final(self)@.completed == final(self)@.spawned,
            old(self)@.tasks.dom().len() == 0 ==> finished && final(self)@ == old(self)@ && *final(env) == *old(env),
    {
        let mut left = budget;
        proof {
            self.lemma_inv();
            if self@.tasks.dom().len() == 0 && self@.ready.len() > 0 {
                assert(self@.ready.contains(self@.ready[0]));
                assert(self@.tasks.dom().contains(self@.ready[0]));
            }
        }
        loop
            invariant_except_break
                self.passes() - old(self).passes() == self@.parks - old(self)@.parks,
            invariant
                self.wf(),
                self@.idle(),
                C::inv(env, self@.at_rest()),
                C::fixed(env) == C::fixed(old(env)),
                self@.limit == old(self)@.limit,
                left <= budget,
                self@.resumes - old(self)@.resumes + self@.parks - old(self)@.parks == budget
                    - left,
                self@.completed - old(self)@.completed <= self@.resumes - old(self)@.resumes,
                old(self)@.spawned <= self@.spawned,
                old(self)@.completed <= self@.completed <= old(self)@.completed + (budget - left),
                C::live(old(env), old(self)@) ==> C::live(env, self@) && C::fuel(env, self@) + (
                budget - left) <= C::fuel(old(env), old(self)@),
                old(self)@.tasks.dom().len() == 0 ==> self@ == old(self)@ && *env == *old(env),
                old(self)@.tasks.dom().len() == 0 ==> self@.ready.len() == 0,
            ensures
                self.wf(),
                self@.idle(),
                C::inv(env, self@.at_rest()),
                C::fixed(env) == C::fixed(old(env)),
                self@.limit == old(self)@.limit,
                old(self)@.completed <= self@.completed <= old(self)@.completed + budget,
                self@.resumes - old(self)@.resumes + self@.parks - old(self)@.parks <= budget,
                self.passes() - old(self).passes() == self@.parks - old(self)@.parks + 1,
                self@.tasks.dom().len() > 0 ==> self@.resumes - old(self)@.resumes + self@.parks
                    - old(self)@.parks == budget,
                C::live(old(env), old(self)@) ==> C::live(env, self@),
                C::live(old(env), old(self)@) && C::fuel(old(env), old(self)@) <= budget
                    ==> self@.tasks.dom().len() == 0 || C::fuel(env, self@) == 0,
                C::live(old(env), old(self)@) && C::fuel(old(env), old(self)@) < budget
                    ==> self@.tasks.dom().len() == 0,
                C::live(old(env), old(self)@) ==> C::fuel(env, self@) + (self@.resumes
                    - old(self)@.resumes + self@.parks - old(self)@.parks) <= C::fuel(
                    old(env),
                    old(self)@,
                ),
                self@.completed - old(self)@.completed <= self@.resumes - old(self)@.resumes,
                old(self)@.spawned <= self@.spawned,
                self@.tasks.dom().len() == 0 ==> self@.tasks == Map::<usize, TaskView<C>>::empty()
                    && self@.ready.len() == 0 && self@.completed == self@.spawned,
                old(self)@.tasks.dom().len() == 0 ==> self@ == old(self)@ && *env == *old(env),
            decreases left,
        {
            left = self.process_next(env, left);
            if self.is_empty() {
                break ;
            }
            if left == 0 {
                break ;
            }
            <C as Continuation<E>>::park(self, env);
            left = left - 1;
            proof {
                self.parks@ = self.parks@ + 1;
                assert(self@.idle());
            }
        }
        self.is_empty()
    }
}

/// Waking keeps the pool's invariant.
pub proof fn lemma_wake_keeps_inv<C>(tasks: TasksView<C>, id: usize)
    requires
        tasks.inv(),
        tasks.contains(id),
    ensures
        tasks.wake(id).inv(),
{
    let after = tasks.wake(id);
    if !tasks.tasks[id].awake {
        assert(after.tasks.dom() =~= tasks.tasks.dom());
        assert forall|k: usize|
            #![trigger after.ready.contains(k)]
            #![trigger after.tasks[k]]
            after.ready.contains(k) <==> after.tasks.dom().contains(k) && after.tasks[k].awake by {
            if k == id {
                assert(after.ready[tasks.ready.len() as int] == id);
            } else if tasks.ready.contains(k) {
                let i = choose|i: int| 0 <= i < tasks.ready.len() && tasks.ready[i] == k;
                assert(after.ready[i] == k);
            }
        }
    }
}

/// Waking is idempotent: a task that is woken twice before it is resumed
/// stands in the queue exactly once, as after the first wake-up.
pub proof fn lemma_wake_twice<C>(tasks: TasksView<C>, id: usize)
    requires
        tasks.inv(),
        tasks.contains(id),
    ensures
        tasks.wake(id).wake(id) == tasks.wake(id),
        tasks.wake(id).ready.contains(id),
        forall|i: int, j: int|
            0 <= i < tasks.wake(id).ready.len() && 0 <= j < tasks.wake(id).ready.len()
                && tasks.wake(id).ready[i] == id && tasks.wake(id).ready[j] == id ==> i == j,
{
    lemma_wake_keeps_inv(tasks, id);
    let once = tasks.wake(id);
    assert(once.tasks[id].awake);
}

/// Spawning into a pool with room keeps the pool's invariant; the new task
/// is awake, and there is one task more.
pub proof fn lemma_spawn_keeps_inv<C>(tasks: TasksView<C>, id: usize, cont: C)
    requires
        tasks.inv(),
        !tasks.contains(id),
        tasks.tasks.dom().len() < tasks.limit,
    ensures
        tasks.spawn(id, cont).inv(),
        tasks.spawn(id, cont).tasks.dom().len() == tasks.tasks.dom().len() + 1,
        tasks.idle() ==> tasks.spawn(id, cont).idle(),
        tasks.all_awake() ==> tasks.spawn(id, cont).all_awake(),
{
    let after = tasks.spawn(id, cont);
    assert(after.tasks.dom() =~= tasks.tasks.dom().insert(id));
    assert(!tasks.ready.contains(id));
    assert forall|i: int, j: int|
        0 <= i < after.ready.len() && 0 <= j < after.ready.len() && i != j implies after.ready[i]
        != after.ready[j] by {
        if i < tasks.ready.len() {
            assert(tasks.ready.contains(tasks.ready[i]));
        }
        if j < tasks.ready.len() {
            assert(tasks.ready.contains(tasks.ready[j]));
        }
    }
    assert forall|k: usize|
        #![trigger after.ready.contains(k)]
        #![trigger after.tasks[k]]
        after.ready.contains(k) <==> after.tasks.dom().contains(k) && after.tasks[k].awake by {
        if k == id {
            assert(after.ready[tasks.ready.len() as int] == id);
        } else if tasks.ready.contains(k) {
            let i = choose|i: int| 0 <= i < tasks.ready.len() && tasks.ready[i] == k;
            assert(after.ready[i] == k);
        }
    }
}

/// Taking the front task out to resume it, and removing it as `Done`, keeps
/// the pool's invariant: there is one task less, one more completed, and the
/// queue has lost its front.
pub proof fn lemma_complete_front<C>(tasks: TasksView<C>)
    requires
        tasks.inv(),
        tasks.ready.len() > 0,
    ensures
        tasks.begin().finish(tasks.ready[0]).inv(),
        tasks.begin().finish(tasks.ready[0]).ready == tasks.ready.drop_first(),
        tasks.begin().finish(tasks.ready[0]).tasks == tasks.tasks.remove(tasks.ready[0]),
        tasks.begin().finish(tasks.ready[0]).tasks.dom().len() + 1 == tasks.tasks.dom().len(),
        tasks.begin().finish(tasks.ready[0]).completed == tasks.completed + 1,
        tasks.begin().finish(tasks.ready[0]).spawned == tasks.spawned,
{
    let id = tasks.ready[0];
    let taken = tasks.begin();
    let after = taken.finish(id);
    let rest = tasks.ready.drop_first();
    assert(tasks.ready.contains(id));
    assert(!rest.contains(id)) by {
        if rest.contains(id) {
            let i = choose|i: int| 0 <= i < rest.len() && rest[i] == id;
            assert(tasks.ready[i + 1] == id);
        }
    }
    assert(after.ready == rest);
    assert(after.tasks =~= tasks.tasks.remove(id));
    assert(after.tasks.dom() =~= tasks.tasks.dom().remove(id));
    assert forall|k: usize|
        #![trigger after.ready.contains(k)]
        #![trigger after.tasks[k]]
        after.ready.contains(k) <==> after.tasks.dom().contains(k) && after.tasks[k].awake by {
        if rest.contains(k) {
            let i = choose|i: int| 0 <= i < rest.len() && rest[i] == k;
            assert(tasks.ready[i + 1] == k);
            assert(tasks.ready.contains(k));
        } else if k != id && tasks.ready.contains(k) {
            let i = choose|i: int| 0 <= i < tasks.ready.len() && tasks.ready[i] == k;
            assert(rest[i - 1] == k);
        }
    }
}

/// When every task of a pool is awake, as it is after spawning them, and
/// each of them completes when it is first resumed, then resuming them
/// leaves the pool empty, and completes exactly as many tasks as there were.
pub proof fn lemma_immediate_tasks_all_complete<C>(tasks: TasksView<C>)
    requires
        tasks.inv(),
        tasks.all_awake(),
    ensures
        tasks.complete_ready().inv(),
        tasks.complete_ready().tasks == Map::<usize, TaskView<C>>::empty(),
        tasks.complete_ready().ready.len() == 0,
        tasks.complete_ready().completed == tasks.completed + tasks.tasks.dom().len(),
        tasks.complete_ready().spawned == tasks.spawned,
    decreases tasks.ready.len(),
{
    if tasks.ready.len() == 0 {
        assert forall|id: usize| !tasks.tasks.dom().contains(id) by {
            if tasks.tasks.dom().contains(id) {
                assert(tasks.tasks[id].awake);
                assert(tasks.ready.contains(id));
            }
        }
        assert(tasks.tasks.dom() =~= Set::<usize>::empty());
        assert(tasks.tasks =~= Map::<usize, TaskView<C>>::empty());
    } else {
        let next = tasks.begin().finish(tasks.ready[0]);
        lemma_complete_front(tasks);
        assert forall|id: usize| next.contains(id) implies (#[trigger] next.tasks[id]).awake by {
            assert(tasks.tasks[id].awake);
        }
        lemma_immediate_tasks_all_complete(next);
    }
}

/// Whatever is done to a pool, every task that was ever spawned is either
/// still live or completed. So a pool that has run empty has completed as
/// many tasks as were spawned.
pub proof fn lemma_all_spawned_completed<C>(tasks: TasksView<C>)
    requires
        tasks.inv(),
        tasks.tasks.dom().len() == 0,
    ensures
        tasks.completed == tasks.spawned,
{
}

/// A handle through which tasks are spawned from arguments. It is attached
/// to a scheduler or not; while it is not, it spawns nothing.
pub struct ArgSpawner<A> {
    attached: bool,
    args: std::marker::PhantomData<A>,
}

impl<A> ArgSpawner<A> {
    /// Whether the handle is attached to a scheduler.
    pub closed spec fn attached(&self) -> bool {
        self.attached
    }

    /// A handle that is attached to no scheduler.
    pub fn new() -> (s: Self)
        ensures
            !s.attached(),
    {
        ArgSpawner { attached: false, args: std::marker::PhantomData }
    }

    /// Makes a continuation from `arg` and adds a task for it to the pool,
    /// ready but not resumed here. A handle that is not attached, or a pool
    /// at its maximum, gives an error and leaves the pool as it was.
    pub fn spawn<C: Start<A>>(&self, tasks: &mut Tasks<C>, arg: A) -> (r: Result<(), ()>)
        requires
            old(tasks).wf(),
        ensures
            final(tasks).wf(),
            final(tasks).passes() == old(tasks).passes(),
            r is Err <==> !self.attached() || old(tasks)@.tasks.dom().len() == old(tasks)@.limit,
            r is Err ==> final(tasks)@ == old(tasks)@,
            r is Ok ==> exists|id: usize, c: C|
                C::starts(arg, c) && !old(tasks)@.contains(id) && final(tasks)@ == #[trigger] old(
                    tasks,
                )@.spawn(id, c),
    {
        if !self.attached {
            return Err(());
        }
        if tasks.len() == tasks.capacity() {
            return Err(());
        }
        let c = C::start(arg);
        match tasks.add(Box::new(c)) {
            Ok(_) => Ok(()),
            Err(_) => Err(()),
        }
    }
}

/// A handle through which continuations are spawned. It is attached to a
/// scheduler or not; while it is not, it spawns nothing.
pub struct BoxSpawner {
    attached: bool,
}

impl BoxSpawner {
    /// Whether the handle is attached to a scheduler.
    pub closed spec fn attached(&self) -> bool {
        self.attached
    }

    /// A handle that is attached to no scheduler.
    pub fn new() -> (s: Self)
        ensures
            !s.attached(),
    {
        BoxSpawner { attached: false }
    }

    /// Puts `f` on the heap and adds a task for it, as `spawn_boxed` does.
    pub fn spawn<C>(&self, tasks: &mut Tasks<C>, f: C) -> (r: Result<(), ()>)
        requires
            old(tasks).wf(),
        ensures
            final(tasks).wf(),
            final(tasks).passes() == old(tasks).passes(),
            r is Err <==> !self.attached() || old(tasks)@.tasks.dom().len() == old(tasks)@.limit,
            r is Err ==> final(tasks)@ == old(tasks)@,
            r is Ok ==> exists|id: usize|
                !old(tasks)@.contains(id) && final(tasks)@ == #[trigger] old(tasks)@.spawn(id, f),
    {
        self.spawn_boxed(tasks, Box::new(f))
    }

    /// Adds a task for `f` to the pool, ready but not resumed here. A handle
    /// that is not attached, or a pool at its maximum, gives an error and
    /// leaves the pool as it was.
    pub fn spawn_boxed<C>(&self, tasks: &mut Tasks<C>, f: Box<C>) -> (r: Result<(), ()>)
        requires
            old(tasks).wf(),
        ensures
            final(tasks).wf(),
            final(tasks).passes() == old(tasks).passes(),
            r is Err <==> !self.attached() || old(tasks)@.tasks.dom().len() == old(tasks)@.limit,
            r is Err ==> final(tasks)@ == old(tasks)@,
            r is Ok ==> exists|id: usize|
                !old(tasks)@.contains(id) && final(tasks)@ == #[trigger] old(tasks)@.spawn(id, *f),
    {
        if !self.attached {
            return Err(());
        }
        match tasks.add(f) {
            Ok(_) => Ok(()),
            Err(_) => Err(()),
        }
    }
}

/// The scheduler for continuations that are made from an argument.
pub struct ArgExecutor<C> {
    tasks: Tasks<C>,
}

impl<C> View for ArgExecutor<C> {
    type V = TasksView<C>;

    open spec fn view(&self) -> TasksView<C> {
        self.tasks_of()@
    }
}

impl<C> ArgExecutor<C> {
    /// The scheduler's pool.
    pub closed spec fn tasks_of(&self) -> Tasks<C> {
        self.tasks
    }

    /// How often the scheduler went through its queue.
    pub open spec fn passes(&self) -> nat {
        self.tasks_of().passes()
    }

    pub open spec fn wf(&self) -> bool {
        self.tasks_of().wf()
    }

    /// A well-formed scheduler satisfies the pool's invariant.
    pub proof fn lemma_inv(&self)
        requires
            self.wf(),
        ensures
            self@.inv(),
    {
        self.tasks.lemma_inv();
    }

    /// A scheduler without tasks, for at most `tasks_max` of them.
    pub fn new(tasks_max: usize) -> (e: Self)
        ensures
            e.wf(),
            e@.tasks == Map::<usize, TaskView<C>>::empty(),
            e@.ready == Seq::<usize>::empty(),
            e@.limit == tasks_max,
            e@.spawned == 0,
            e@.completed == 0,
            e@.resumes == 0,
            e@.parks == 0,
            e.passes() == 0,
    {
        ArgExecutor { tasks: Tasks::new(tasks_max) }
    }

    /// Attaches `spawner` to this scheduler, so that it spawns into the
    /// scheduler's pool.
    pub fn set_spawner<A>(&self, spawner: &mut ArgSpawner<A>)
        ensures
            final(spawner).attached(),
    {
        spawner.attached = true;
    }

    /// Detaches `spawner`, as is to be done before the scheduler is given
    /// up: it spawns nothing from then on.
    pub fn unset_spawner<A>(&self, spawner: &mut ArgSpawner<A>)
        ensures
            !final(spawner).attached(),
    {
        spawner.attached = false;
    }

    /// The scheduler's pool, for a spawner or a wake handle to act on.
    pub fn tasks_mut(&mut self) -> (tasks: &mut Tasks<C>)
        ensures
            *tasks == old(self).tasks_of(),
            *final(tasks) == final(self).tasks_of(),
    {
        &mut self.tasks
    }

    /// Makes a continuation from `arg` and adds a task for it, ready but not
    /// resumed before the next run. At the configured maximum nothing is
    /// added and the tasks are left as they were.
    pub fn spawn<A>(&mut self, arg: A) -> (r: Result<(), CapacityExceeded>) where C: Start<A>
        requires
            old(self).wf(),
        ensures
            final(self).wf(),
            final(self).passes() == old(self).passes(),
            r is Err <==> old(self)@.tasks.dom().len() == old(self)@.limit,
            r is Err ==> final(self)@ == old(self)@,
            r is Ok ==> exists|id: usize, c: C|
                C::starts(arg, c) && !old(self)@.contains(id) && final(self)@ == #[trigger] old(self)@.spawn(id, c),
    {
        let c = C::start(arg);
        match self.tasks.add(Box::new(c)) {
            Ok(_) => Ok(()),
            Err(e) => Err(e),
        }
    }

    /// Runs the tasks until none is left, or until `budget` steps were made,
    /// and says whether none is left. The scheduler parks once after each
    /// pass through the queue that leaves tasks, and never after the last.
    pub fn run<E>(&mut self, env: &mut E, budget: usize) -> (finished: bool) where C: Continuation<E>
        requires
            old(self).wf(),
            old(self)@.idle(),
            C::inv(old(env), old(self)@.at_rest()),
        ensures
            final(self).wf(),
            final(self)@.idle(),
            C::inv(final(env), final(self)@.at_rest()),
            C::fixed(final(env)) == C::fixed(old(env)),
            final(self)@.limit == old(self)@.limit,
            old(self)@.completed <= final(self)@.completed <= old(self)@.completed + budget,
            final(self)@.resumes - old(self)@.resumes + final(self)@.parks - old(self)@.parks
                <= budget,
            !finished ==> final(self)@.resumes - old(self)@.resumes + final(self)@.parks - old(self)@.parks == budget,
            final(self).passes() - old(self).passes() == final(self)@.parks - old(self)@.parks + 1,
            C::live(old(env), old(self)@) ==> C::live(final(env), final(self)@),
            C::live(old(env), old(self)@) && C::fuel(old(env), old(self)@) <= budget ==> finished
                || C::fuel(final(env), final(self)@) == 0,
            C::live(old(env), old(self)@) && C::fuel(old(env), old(self)@) < budget ==> finished,
            C::live(old(env), old(self)@) ==> C::fuel(final(env), final(self)@) + (final(self)@.resumes
                - old(self)@.resumes + final(self)@.parks - old(self)@.parks) <= C::fuel(
                old(env),
                old(self)@,
            ),
            final(self)@.completed - old(self)@.completed <= final(self)@.resumes - old(self)@.resumes,
            old(self)@.spawned <= final(self)@.spawned,
            finished <==> final(self)@.tasks.dom().len() == 0,
            finished ==> final(self)@.tasks == Map::<usize, TaskView<C>>::empty() && final(self)@.ready.len() == 0 && final(self)@.completed == final(self)@.spawned,
            old(self)@.tasks.dom().len() == 0 ==> finished && final(self)@ == old(self)@ && *final(env) == *old(env),
    {
        self.tasks.run(env, budget)
    }
}

/// The scheduler for continuations that the caller has put on the heap.
pub struct BoxExecutor<C> {
    tasks: Tasks<C>,
}

impl<C> View for BoxExecutor<C> {
    type V = TasksView<C>;

    open spec fn view(&self) -> TasksView<C> {
        self.tasks_of()@
    }
}

impl<C> BoxExecutor<C> {
    /// The scheduler's pool.
    pub closed spec fn tasks_of(&self) -> Tasks<C> {
        self.tasks
    }

    /// How often the scheduler went through its queue.
    pub open spec fn passes(&self) -> nat {
        self.tasks_of().passes()
    }

    pub open spec fn wf(&self) -> bool {
        self.tasks_of().wf()
    }

    /// A well-formed scheduler satisfies the pool's invariant.
    pub proof fn lemma_inv(&self)
        requires
            self.wf(),
        ensures
            self@.inv(),
    {
        self.tasks.lemma_inv();
    }

    /// A scheduler without tasks, for at most `tasks_max` of them.
    pub fn new(tasks_max: usize) -> (e: Self)
        ensures
            e.wf(),
            e@.tasks == Map::<usize, TaskView<C>>::empty(),
            e@.ready == Seq::<usize>::empty(),
            e@.limit == tasks_max,
            e@.spawned == 0,
            e@.completed == 0,
            e@.resumes == 0,
            e@.parks == 0,
            e.passes() == 0,
    {
        BoxExecutor { tasks: Tasks::new(tasks_max) }
    }

    /// Attaches `spawner` to this scheduler, so that it spawns into the
    /// scheduler's pool.
    pub fn set_spawner(&self, spawner: &mut BoxSpawner)
        ensures
            final(spawner).attached(),
    {
        spawner.attached = true;
    }

    /// Detaches `spawner`, as is to be done before the scheduler is given
    /// up: it spawns nothing from then on.
    pub fn unset_spawner(&self, spawner: &mut BoxSpawner)
        ensures
            !final(spawner).attached(),
    {
        spawner.attached = false;
    }

    /// The scheduler's pool, for a spawner or a wake handle to act on.
    pub fn tasks_mut(&mut self) -> (tasks: &mut Tasks<C>)
        ensures
            *tasks == old(self).tasks_of(),
            *final(tasks) == final(self).tasks_of(),
    {
        &mut self.tasks
    }

    /// Adds a task for `f`, ready but not resumed before the next run. At
    /// the configured maximum nothing is added and the tasks are left as
    /// they were.
    pub fn spawn(&mut self, f: Box<C>) -> (r: Result<(), CapacityExceeded>)
        requires
            old(self).wf(),
        ensures
            final(self).wf(),
            final(self).passes() == old(self).passes(),
            r is Err <==> old(self)@.tasks.dom().len() == old(self)@.limit,
            r is Err ==> final(self)@ == old(self)@,
            r is Ok ==> exists|id: usize|
                !old(self)@.contains(id) && final(self)@ == #[trigger] old(self)@.spawn(id, *f),
    {
        match self.tasks.add(f) {
            Ok(_) => Ok(()),
            Err(e) => Err(e),
        }
    }

    /// Runs the tasks until none is left, or until `budget` steps were made,
    /// and says whether none is left. The scheduler parks once after each
    /// pass through the queue that leaves tasks, and never after the last.
    pub fn run<E>(&mut self, env: &mut E, budget: usize) -> (finished: bool) where C: Continuation<E>
        requires
            old(self).wf(),
            old(self)@.idle(),
            C::inv(old(env), old(self)@.at_rest()),
        ensures
            final(self).wf(),
            final(self)@.idle(),
            C::inv(final(env), final(self)@.at_rest()),
            C::fixed(final(env)) == C::fixed(old(env)),
            final(self)@.limit == old(self)@.limit,
            old(self)@.completed <= final(self)@.completed <= old(self)@.completed + budget,
            final(self)@.resumes - old(self)@.resumes + final(self)@.parks - old(self)@.parks
                <= budget,
            !finished ==> final(self)@.resumes - old(self)@.resumes + final(self)@.parks - old(self)@.parks == budget,
            final(self).passes() - old(self).passes() == final(self)@.parks - old(self)@.parks + 1,
            C::live(old(env), old(self)@) ==> C::live(final(env), final(self)@),
            C::live(old(env), old(self)@) && C::fuel(old(env), old(self)@) <= budget ==> finished
                || C::fuel(final(env), final(self)@) == 0,
            C::live(old(env), old(self)@) && C::fuel(old(env), old(self)@) < budget ==> finished,
            C::live(old(env), old(self)@) ==> C::fuel(final(env), final(self)@) + (final(self)@.resumes
                - old(self)@.resumes + final(self)@.parks - old(self)@.parks) <= C::fuel(
                old(env),
                old(self)@,
            ),
            final(self)@.completed - old(self)@.completed <= final(self)@.resumes - old(self)@.resumes,
            old(self)@.spawned <= final(self)@.spawned,
            finished <==> final(self)@.tasks.dom().len() == 0,
            finished ==> final(self)@.tasks == Map::<usize, TaskView<C>>::empty() && final(self)@.ready.len() == 0 && final(self)@.completed == final(self)@.spawned,
            old(self)@.tasks.dom().len() == 0 ==> finished && final(self)@ == old(self)@ && *final(env) == *old(env),
    {
        self.tasks.run(env, budget)
    }
}

impl<C> EmbedWake for Tasks<C> {
    open spec fn can_wake(&self, task_id: usize) -> bool {
        self.wf() && self@.contains(task_id)
    }

    open spec fn woken(&self, task_id: usize, after: &Self) -> bool {
        after.wf() && after@ == self@.wake(task_id)
    }

    open spec fn can_duplicate(&self, task_id: usize) -> bool {
        self.wf() && self@.contains(task_id) && self@.tasks[task_id].refs < usize::MAX
    }

    open spec fn duplicated(&self, task_id: usize, after: &Self) -> bool {
        after.wf() && after@ == self@.duplicate(task_id)
    }

    open spec fn can_release(&self, task_id: usize) -> bool {
        self.wf() && self@.contains(task_id) && self@.tasks[task_id].refs > 1
    }

    open spec fn released(&self, task_id: usize, after: &Self) -> bool {
        after.wf() && after@ == self@.release(task_id)
    }

    fn wake(&mut self, task_id: usize) {
        Tasks::wake(self, task_id)
    }

    fn duplicate(&mut self, handle: &WakeHandle) -> (h: WakeHandle) {
        Tasks::duplicate(self, handle)
    }

    fn release(&mut self, handle: WakeHandle) {
        Tasks::release(self, handle)
    }
}

/// A continuation that has nothing to wait for: it is done when it is first
/// resumed, and acts neither on the pool nor on its environment.
pub struct Immediate;

impl<E> Continuation<E> for Immediate {
    type Fixed = ();

    open spec fn fixed(env: &E) -> () {
        ()
    }

    /// No owned wake handle of such a task is ever out.
    open spec fn inv(env: &E, tasks: TasksView<Self>) -> bool {
        forall|id: usize| tasks.contains(id) ==> (#[trigger] tasks.tasks[id]).refs == 1
    }

    /// Every task is queued: none waits for anything.
    open spec fn live(env: &E, tasks: TasksView<Self>) -> bool {
        tasks.inv() && tasks.all_awake() && tasks.tasks.dom().len() <= usize::MAX
    }

    /// One resume for each task.
    open spec fn fuel(env: &E, tasks: TasksView<Self>) -> usize {
        tasks.tasks.dom().len() as usize
    }

    fn resume(&mut self, waker: &WakeHandle, tasks: &mut Tasks<Self>, env: &mut E) -> (step: Step) {
        proof {
            let id = waker@;
            let before = tasks@.suspend(id, *self).requeue(id);
            let after = tasks@.finish(id);
            tasks.lemma_inv();
            assert(tasks@.suspend(id, *self).at_rest().contains(id));
            assert(tasks@.suspend(id, *self).at_rest().tasks[id].refs == 1);
            assert forall|k: usize| after.at_rest().contains(k) implies (
            #[trigger] after.at_rest().tasks[k]).refs == 1 by {
                assert(tasks@.suspend(id, *self).at_rest().contains(k));
                assert(tasks@.suspend(id, *self).at_rest().tasks[k].refs == 1);
            }
            assert(!tasks@.ready.contains(id));
            assert(before.tasks.dom() =~= tasks@.tasks.dom());
            assert(after.tasks.dom() =~= tasks@.tasks.dom().remove(id));
            if <Self as Continuation<E>>::live(env, before) {
                assert forall|k: usize| after.contains(k) implies (#[trigger] after.tasks[k]).awake by {
                    assert(before.contains(k));
                    assert(before.tasks[k].awake);
                }
                assert(after.inv());
            }
        }
        Step::Done
    }

    fn park(tasks: &mut Tasks<Self>, env: &mut E) {
        proof {
            tasks.lemma_inv();
            if <Self as Continuation<E>>::live(env, tasks@) {
                let id = tasks@.tasks.dom().choose();
                assert(tasks@.contains(id));
                assert(tasks@.tasks[id].awake);
                assert(tasks@.ready.contains(id));
            }
            assert(tasks@.parked().at_rest().tasks =~= tasks@.at_rest().tasks);
        }
    }
}

/// Spawns `n` tasks that are done when first resumed into a new scheduler
/// for at most `tasks_max`, and runs it. Whatever `n` is, up to the maximum,
/// exactly `n` tasks complete and none is left; each was resumed once, in
/// one pass through the queue, and the scheduler never parked.
pub fn run_immediate(tasks_max: usize, n: usize) -> (e: BoxExecutor<Immediate>)
    requires
        n <= tasks_max,
    ensures
        e.wf(),
        e@.tasks == Map::<usize, TaskView<Immediate>>::empty(),
        e@.spawned == n,
        e@.completed == n,
        e@.resumes == n,
        e@.parks == 0,
        e.passes() == 1,
{
    let mut e: BoxExecutor<Immediate> = BoxExecutor::new(tasks_max);
    let mut i: usize = 0;
    while i < n
        invariant
            e.wf(),
            e@.inv(),
            e@.idle(),
            e@.all_awake(),
            e@.limit == tasks_max,
            e@.tasks.dom().len() == i,
            e@.spawned == i,
            e@.completed == 0,
            e@.resumes == 0,
            e@.parks == 0,
            e.passes() == 0,
            forall|id: usize| e@.contains(id) ==> (#[trigger] e@.tasks[id]).refs == 1,
            0 <= i <= n <= tasks_max,
        decreases n - i,
    {
        let ghost before = e@;
        let r = e.spawn(Box::new(Immediate));
        proof {
            let id = choose|id: usize|
                !before.contains(id) && e@ == #[trigger] before.spawn(id, Immediate);
            assert(e@.tasks.dom() =~= before.tasks.dom().insert(id));
            lemma_spawn_keeps_inv(before, id, Immediate);
        }
        i = i + 1;
    }
    let mut env = ();
    let ghost before = e@;
    proof {
        assert forall|id: usize| before.at_rest().contains(id) implies (
        #[trigger] before.at_rest().tasks[id]).refs == 1 by {
            assert(before.contains(id));
            assert(before.tasks[id].refs == 1);
        }
    }
    let finished = e.run(&mut env, n);
    proof {
        if !finished {
            assert(<Immediate as Continuation<()>>::fuel(&env, e@) == 0);
        }
    }
    e
}

} // verus!
