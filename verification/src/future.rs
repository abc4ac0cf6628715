//! The reactor: a table of registrations that maps readiness events back to
//! the tasks that wait for them.

use crate::arena::{Arena, CapacityExceeded};
use crate::events::Events;
use crate::executor::{Tasks, TasksView};
use crate::fakeio::{
    events_of, hello_line, reports_all, Evented, FakeListener, FakeStream, Poll, Stats,
    StatsType, READABLE, WRITABLE,
};
use crate::waker::WakeHandle;
use vstd::prelude::*;

verus! {

/// One registration in its slot.
pub struct EventRegistration {
    ready: bool,
    waker: Option<WakeHandle>,
}

/// One registration as contracts see it.
pub ghost struct RegView {
    /// Whether the source was reported ready and has not blocked since.
    pub ready: bool,
    /// The task to wake on the next readiness event, if one is bound.
    pub waker: Option<usize>,
}

impl EventRegistration {
    pub closed spec fn view(self) -> RegView {
        RegView {
            ready: self.ready,
            waker: match self.waker {
                Some(h) => Some(h@),
                None => None,
            },
        }
    }
}

/// The capability that stands for one registration. Giving it back to the
/// reactor ends the registration.
#[derive(Debug)]
pub struct RegistrationHandle {
    key: usize,
}

impl View for RegistrationHandle {
    type V = usize;

    /// The key of the registration.
    closed spec fn view(&self) -> usize {
        self.key
    }
}

/// The registrations and the tasks after a readiness event for `key`: the
/// registration is ready, and the task that was bound to it is woken, its
/// handle given back and the binding cleared. An event for a key that is not
/// registered changes nothing.
pub open spec fn fire<C>(regs: Map<usize, RegView>, tasks: TasksView<C>, key: usize) -> (
    Map<usize, RegView>,
    TasksView<C>,
) {
    if regs.dom().contains(key) {
        let fired = regs.insert(key, RegView { ready: true, waker: None });
        match regs[key].waker {
            Some(t) => (fired, tasks.wake(t).release(t)),
            None => (fired, tasks),
        }
    } else {
        (regs, tasks)
    }
}

/// Whether the handle that an event for `key` would fire is one of a live
/// task, and an owned one.
pub open spec fn can_fire<C>(regs: Map<usize, RegView>, tasks: TasksView<C>, key: usize) -> bool {
    regs.dom().contains(key) ==> (regs[key].waker matches Some(t) ==> tasks.contains(t)
        && tasks.tasks[t].refs > 1)
}

/// The registrations and the tasks after the events, taken in order.
pub open spec fn fire_all<C>(
    regs: Map<usize, RegView>,
    tasks: TasksView<C>,
    events: Seq<(usize, u8)>,
) -> (Map<usize, RegView>, TasksView<C>)
    decreases events.len(),
{
    if events.len() == 0 {
        (regs, tasks)
    } else {
        let next = fire(regs, tasks, events[0].0);
        fire_all(next.0, next.1, events.drop_first())
    }
}

/// Whether every event, taken in order, fires a handle that is then valid.
pub open spec fn can_fire_all<C>(
    regs: Map<usize, RegView>,
    tasks: TasksView<C>,
    events: Seq<(usize, u8)>,
) -> bool
    decreases events.len(),
{
    events.len() == 0 || {
        let next = fire(regs, tasks, events[0].0);
        can_fire(regs, tasks, events[0].0) && can_fire_all(next.0, next.1, events.drop_first())
    }
}

/// The registrations after `task` was bound to `key`.
pub open spec fn bound(regs: Map<usize, RegView>, key: usize, task: Option<usize>) -> Map<
    usize,
    RegView,
> {
    regs.insert(key, RegView { waker: task, ..regs[key] })
}

/// The tasks after `task` was bound where `prior` was bound before: nothing
/// changes if they are the same; otherwise a handle of `task` is made, and
/// the handle of `prior` given back.
pub open spec fn after_bind<C>(tasks: TasksView<C>, prior: Option<usize>, task: usize) -> TasksView<
    C,
> {
    match prior {
        Some(t) => if t == task {
            tasks
        } else {
            tasks.duplicate(task).release(t)
        },
        None => tasks.duplicate(task),
    }
}

/// The tasks after the binding of `prior` was cleared: its handle is given
/// back.
pub open spec fn after_unbind<C>(tasks: TasksView<C>, prior: Option<usize>) -> TasksView<C> {
    match prior {
        Some(t) => tasks.release(t),
        None => tasks,
    }
}

/// Whether `task` can be bound where `prior` is bound: it is live and its
/// count has room, and the handle of `prior` can be given back.
pub open spec fn can_bind<C>(tasks: TasksView<C>, prior: Option<usize>, task: usize) -> bool {
    prior != Some(task) ==> {
        &&& tasks.contains(task)
        &&& tasks.tasks[task].refs < usize::MAX
        &&& prior matches Some(t) ==> tasks.contains(t) && tasks.tasks[t].refs > 1
    }
}

/// Whether the binding of `prior` can be cleared: its handle is one of a
/// live task, and an owned one.
pub open spec fn can_unbind<C>(tasks: TasksView<C>, prior: Option<usize>) -> bool {
    prior matches Some(t) ==> tasks.contains(t) && tasks.tasks[t].refs > 1
}

/// A readiness event wakes the bound task exactly once: the task is queued
/// at the back, the pool's invariant holds, and the binding is cleared, so
/// that a second event for the same key changes nothing.
pub proof fn lemma_event_wakes_once<C>(
    regs: Map<usize, RegView>,
    tasks: TasksView<C>,
    key: usize,
    task: usize,
)
    requires
        tasks.inv(),
        regs.dom().contains(key),
        regs[key].waker == Some(task),
        tasks.contains(task),
        !tasks.tasks[task].awake,
        tasks.tasks[task].refs > 1,
    ensures
        fire(regs, tasks, key).1.ready == tasks.ready.push(task),
        fire(regs, tasks, key).1.tasks[task].awake,
        fire(regs, tasks, key).1.inv(),
        fire(regs, tasks, key).0[key].waker is None,
        fire(fire(regs, tasks, key).0, fire(regs, tasks, key).1, key) == fire(regs, tasks, key),
{
    let once = fire(regs, tasks, key);
    crate::executor::lemma_wake_keeps_inv(tasks, task);
    let woken = tasks.wake(task);
    assert(once.1.tasks.dom() =~= woken.tasks.dom());
    assert(once.0.insert(key, RegView { ready: true, waker: None }) =~= once.0);
}

/// Events never put a task to sleep.
pub proof fn lemma_fire_all_keeps_awake<C>(
    regs: Map<usize, RegView>,
    tasks: TasksView<C>,
    events: Seq<(usize, u8)>,
    task: usize,
)
    requires
        tasks.tasks[task].awake,
    ensures
        fire_all(regs, tasks, events).1.tasks[task].awake,
    decreases events.len(),
{
    if events.len() > 0 {
        let next = fire(regs, tasks, events[0].0);
        lemma_fire_all_keeps_awake(next.0, next.1, events.drop_first(), task);
    }
}

/// No readiness event is missed: a task that is bound to a registration is
/// awake after a poll that reports the registration's key.
pub proof fn lemma_fire_all_wakes<C>(
    regs: Map<usize, RegView>,
    tasks: TasksView<C>,
    events: Seq<(usize, u8)>,
    key: usize,
    task: usize,
)
    requires
        regs.dom().contains(key),
        regs[key].waker == Some(task),
        exists|i: int| 0 <= i < events.len() && (#[trigger] events[i]).0 == key,
    ensures
        fire_all(regs, tasks, events).1.tasks[task].awake,
    decreases events.len(),
{
    let next = fire(regs, tasks, events[0].0);
    let rest = events.drop_first();
    if events[0].0 == key {
        lemma_fire_all_keeps_awake(next.0, next.1, rest, task);
    } else {
        let i = choose|i: int| 0 <= i < events.len() && (#[trigger] events[i]).0 == key;
        assert(rest[i - 1] == events[i]);
        lemma_fire_all_wakes(next.0, next.1, rest, key, task);
    }
}

/// Events never add or remove a registration.
pub proof fn lemma_fire_all_keeps_keys<C>(
    regs: Map<usize, RegView>,
    tasks: TasksView<C>,
    events: Seq<(usize, u8)>,
)
    ensures
        fire_all(regs, tasks, events).0.dom() == regs.dom(),
    decreases events.len(),
{
    if events.len() > 0 {
        let next = fire(regs, tasks, events[0].0);
        assert(next.0.dom() =~= regs.dom());
        lemma_fire_all_keeps_keys(next.0, next.1, events.drop_first());
    }
}

/// Once a registration has been released, an event for its key changes
/// nothing, and no later poll brings the key back, whatever it reports.
pub proof fn lemma_released_key_is_silent<C>(
    regs: Map<usize, RegView>,
    tasks: TasksView<C>,
    key: usize,
    events: Seq<(usize, u8)>,
)
    ensures
        fire(regs.remove(key), tasks, key) == (regs.remove(key), tasks),
        !fire_all(regs.remove(key), tasks, events).0.dom().contains(key),
{
    lemma_fire_all_keeps_keys(regs.remove(key), tasks, events);
}

/// The reactor: the registration table and the readiness source it polls.
pub struct FakeReactor {
    registrations: Arena<EventRegistration>,
    events: Events,
    poll: Poll,
}

impl FakeReactor {
    /// The registrations by key.
    pub closed spec fn regs(&self) -> Map<usize, RegView> {
        Map::new(
            |k: usize| self.registrations@.dom().contains(k),
            |k: usize| self.registrations@[k].view(),
        )
    }

    /// The configured maximum number of registrations.
    pub closed spec fn limit(&self) -> nat {
        self.registrations.limit()
    }

    /// What is registered with the readiness source, by index: the interest
    /// and the key of each.
    pub closed spec fn items(&self) -> Map<usize, (u8, usize)> {
        self.poll.items()
    }

    pub closed spec fn wf(&self) -> bool {
        &&& self.registrations.wf()
        &&& self.poll.wf()
    }

    /// A well-formed reactor holds finitely many registrations, at most its
    /// limit, and finitely many objects.
    pub proof fn lemma_bounded(&self)
        requires
            self.wf(),
        ensures
            self.regs().dom().finite(),
            self.regs().dom().len() <= self.limit(),
            self.items().dom().finite(),
    {
        self.registrations.lemma_bounded();
        self.poll.lemma_bounded();
        assert(self.regs().dom() =~= self.registrations@.dom());
    }

    /// A reactor without registrations, for at most `registrations_max` of
    /// them. Its readiness source and its list of events have room for 128
    /// objects and grow when more are registered.
    pub fn new(registrations_max: usize) -> (r: Self)
        ensures
            r.wf(),
            r.regs() == Map::<usize, RegView>::empty(),
            r.items() == Map::<usize, (u8, usize)>::empty(),
            r.limit() == registrations_max,
    {
        let r = FakeReactor {
            registrations: Arena::new(registrations_max),
            events: Events::new(128),
            poll: Poll::new(128),
        };
        assert(r.regs() =~= Map::<usize, RegView>::empty());
        r
    }

    /// The number of registrations.
    pub fn len(&self) -> (n: usize)
        requires
            self.wf(),
        ensures
            n == self.regs().dom().len(),
    {
        proof {
            assert(self.regs().dom() =~= self.registrations@.dom());
        }
        self.registrations.len()
    }

    /// Whether the registration table is at its maximum.
    pub fn is_full(&self) -> (b: bool)
        requires
            self.wf(),
        ensures
            b == (self.regs().dom().len() == self.limit()),
    {
        proof {
            assert(self.regs().dom() =~= self.registrations@.dom());
        }
        self.registrations.len() == self.registrations.capacity()
    }

    /// Registers interest in `handle`: makes a registration, not ready and
    /// with no task bound, and enters the object in the readiness source
    /// under the registration's key. When the table is at its maximum nothing
    /// is changed.
    pub fn register<E: Evented, S: Stats>(&mut self, handle: &mut E, interest: u8, stats: &mut S) -> (r:
        Result<RegistrationHandle, CapacityExceeded>)
        requires
            old(self).wf(),
        ensures
            final(self).wf(),
            final(self).limit() == old(self).limit(),
            r is Err <==> old(self).regs().dom().len() == old(self).limit(),
            r is Err ==> final(self).regs() == old(self).regs() && final(self).items() == old(self).items() && *final(handle) == *old(handle) && final(stats).metrics() == old(stats).metrics(),
            r matches Ok(h) ==> {
                &&& !old(self).regs().dom().contains(h@)
                &&& final(self).regs() == old(self).regs().insert(
                    h@,
                    RegView { ready: false, waker: None },
                )
                &&& final(handle).poll_index() matches Some(index)
                &&& !old(self).items().dom().contains(index)
                &&& final(self).items() == old(self).items().insert(index, (interest, h@))
                &&& *final(handle) == old(handle).with_poll_index(Some(index))
                &&& final(stats).metrics() == old(stats).metrics().bump(StatsType::Register)
            },
    {
        if self.is_full() {
            return Err(CapacityExceeded);
        }
        let ghost before = self.regs();
        proof {
            assert(before.dom() =~= self.registrations@.dom());
        }
        let key = match self.registrations.insert(EventRegistration { ready: false, waker: None }) {
            Ok(key) => key,
            Err(e) => {
                return Err(e);
            },
        };
        self.poll.register(handle, key, interest, stats);
        proof {
            assert(self.regs() =~= before.insert(key, RegView { ready: false, waker: None }));
        }
        Ok(RegistrationHandle { key })
    }

    /// Takes `handle` out of the readiness source. The registration itself
    /// ends when its handle is given back.
    pub fn unregister<E: Evented, S: Stats>(&mut self, handle: &mut E, stats: &mut S)
        requires
            old(self).wf(),
            old(handle).poll_index() matches Some(index) ==> old(self).items().dom().contains(
                index,
            ),
        ensures
            final(self).wf(),
            final(self).limit() == old(self).limit(),
            final(self).regs() == old(self).regs(),
            final(stats).metrics() == old(stats).metrics().bump(StatsType::Unregister),
            old(handle).poll_index() is None ==> final(self).items() == old(self).items()
                && *final(handle) == *old(handle),
            old(handle).poll_index() matches Some(index) ==> final(self).items() == old(self).items().remove(index) && *final(handle) == old(handle).with_poll_index(None),
    {
        self.poll.unregister(handle, stats);
    }

    /// Ends the registration. A task that is still bound to it gets its
    /// handle given back and is not woken.
    pub fn release<C>(&mut self, handle: RegistrationHandle, tasks: &mut Tasks<C>)
        requires
            old(self).wf(),
            old(tasks).wf(),
            old(self).regs().dom().contains(handle@),
            can_unbind(old(tasks)@, old(self).regs()[handle@].waker),
        ensures
            final(self).wf(),
            final(tasks).wf(),
            final(tasks).passes() == old(tasks).passes(),
            final(self).limit() == old(self).limit(),
            final(self).items() == old(self).items(),
            final(self).regs() == old(self).regs().remove(handle@),
            final(tasks)@ == after_unbind(old(tasks)@, old(self).regs()[handle@].waker),
    {
        let ghost before = self.regs();
        let registration = self.registrations.remove(handle.key);
        if let Some(w) = registration.waker {
            tasks.release(w);
        }
        proof {
            assert(self.regs() =~= before.remove(handle@));
        }
    }

    /// Asks the readiness source once. Every registration that it reports
    /// becomes ready; a task bound to one is woken, once, and the binding is
    /// cleared, so that the task has to bind again to be woken again.
    pub fn poll<C, S: Stats>(&mut self, tasks: &mut Tasks<C>, stats: &mut S)
        requires
            old(self).wf(),
            old(tasks).wf(),
            can_fire_all(old(self).regs(), old(tasks)@, events_of(old(self).items())),
        ensures
            final(self).wf(),
            final(tasks).wf(),
            final(tasks).passes() == old(tasks).passes(),
            final(self).limit() == old(self).limit(),
            final(self).items() == old(self).items(),
            final(stats).metrics() == old(stats).metrics().bump(StatsType::Poll),
            (final(self).regs(), final(tasks)@) == fire_all(
                old(self).regs(),
                old(tasks)@,
                events_of(old(self).items()),
            ),
            reports_all(old(self).items(), events_of(old(self).items())),
    {
        self.poll.poll(&mut self.events, stats);
        let ghost events = self.events@;
        let ghost regs0 = self.regs();
        let ghost tasks0 = tasks@;
        let mut i: usize = 0;
        assert(events.skip(0) =~= events);
        while i < self.events.len()
            invariant
                self.wf(),
                tasks.wf(),
                tasks.passes() == old(tasks).passes(),
                self.events.wf(),
                self.events@ == events,
                0 <= i <= events.len(),
                self.limit() == old(self).limit(),
                self.items() == old(self).items(),
                can_fire_all(self.regs(), tasks@, events.skip(i as int)),
                fire_all(self.regs(), tasks@, events.skip(i as int)) == fire_all(
                    regs0,
                    tasks0,
                    events,
                ),
            decreases events.len() - i,
        {
            let key = self.events.get(i).0;
            let ghost regs = self.regs();
            let ghost rest = events.skip(i as int);
            proof {
                assert(rest[0] == events[i as int]);
                assert(rest.drop_first() =~= events.skip(i + 1));
                assert(regs.dom() =~= self.registrations@.dom());
            }
            if self.registrations.contains(key) {
                let registration = self.registrations.get_mut(key);
                registration.ready = true;
                let mut fired = None;
                std::mem::swap(&mut fired, &mut registration.waker);
                if let Some(w) = fired {
                    tasks.wake_and_release(w);
                }
                proof {
                    assert(self.regs() =~= regs.insert(key, RegView { ready: true, waker: None }));
                }
            }
            i = i + 1;
        }
        proof {
            assert(events.skip(events.len() as int) =~= Seq::<(usize, u8)>::empty());
        }
    }
}

impl RegistrationHandle {
    /// Whether the source was reported ready and has not blocked since.
    pub fn is_ready(&self, reactor: &FakeReactor) -> (b: bool)
        requires
            reactor.wf(),
            reactor.regs().dom().contains(self@),
        ensures
            b == reactor.regs()[self@].ready,
    {
        reactor.registrations.get(self.key).unwrap().ready
    }

    /// Sets the ready flag. It is cleared by whoever finds that the source
    /// would block again.
    pub fn set_ready(&self, reactor: &mut FakeReactor, ready: bool)
        requires
            old(reactor).wf(),
            old(reactor).regs().dom().contains(self@),
        ensures
            final(reactor).wf(),
            final(reactor).limit() == old(reactor).limit(),
            final(reactor).items() == old(reactor).items(),
            final(reactor).regs() == old(reactor).regs().insert(
                self@,
                RegView { ready, ..old(reactor).regs()[self@] },
            ),
    {
        let ghost before = reactor.regs();
        reactor.registrations.get_mut(self.key).ready = ready;
        proof {
            assert(reactor.regs() =~= before.insert(self@, RegView { ready, ..before[self@] }));
        }
    }

    /// Binds the task of `waker` to the registration, to be woken on the next
    /// readiness event. If that task is bound already nothing changes.
    /// Otherwise an owned handle of it is made and stored, and the handle
    /// that was stored before, if any, is given back.
    pub fn bind_waker<C>(&self, reactor: &mut FakeReactor, waker: &WakeHandle, tasks: &mut Tasks<C>)
        requires
            old(reactor).wf(),
            old(tasks).wf(),
            old(reactor).regs().dom().contains(self@),
            can_bind(old(tasks)@, old(reactor).regs()[self@].waker, waker@),
        ensures
            final(reactor).wf(),
            final(tasks).wf(),
            final(tasks).passes() == old(tasks).passes(),
            final(reactor).limit() == old(reactor).limit(),
            final(reactor).items() == old(reactor).items(),
            final(reactor).regs() == bound(old(reactor).regs(), self@, Some(waker@)),
            final(tasks)@ == after_bind(old(tasks)@, old(reactor).regs()[self@].waker, waker@),
    {
        let ghost before = reactor.regs();
        let same = match &reactor.registrations.get(self.key).unwrap().waker {
            Some(current) => current.will_wake(waker),
            None => false,
        };
        if same {
            proof {
                assert(reactor.regs() =~= bound(before, self@, Some(waker@)));
            }
            return ;
        }
        let mut stored = Some(tasks.duplicate(waker));
        std::mem::swap(&mut stored, &mut reactor.registrations.get_mut(self.key).waker);
        if let Some(prior) = stored {
            tasks.release(prior);
        }
        proof {
            assert(reactor.regs() =~= bound(before, self@, Some(waker@)));
        }
    }

    /// Clears the binding. The handle that was stored, if any, is given back
    /// and its task is not woken.
    pub fn unbind_waker<C>(&self, reactor: &mut FakeReactor, tasks: &mut Tasks<C>)
        requires
            old(reactor).wf(),
            old(tasks).wf(),
            old(reactor).regs().dom().contains(self@),
            can_unbind(old(tasks)@, old(reactor).regs()[self@].waker),
        ensures
            final(reactor).wf(),
            final(tasks).wf(),
            final(tasks).passes() == old(tasks).passes(),
            final(reactor).limit() == old(reactor).limit(),
            final(reactor).items() == old(reactor).items(),
            final(reactor).regs() == bound(old(reactor).regs(), self@, None),
            final(tasks)@ == after_unbind(old(tasks)@, old(reactor).regs()[self@].waker),
    {
        let ghost before = reactor.regs();
        let mut stored = None;
        std::mem::swap(&mut stored, &mut reactor.registrations.get_mut(self.key).waker);
        if let Some(prior) = stored {
            tasks.release(prior);
        }
        proof {
            assert(reactor.regs() =~= bound(before, self@, None));
        }
    }
}

/// What a poll of a stream or listener does to its registration when the
/// attempt was made: ready and unbound after success, not ready and still
/// bound after it would have blocked.
pub open spec fn attempted_reg(blocked: bool, task: usize) -> RegView {
    if blocked {
        RegView { ready: false, waker: Some(task) }
    } else {
        RegView { ready: true, waker: None }
    }
}

/// A stream with its registration.
pub struct AsyncFakeStream {
    pub inner: FakeStream,
    pub handle: RegistrationHandle,
}

impl AsyncFakeStream {
    /// Registers the stream for reading and writing and marks it ready, so
    /// that the first attempt is made at once.
    pub fn new<S: Stats>(s: FakeStream, reactor: &mut FakeReactor, stats: &mut S) -> (a: Self)
        requires
            old(reactor).wf(),
            old(reactor).regs().dom().len() < old(reactor).limit(),
        ensures
            final(reactor).wf(),
            final(reactor).limit() == old(reactor).limit(),
            final(stats).metrics() == old(stats).metrics().bump(StatsType::Register),
            !old(reactor).regs().dom().contains(a.handle@),
            final(reactor).regs() == old(reactor).regs().insert(
                a.handle@,
                RegView { ready: true, waker: None },
            ),
            a.inner.poll_index matches Some(index) && !old(reactor).items().dom().contains(index)
                && final(reactor).items() == old(reactor).items().insert(
                index,
                (READABLE | WRITABLE, a.handle@),
            ) && a.inner == (FakeStream { poll_index: Some(index), ..s }),
    {
        let mut s = s;
        let ghost before = reactor.regs();
        let handle = match reactor.register(&mut s, READABLE | WRITABLE, stats) {
            Ok(handle) => handle,
            Err(_) => vstd::pervasive::unreached(),
        };
        handle.set_ready(reactor, true);
        proof {
            assert(reactor.regs() =~= before.insert(handle@, RegView { ready: true, waker: None }));
        }
        AsyncFakeStream { inner: s, handle }
    }

    /// Polls a read into `buf` from position `at` on. The task of `waker` is
    /// bound first. If the stream is not ready nothing is attempted. An
    /// attempt that succeeds ends the read: the binding is cleared and the
    /// number of bytes returned. One that would block clears the ready flag
    /// and leaves the task bound.
    pub fn read<C, S: Stats>(
        &mut self,
        buf: &mut Vec<u8>,
        at: usize,
        waker: &WakeHandle,
        reactor: &mut FakeReactor,
        tasks: &mut Tasks<C>,
        stats: &mut S,
    ) -> (r: Option<usize>)
        requires
            old(reactor).wf(),
            old(tasks).wf(),
            old(reactor).regs().dom().contains(old(self).handle@),
            old(tasks)@.contains(waker@),
            can_bind(old(tasks)@, old(reactor).regs()[old(self).handle@].waker, waker@),
            can_unbind(old(tasks)@, old(reactor).regs()[old(self).handle@].waker),
            old(reactor).regs()[old(self).handle@].ready && !old(self).inner.will_block() ==> at
                + hello_line().len() <= old(buf)@.len(),
        ensures
            final(reactor).wf(),
            final(tasks).wf(),
            final(tasks).passes() == old(tasks).passes(),
            final(reactor).limit() == old(reactor).limit(),
            final(reactor).items() == old(reactor).items(),
            final(self).handle == old(self).handle,
            ({
                let key = old(self).handle@;
                let reg = old(reactor).regs()[key];
                let rebound = after_bind(old(tasks)@, reg.waker, waker@);
                if !reg.ready {
                    &&& r is None
                    &&& final(self).inner == old(self).inner
                    &&& final(buf)@ == old(buf)@
                    &&& final(stats).metrics() == old(stats).metrics()
                    &&& final(reactor).regs() == bound(old(reactor).regs(), key, Some(waker@))
                    &&& final(tasks)@ == rebound
                } else {
                    let blocked = old(self).inner.will_block();
                    &&& r is None <==> blocked
                    &&& final(self).inner == old(self).inner.attempted()
                    &&& final(stats).metrics() == old(stats).metrics().bump(StatsType::Read)
                    &&& final(reactor).regs() == old(reactor).regs().insert(
                        key,
                        attempted_reg(blocked, waker@),
                    )
                    &&& blocked ==> final(buf)@ == old(buf)@ && final(tasks)@ == rebound
                    &&& !blocked ==> r == Some(hello_line().len() as usize) && final(buf)@ == old(buf)@.subrange(0, at as int) + hello_line() + old(buf)@.subrange(
                        at + hello_line().len(),
                        old(buf)@.len() as int,
                    ) && final(tasks)@ == rebound.release(waker@)
                }
            }),
    {
        let ghost before = reactor.regs();
        let ghost key = self.handle@;
        proof {
            tasks.lemma_inv();
        }
        self.handle.bind_waker(reactor, waker, tasks);
        if !self.handle.is_ready(reactor) {
            return None;
        }
        match self.inner.read(buf, at, stats) {
            Ok(n) => {
                proof {
                    lemma_bound_counts(old(tasks)@, before[key].waker, waker@);
                }
                self.handle.unbind_waker(reactor, tasks);
                proof {
                    assert(reactor.regs() =~= before.insert(key, attempted_reg(false, waker@)));
                }
                Some(n)
            },
            Err(_) => {
                self.handle.set_ready(reactor, false);
                proof {
                    assert(reactor.regs() =~= before.insert(key, attempted_reg(true, waker@)));
                }
                None
            },
        }
    }

    /// Polls a write of `len` bytes, in the way of [`Self::read`].
    pub fn write<C, S: Stats>(
        &mut self,
        len: usize,
        waker: &WakeHandle,
        reactor: &mut FakeReactor,
        tasks: &mut Tasks<C>,
        stats: &mut S,
    ) -> (r: Option<usize>)
        requires
            old(reactor).wf(),
            old(tasks).wf(),
            old(reactor).regs().dom().contains(old(self).handle@),
            old(tasks)@.contains(waker@),
            can_bind(old(tasks)@, old(reactor).regs()[old(self).handle@].waker, waker@),
            can_unbind(old(tasks)@, old(reactor).regs()[old(self).handle@].waker),
        ensures
            final(reactor).wf(),
            final(tasks).wf(),
            final(tasks).passes() == old(tasks).passes(),
            final(reactor).limit() == old(reactor).limit(),
            final(reactor).items() == old(reactor).items(),
            final(self).handle == old(self).handle,
            ({
                let key = old(self).handle@;
                let reg = old(reactor).regs()[key];
                let rebound = after_bind(old(tasks)@, reg.waker, waker@);
                if !reg.ready {
                    &&& r is None
                    &&& final(self).inner == old(self).inner
                    &&& final(stats).metrics() == old(stats).metrics()
                    &&& final(reactor).regs() == bound(old(reactor).regs(), key, Some(waker@))
                    &&& final(tasks)@ == rebound
                } else {
                    let blocked = old(self).inner.will_block();
                    &&& r is None <==> blocked
                    &&& final(self).inner == old(self).inner.attempted()
                    &&& final(stats).metrics() == old(stats).metrics().bump(StatsType::Write)
                    &&& final(reactor).regs() == old(reactor).regs().insert(
                        key,
                        attempted_reg(blocked, waker@),
                    )
                    &&& blocked ==> final(tasks)@ == rebound
                    &&& !blocked ==> r == Some(len) && final(tasks)@ == rebound.release(waker@)
                }
            }),
    {
        let ghost before = reactor.regs();
        let ghost key = self.handle@;
        proof {
            tasks.lemma_inv();
        }
        self.handle.bind_waker(reactor, waker, tasks);
        if !self.handle.is_ready(reactor) {
            return None;
        }
        match self.inner.write(len, stats) {
            Ok(n) => {
                proof {
                    lemma_bound_counts(old(tasks)@, before[key].waker, waker@);
                }
                self.handle.unbind_waker(reactor, tasks);
                proof {
                    assert(reactor.regs() =~= before.insert(key, attempted_reg(false, waker@)));
                }
                Some(n)
            },
            Err(_) => {
                self.handle.set_ready(reactor, false);
                proof {
                    assert(reactor.regs() =~= before.insert(key, attempted_reg(true, waker@)));
                }
                None
            },
        }
    }

    /// Gives the stream up: takes it out of the readiness source and ends
    /// its registration.
    pub fn close<C, S: Stats>(self, reactor: &mut FakeReactor, tasks: &mut Tasks<C>, stats: &mut S)
        requires
            old(reactor).wf(),
            old(tasks).wf(),
            old(reactor).regs().dom().contains(self.handle@),
            self.inner.poll_index matches Some(index) ==> old(reactor).items().dom().contains(
                index,
            ),
            can_unbind(old(tasks)@, old(reactor).regs()[self.handle@].waker),
        ensures
            final(reactor).wf(),
            final(tasks).wf(),
            final(tasks).passes() == old(tasks).passes(),
            final(reactor).limit() == old(reactor).limit(),
            final(stats).metrics() == old(stats).metrics().bump(StatsType::Unregister),
            final(reactor).regs() == old(reactor).regs().remove(self.handle@),
            final(reactor).items() == (match self.inner.poll_index {
                Some(index) => old(reactor).items().remove(index),
                None => old(reactor).items(),
            }),
            final(tasks)@ == after_unbind(old(tasks)@, old(reactor).regs()[self.handle@].waker),
    {
        let mut inner = self.inner;
        reactor.unregister(&mut inner, stats);
        reactor.release(self.handle, tasks);
    }
}

/// A listener with its registration.
pub struct AsyncFakeListener {
    pub inner: FakeListener,
    pub handle: RegistrationHandle,
}

impl AsyncFakeListener {
    /// Makes a listener, registers it for reading and marks it ready, so
    /// that the first attempt is made at once.
    pub fn new<S: Stats>(reactor: &mut FakeReactor, stats: &mut S) -> (a: Self)
        requires
            old(reactor).wf(),
            old(reactor).regs().dom().len() < old(reactor).limit(),
        ensures
            final(reactor).wf(),
            final(reactor).limit() == old(reactor).limit(),
            final(stats).metrics() == old(stats).metrics().bump(StatsType::Register),
            !old(reactor).regs().dom().contains(a.handle@),
            final(reactor).regs() == old(reactor).regs().insert(
                a.handle@,
                RegView { ready: true, waker: None },
            ),
            a.inner.poll_index matches Some(index) && !old(reactor).items().dom().contains(index)
                && final(reactor).items() == old(reactor).items().insert(
                index,
                (READABLE, a.handle@),
            ) && a.inner == (FakeListener { poll_index: Some(index), calls: 0 }),
    {
        let mut l = FakeListener::new();
        let ghost before = reactor.regs();
        let handle = match reactor.register(&mut l, READABLE, stats) {
            Ok(handle) => handle,
            Err(_) => vstd::pervasive::unreached(),
        };
        handle.set_ready(reactor, true);
        proof {
            assert(reactor.regs() =~= before.insert(handle@, RegView { ready: true, waker: None }));
        }
        AsyncFakeListener { inner: l, handle }
    }

    /// Polls for a connection. The task of `waker` is bound first. If the
    /// listener is not ready nothing is attempted. An attempt that succeeds
    /// ends the accept: the new stream is registered, the binding cleared
    /// and the stream returned. One that would block clears the ready flag
    /// and leaves the task bound.
    pub fn accept<C, S: Stats>(
        &mut self,
        waker: &WakeHandle,
        reactor: &mut FakeReactor,
        tasks: &mut Tasks<C>,
        stats: &mut S,
    ) -> (r: Option<AsyncFakeStream>)
        requires
            old(reactor).wf(),
            old(tasks).wf(),
            old(reactor).regs().dom().contains(old(self).handle@),
            old(tasks)@.contains(waker@),
            can_bind(old(tasks)@, old(reactor).regs()[old(self).handle@].waker, waker@),
            can_unbind(old(tasks)@, old(reactor).regs()[old(self).handle@].waker),
            old(reactor).regs()[old(self).handle@].ready && !old(self).inner.will_block() ==> old(reactor).regs().dom().len() < old(reactor).limit(),
        ensures
            final(reactor).wf(),
            final(tasks).wf(),
            final(tasks).passes() == old(tasks).passes(),
            final(reactor).limit() == old(reactor).limit(),
            final(self).handle == old(self).handle,
            ({
                let key = old(self).handle@;
                let reg = old(reactor).regs()[key];
                let rebound = after_bind(old(tasks)@, reg.waker, waker@);
                if !reg.ready {
                    &&& r is None
                    &&& final(self).inner == old(self).inner
                    &&& final(stats).metrics() == old(stats).metrics()
                    &&& final(reactor).items() == old(reactor).items()
                    &&& final(reactor).regs() == bound(old(reactor).regs(), key, Some(waker@))
                    &&& final(tasks)@ == rebound
                } else {
                    let blocked = old(self).inner.will_block();
                    let counted = old(stats).metrics().bump(StatsType::Accept);
                    &&& r is None <==> blocked
                    &&& final(self).inner == old(self).inner.attempted()
                    &&& blocked ==> {
                        &&& final(stats).metrics() == counted
                        &&& final(reactor).items() == old(reactor).items()
                        &&& final(reactor).regs() == old(reactor).regs().insert(
                            key,
                            attempted_reg(true, waker@),
                        )
                        &&& final(tasks)@ == rebound
                    }
                    &&& r matches Some(stream) ==> {
                        &&& final(stats).metrics() == counted.bump(StatsType::Register)
                        &&& !old(reactor).regs().dom().contains(stream.handle@)
                        &&& final(reactor).regs() == old(reactor).regs().insert(
                            key,
                            attempted_reg(false, waker@),
                        ).insert(stream.handle@, RegView { ready: true, waker: None })
                        &&& stream.inner.poll_index matches Some(index) && !old(reactor).items().dom().contains(index) && final(reactor).items() == old(reactor).items().insert(index, (READABLE | WRITABLE, stream.handle@))
                            && stream.inner.calls == 0
                        &&& final(tasks)@ == rebound.release(waker@)
                    }
                }
            }),
    {
        let ghost before = reactor.regs();
        let ghost key = self.handle@;
        proof {
            tasks.lemma_inv();
        }
        self.handle.bind_waker(reactor, waker, tasks);
        if !self.handle.is_ready(reactor) {
            return None;
        }
        match self.inner.accept(stats) {
            Ok(accepted) => {
                proof {
                    reactor.lemma_bounded();
                    assert(reactor.regs().dom() =~= before.dom());
                    lemma_bound_counts(old(tasks)@, before[key].waker, waker@);
                }
                let stream = AsyncFakeStream::new(accepted, reactor, stats);
                self.handle.unbind_waker(reactor, tasks);
                proof {
                    assert(reactor.regs() =~= before.insert(key, attempted_reg(false, waker@)).insert(
                        stream.handle@,
                        RegView { ready: true, waker: None },
                    ));
                }
                Some(stream)
            },
            Err(_) => {
                self.handle.set_ready(reactor, false);
                proof {
                    assert(reactor.regs() =~= before.insert(key, attempted_reg(true, waker@)));
                }
                None
            },
        }
    }

    /// Gives the listener up: takes it out of the readiness source and ends
    /// its registration.
    pub fn close<C, S: Stats>(self, reactor: &mut FakeReactor, tasks: &mut Tasks<C>, stats: &mut S)
        requires
            old(reactor).wf(),
            old(tasks).wf(),
            old(reactor).regs().dom().contains(self.handle@),
            self.inner.poll_index matches Some(index) ==> old(reactor).items().dom().contains(
                index,
            ),
            can_unbind(old(tasks)@, old(reactor).regs()[self.handle@].waker),
        ensures
            final(reactor).wf(),
            final(tasks).wf(),
            final(tasks).passes() == old(tasks).passes(),
            final(reactor).limit() == old(reactor).limit(),
            final(stats).metrics() == old(stats).metrics().bump(StatsType::Unregister),
            final(reactor).regs() == old(reactor).regs().remove(self.handle@),
            final(reactor).items() == (match self.inner.poll_index {
                Some(index) => old(reactor).items().remove(index),
                None => old(reactor).items(),
            }),
            final(tasks)@ == after_unbind(old(tasks)@, old(reactor).regs()[self.handle@].waker),
    {
        let mut inner = self.inner;
        reactor.unregister(&mut inner, stats);
        reactor.release(self.handle, tasks);
    }
}

/// After a task was bound, its handle can be given back: the pool counts it.
pub proof fn lemma_bound_counts<C>(tasks: TasksView<C>, prior: Option<usize>, task: usize)
    requires
        tasks.inv(),
        tasks.contains(task),
        can_bind(tasks, prior, task),
        can_unbind(tasks, prior),
    ensures
        after_bind(tasks, prior, task).contains(task),
        after_bind(tasks, prior, task).tasks[task].refs > 1,
{
}

} // verus!
