use rust_async_bench::arena::{Arena, CapacityExceeded, Link};
use rust_async_bench::events::Events;
use rust_async_bench::executor::{
    run_immediate, ArgExecutor, ArgSpawner, BoxExecutor, BoxSpawner, Continuation,
    Immediate as LibImmediate, Start, Step, Tasks, TasksView,
};
use rust_async_bench::fakeio::{
    Evented, FakeListener, FakeStream, Poll, StatsType, WouldBlock, READABLE, WRITABLE,
};
use rust_async_bench::future::{AsyncFakeListener, AsyncFakeStream, FakeReactor};
use rust_async_bench::list::List;
use rust_async_bench::run::{has_newline, zeroed, Stats};
use rust_async_bench::waker::{EmbedWake, EmbedWaker, WakeHandle};

// ---- helpers ----

/// Counts what the continuations under test report.
struct Log {
    resumed: Vec<usize>,
    parks: usize,
    completions: usize,
}

impl Log {
    fn new() -> Self {
        Log { resumed: Vec::new(), parks: 0, completions: 0 }
    }
}

/// A continuation that completes when it is first resumed.
struct Immediate;

impl Continuation<Log> for Immediate {
    type Fixed = ();

    fn fixed(_env: &Log) {}

    fn inv(_env: &Log, _tasks: TasksView<Self>) -> bool {
        true
    }

    fn live(_env: &Log, _tasks: TasksView<Self>) -> bool {
        false
    }

    fn fuel(_env: &Log, _tasks: TasksView<Self>) -> usize {
        0
    }

    fn resume(&mut self, waker: &WakeHandle, _tasks: &mut Tasks<Self>, env: &mut Log) -> Step {
        env.resumed.push(waker.task_id());
        env.completions += 1;
        Step::Done
    }

    fn park(_tasks: &mut Tasks<Self>, env: &mut Log) {
        env.parks += 1;
    }
}

impl Start<u8> for Immediate {
    fn starts(_arg: u8, _c: Self) -> bool {
        true
    }

    fn start(_arg: u8) -> Self {
        Immediate
    }
}

/// A continuation that suspends `left` times, waking itself each time, and
/// then completes.
struct Yielding {
    left: usize,
}

impl Continuation<Log> for Yielding {
    type Fixed = ();

    fn fixed(_env: &Log) {}

    fn inv(_env: &Log, _tasks: TasksView<Self>) -> bool {
        true
    }

    fn live(_env: &Log, _tasks: TasksView<Self>) -> bool {
        false
    }

    fn fuel(_env: &Log, _tasks: TasksView<Self>) -> usize {
        0
    }

    fn resume(&mut self, waker: &WakeHandle, tasks: &mut Tasks<Self>, env: &mut Log) -> Step {
        env.resumed.push(waker.task_id());
        if self.left == 0 {
            env.completions += 1;
            return Step::Done;
        }
        self.left -= 1;
        waker.wake_by_ref(tasks);
        Step::Suspended
    }

    fn park(_tasks: &mut Tasks<Self>, env: &mut Log) {
        env.parks += 1;
    }
}

/// A continuation that spawns `children` immediate-like tasks when first
/// resumed and then completes.
struct Parent {
    children: usize,
}

impl Continuation<Log> for Parent {
    type Fixed = ();

    fn fixed(_env: &Log) {}

    fn inv(_env: &Log, _tasks: TasksView<Self>) -> bool {
        true
    }

    fn live(_env: &Log, _tasks: TasksView<Self>) -> bool {
        false
    }

    fn fuel(_env: &Log, _tasks: TasksView<Self>) -> usize {
        0
    }

    fn resume(&mut self, waker: &WakeHandle, tasks: &mut Tasks<Self>, env: &mut Log) -> Step {
        env.resumed.push(waker.task_id());
        while self.children > 0 {
            self.children -= 1;
            tasks.add(Box::new(Parent { children: 0 })).unwrap();
        }
        env.completions += 1;
        Step::Done
    }

    fn park(_tasks: &mut Tasks<Self>, env: &mut Log) {
        env.parks += 1;
    }
}

// ---- arena ----

#[test]
fn arena_keeps_keys_stable() {
    let mut a: Arena<u32> = Arena::new(3);
    assert!(a.is_empty());
    assert_eq!(a.capacity(), 3);
    let k0 = a.insert(10).unwrap();
    let k1 = a.insert(11).unwrap();
    let k2 = a.insert(12).unwrap();
    assert_eq!(a.len(), 3);
    assert!(k0 != k1 && k1 != k2 && k0 != k2);
    assert_eq!(a.remove(k1), 11);
    assert_eq!(a.len(), 2);
    assert!(!a.contains(k1));
    assert!(a.get(k1).is_none());
    assert_eq!(a.get(k0), Some(&10));
    assert_eq!(a.get(k2), Some(&12));
    let k3 = a.insert(13).unwrap();
    assert_eq!(k3, k1);
    assert_eq!(a.get(k3), Some(&13));
    assert_eq!(a.get(k0), Some(&10));
    assert_eq!(a.get(k2), Some(&12));
}

#[test]
fn arena_fails_fast_at_capacity() {
    let mut a: Arena<u32> = Arena::new(2);
    let k0 = a.insert(1).unwrap();
    let k1 = a.insert(2).unwrap();
    assert_eq!(a.insert(3), Err(CapacityExceeded));
    assert_eq!(a.len(), 2);
    assert_eq!(a.get(k0), Some(&1));
    assert_eq!(a.get(k1), Some(&2));
    a.remove(k0);
    assert!(a.insert(4).is_ok());

    let mut none: Arena<u32> = Arena::new(0);
    assert_eq!(none.insert(1), Err(CapacityExceeded));
    assert!(none.is_empty());
}

#[test]
fn arena_with_a_huge_limit_grows_as_it_fills() {
    let mut a: Arena<u8> = Arena::new(usize::MAX);
    assert_eq!(a.capacity(), usize::MAX);
    let k0 = a.insert(1).unwrap();
    let k1 = a.insert(2).unwrap();
    assert_eq!(a.len(), 2);
    assert_eq!(a.get(k0), Some(&1));
    assert_eq!(a.get(k1), Some(&2));
}

#[test]
fn arena_get_mut_and_replace_change_one_value() {
    let mut a: Arena<String> = Arena::new(2);
    let k0 = a.insert("a".to_string()).unwrap();
    let k1 = a.insert("b".to_string()).unwrap();
    a.get_mut(k0).push('x');
    assert_eq!(a.get(k0).unwrap(), "ax");
    assert_eq!(a.replace(k1, "c".to_string()), "b");
    assert_eq!(a.get(k1).unwrap(), "c");
    assert_eq!(a.get(k0).unwrap(), "ax");
}

#[test]
fn arena_links_and_keys() {
    let mut a: Arena<u8> = Arena::new(4);
    let k0 = a.insert(0).unwrap();
    let k1 = a.insert(1).unwrap();
    let k2 = a.insert(2).unwrap();
    assert_eq!(a.keys(), vec![k0, k1, k2]);
    let l = a.link(k1);
    assert!(l.prev.is_none() && l.next.is_none());
    a.set_link(k1, Link { prev: Some(k0), next: Some(k2) });
    let l = a.link(k1);
    assert_eq!(l.prev, Some(k0));
    assert_eq!(l.next, Some(k2));
    let l = a.link(k0);
    assert!(l.prev.is_none() && l.next.is_none());
    a.set_link(k1, Link { prev: None, next: None });
    a.remove(k1);
    assert_eq!(a.keys(), vec![k0, k2]);
    assert_eq!(*a.get(k2).unwrap(), 2);
}

// ---- list ----

#[test]
fn list_is_first_in_first_out() {
    let mut a: Arena<char> = Arena::new(4);
    let ka = a.insert('a').unwrap();
    let kb = a.insert('b').unwrap();
    let kc = a.insert('c').unwrap();
    let mut l = List::new();
    assert!(l.is_empty());
    assert_eq!(l.front(), None);
    l.push_back(&mut a, kb);
    l.push_back(&mut a, ka);
    l.push_back(&mut a, kc);
    assert!(!l.is_empty());
    assert_eq!(l.front(), Some(kb));
    assert_eq!(l.pop_front(&mut a), Some(kb));
    assert_eq!(l.pop_front(&mut a), Some(ka));
    assert_eq!(l.pop_front(&mut a), Some(kc));
    assert_eq!(l.pop_front(&mut a), None);
    assert!(l.is_empty());
    assert_eq!(a.len(), 3);
}

#[test]
fn list_remove_takes_any_member_and_ignores_others() {
    let mut a: Arena<char> = Arena::new(5);
    let k: Vec<usize> = "abcde".chars().map(|c| a.insert(c).unwrap()).collect();
    let mut l = List::new();
    for i in 0..4 {
        l.push_back(&mut a, k[i]);
    }
    l.remove(&mut a, k[4]); // not queued
    l.remove(&mut a, k[1]); // middle
    l.remove(&mut a, k[0]); // front
    l.remove(&mut a, k[3]); // back
    l.remove(&mut a, k[3]); // again
    assert_eq!(l.front(), Some(k[2]));
    l.push_back(&mut a, k[0]);
    assert_eq!(l.pop_front(&mut a), Some(k[2]));
    assert_eq!(l.pop_front(&mut a), Some(k[0]));
    assert_eq!(l.pop_front(&mut a), None);
}

// ---- wake handles ----

#[test]
fn embed_waker_counts_owned_handles() {
    let mut w = EmbedWaker::new(7);
    assert_eq!(w.ref_count(), 1);
    let lent = w.as_handle();
    assert_eq!(lent.task_id(), 7);
    assert_eq!(w.ref_count(), 1);
    let a = w.duplicate();
    let b = w.duplicate();
    assert_eq!(w.ref_count(), 3);
    assert!(a.will_wake(&b));
    assert!(a.will_wake(&lent));
    assert!(!a.will_wake(&EmbedWaker::new(8).as_handle()));
    w.release(a);
    assert_eq!(w.ref_count(), 2);
    w.release(b);
    assert_eq!(w.ref_count(), 1);
}

#[test]
fn pool_counts_handles_per_task() {
    let mut t: Tasks<Immediate> = Tasks::new(2);
    let a = t.add(Box::new(Immediate)).unwrap();
    let b = t.add(Box::new(Immediate)).unwrap();
    assert_eq!(t.ref_count(a), 1);
    let (wa, ca) = t.begin().unwrap();
    assert_eq!(wa.task_id(), a);
    let h1 = t.duplicate(&wa);
    let h2 = t.duplicate(&h1);
    assert_eq!(t.ref_count(a), 3);
    assert_eq!(t.ref_count(b), 1);
    t.release(h1);
    assert_eq!(t.ref_count(a), 2);
    assert!(!t.is_awake(a));
    t.wake_and_release(h2);
    assert_eq!(t.ref_count(a), 1);
    assert!(t.is_awake(a));
    t.suspend(wa, ca);
    assert_eq!(t.len(), 2);
}

// ---- scheduler ----

#[test]
fn wake_twice_queues_once() {
    let mut t: Tasks<Immediate> = Tasks::new(3);
    let a = t.add(Box::new(Immediate)).unwrap();
    let b = t.add(Box::new(Immediate)).unwrap();
    // spawning marks ready: waking now changes nothing
    t.wake(a);
    t.wake(a);
    assert_eq!(t.front(), Some(a));
    let (wa, ca) = t.begin().unwrap();
    assert_eq!(wa.task_id(), a);
    assert!(!t.is_awake(a));
    t.suspend(wa, ca);
    // suspended: first wake queues behind b, second is a no-op
    t.wake(a);
    assert!(t.is_awake(a));
    EmbedWake::wake(&mut t, a);
    let (wb, cb) = t.begin().unwrap();
    assert_eq!(wb.task_id(), b);
    t.suspend(wb, cb);
    let (wa, ca) = t.begin().unwrap();
    assert_eq!(wa.task_id(), a);
    t.suspend(wa, ca);
    assert!(t.begin().is_none());
    assert_eq!(t.front(), None);
    assert_eq!(t.len(), 2);
}

#[test]
fn finish_removes_a_task_that_woke_itself() {
    let mut t: Tasks<Immediate> = Tasks::new(2);
    let a = t.add(Box::new(Immediate)).unwrap();
    let b = t.add(Box::new(Immediate)).unwrap();
    let (wa, _ca) = t.begin().unwrap();
    wa.wake_by_ref(&mut t);
    assert!(t.is_awake(a));
    t.finish(wa);
    assert!(!t.contains(a));
    assert!(t.contains(b));
    assert_eq!(t.len(), 1);
    let (wb, _cb) = t.begin().unwrap();
    assert_eq!(wb.task_id(), b);
    t.finish(wb);
    assert!(t.is_empty());
    assert!(t.begin().is_none());
}

#[test]
fn immediate_tasks_all_complete() {
    for n in [0usize, 1, 2, 7, 33] {
        let mut e: ArgExecutor<Immediate> = ArgExecutor::new(33);
        for _ in 0..n {
            assert_eq!(e.spawn(0u8), Ok(()));
        }
        let mut log = Log::new();
        assert!(e.run(&mut log, usize::MAX));
        assert_eq!(log.completions, n);
        assert_eq!(log.resumed.len(), n);
        assert_eq!(log.parks, 0);
        // an empty scheduler takes no step at all
        assert!(e.run(&mut log, 0));
        assert_eq!(log.completions, n);
    }
}

#[test]
fn tasks_run_in_the_order_they_became_ready() {
    let mut t: Tasks<Immediate> = Tasks::new(4);
    let ids: Vec<usize> = (0..4).map(|_| t.add(Box::new(Immediate)).unwrap()).collect();
    let mut log = Log::new();
    assert!(t.run(&mut log, usize::MAX));
    assert_eq!(log.resumed, ids);
}

#[test]
fn spawn_beyond_capacity_is_refused() {
    let mut e: BoxExecutor<Immediate> = BoxExecutor::new(2);
    assert_eq!(e.spawn(Box::new(Immediate)), Ok(()));
    assert_eq!(e.spawn(Box::new(Immediate)), Ok(()));
    assert_eq!(e.spawn(Box::new(Immediate)), Err(CapacityExceeded));
    assert_eq!(e.spawn(Box::new(Immediate)), Err(CapacityExceeded));
    let mut log = Log::new();
    assert!(e.run(&mut log, usize::MAX));
    assert_eq!(log.completions, 2);
    // room again
    assert_eq!(e.spawn(Box::new(Immediate)), Ok(()));

    let mut t: Tasks<Immediate> = Tasks::new(1);
    let a = t.add(Box::new(Immediate)).unwrap();
    assert!(t.add(Box::new(Immediate)).is_err());
    assert_eq!(t.len(), 1);
    assert_eq!(t.front(), Some(a));
    assert_eq!(t.ref_count(a), 1);
    assert!(t.is_awake(a));
}

#[test]
fn a_task_that_wakes_itself_runs_again_after_the_others() {
    let mut t: Tasks<Yielding> = Tasks::new(2);
    let a = t.add(Box::new(Yielding { left: 2 })).unwrap();
    let b = t.add(Box::new(Yielding { left: 0 })).unwrap();
    let mut log = Log::new();
    assert!(t.run(&mut log, usize::MAX));
    assert_eq!(log.resumed, vec![a, b, a, a]);
    assert_eq!(log.completions, 2);
    assert_eq!(log.parks, 0);
}

#[test]
fn spawned_children_run_after_the_spawning_resume() {
    let mut t: Tasks<Parent> = Tasks::new(4);
    let p = t.add(Box::new(Parent { children: 3 })).unwrap();
    let mut log = Log::new();
    assert!(t.run(&mut log, usize::MAX));
    assert_eq!(log.resumed.len(), 4);
    assert_eq!(log.resumed[0], p);
    assert_eq!(log.completions, 4);
    assert!(t.is_empty());
}

#[test]
fn run_stops_when_its_budget_is_spent() {
    let mut t: Tasks<Yielding> = Tasks::new(1);
    t.add(Box::new(Yielding { left: 10 })).unwrap();
    let mut log = Log::new();
    assert!(!t.run(&mut log, 4));
    assert_eq!(log.resumed.len(), 4);
    assert_eq!(t.len(), 1);
    assert_eq!(t.process_next(&mut log, 3), 0);
    assert_eq!(log.resumed.len(), 7);
    assert!(t.run(&mut log, usize::MAX));
    assert_eq!(log.resumed.len(), 11);
}

/// A continuation that never wakes itself: the scheduler has to park.
struct Sleeper;

impl Continuation<Log> for Sleeper {
    type Fixed = ();

    fn fixed(_env: &Log) {}

    fn inv(_env: &Log, _tasks: TasksView<Self>) -> bool {
        true
    }

    fn live(_env: &Log, _tasks: TasksView<Self>) -> bool {
        false
    }

    fn fuel(_env: &Log, _tasks: TasksView<Self>) -> usize {
        0
    }

    fn resume(&mut self, waker: &WakeHandle, _tasks: &mut Tasks<Self>, env: &mut Log) -> Step {
        env.resumed.push(waker.task_id());
        if env.parks >= 2 {
            env.completions += 1;
            Step::Done
        } else {
            Step::Suspended
        }
    }

    fn park(tasks: &mut Tasks<Self>, env: &mut Log) {
        env.parks += 1;
        let id = env.resumed[0];
        tasks.wake(id);
    }
}

#[test]
fn run_parks_only_when_nothing_is_ready() {
    let mut t: Tasks<Sleeper> = Tasks::new(1);
    t.add(Box::new(Sleeper)).unwrap();
    let mut log = Log::new();
    assert!(t.run(&mut log, usize::MAX));
    assert_eq!(log.parks, 2);
    assert_eq!(log.resumed.len(), 3);
    assert_eq!(log.completions, 1);
}

// ---- fake i/o ----

#[test]
fn stream_alternates_between_blocking_and_success() {
    let mut stats = Stats::new();
    let mut s = FakeStream::new();
    let mut buf = zeroed(16);
    assert_eq!(s.read(&mut buf, 2, &mut stats), Err(WouldBlock));
    assert_eq!(buf, vec![0u8; 16]);
    assert_eq!(s.read(&mut buf, 2, &mut stats), Ok(12));
    assert_eq!(&buf[..], b"\0\0hello world\n\0\0");
    assert_eq!(s.write(5, &mut stats), Err(WouldBlock));
    assert_eq!(s.write(5, &mut stats), Ok(5));
    assert_eq!(s.write(0, &mut stats), Err(WouldBlock));
    assert_eq!(stats.get().read, 2);
    assert_eq!(stats.get().write, 3);
    assert_eq!(s.calls, 5);
    assert_eq!(s.flush(), Ok(()));
    assert_eq!(s.calls, 5);
    assert_eq!(stats.get().write, 3);
}

#[test]
fn handles_act_through_the_pool() {
    let mut t: Tasks<Immediate> = Tasks::new(1);
    let a = t.add(Box::new(Immediate)).unwrap();
    let (w, c) = t.begin().unwrap();
    let owned = w.duplicate(&mut t);
    assert_eq!(owned.task_id(), a);
    assert_eq!(t.ref_count(a), 2);
    owned.wake_by_ref(&mut t);
    assert!(t.is_awake(a));
    owned.release(&mut t);
    assert_eq!(t.ref_count(a), 1);
    t.suspend(w, c);
    assert_eq!(t.front(), Some(a));
}

#[test]
fn stream_attempts_wrap_around() {
    let mut stats = Stats::new();
    let mut s = FakeStream { poll_index: None, calls: usize::MAX };
    assert_eq!(s.write(1, &mut stats), Ok(1));
    assert_eq!(s.calls, 0);
    assert_eq!(s.write(1, &mut stats), Err(WouldBlock));
}

#[test]
fn listener_alternates_between_blocking_and_success() {
    let mut stats = Stats::new();
    let mut l = FakeListener::new();
    assert!(l.accept(&mut stats).is_err());
    let s = l.accept(&mut stats).unwrap();
    assert_eq!(s.calls, 0);
    assert_eq!(s.poll_index, None);
    assert!(l.accept(&mut stats).is_err());
    assert_eq!(stats.get().accept, 3);
    l.set_poll_index(Some(4));
    assert_eq!(l.get_poll_index(), Some(4));
}

#[test]
fn poll_reports_every_registered_object_in_index_order() {
    let mut stats = Stats::new();
    let mut poll = Poll::new(3);
    let mut a = FakeStream::new();
    let mut b = FakeStream::new();
    let mut c = FakeListener::new();
    assert!(poll.is_empty());
    poll.register(&mut a, 70, READABLE, &mut stats);
    poll.register(&mut b, 50, WRITABLE, &mut stats);
    poll.register(&mut c, 60, READABLE | WRITABLE, &mut stats);
    assert_eq!(poll.len(), 3);
    assert_eq!(a.get_poll_index(), Some(0));
    assert_eq!(b.get_poll_index(), Some(1));
    assert_eq!(c.get_poll_index(), Some(2));
    assert_eq!(stats.get().register, 3);

    let mut events = Events::new(3);
    events.push((9, 9));
    poll.poll(&mut events, &mut stats);
    assert_eq!(events.to_vec(), vec![(70, 1), (50, 2), (60, 3)]);

    poll.unregister(&mut b, &mut stats);
    assert_eq!(b.get_poll_index(), None);
    poll.unregister(&mut b, &mut stats);
    assert_eq!(stats.get().unregister, 2);
    poll.poll(&mut events, &mut stats);
    assert_eq!(events.to_vec(), vec![(70, 1), (60, 3)]);
    assert_eq!(stats.get().poll, 2);

    poll.unregister(&mut a, &mut stats);
    poll.unregister(&mut c, &mut stats);
    assert!(poll.is_empty());
    poll.poll(&mut events, &mut stats);
    assert!(events.is_empty());
}

#[test]
fn newline_search_looks_at_the_prefix_only() {
    let buf = vec![b'a', b'b', b'\n', b'c'];
    assert!(!has_newline(&buf, 0));
    assert!(!has_newline(&buf, 2));
    assert!(has_newline(&buf, 3));
    assert!(has_newline(&buf, 4));
    assert_eq!(zeroed(3), vec![0u8, 0, 0]);
    assert!(zeroed(0).is_empty());
}

#[test]
fn poll_takes_more_objects_than_it_reserved_room_for() {
    let mut stats = Stats::new();
    let mut poll = Poll::new(2);
    let mut streams: Vec<FakeStream> = (0..5).map(|_| FakeStream::new()).collect();
    for (i, s) in streams.iter_mut().enumerate() {
        poll.register(s, i + 10, READABLE, &mut stats);
        assert!(s.get_poll_index().is_some());
    }
    assert_eq!(poll.len(), 5);
    assert_eq!(stats.get().register, 5);
    let mut events = Events::new(0);
    poll.poll(&mut events, &mut stats);
    assert_eq!(events.len(), 5);
    for i in 0..5usize {
        assert_eq!(events.get(i), (i + 10, READABLE));
    }
    for s in streams.iter_mut() {
        poll.unregister(s, &mut stats);
    }
    assert!(poll.is_empty());
}

#[test]
fn events_keep_the_order_of_their_appends() {
    let mut events = Events::new(2);
    assert!(events.is_empty());
    events.push((5, READABLE));
    events.push((3, WRITABLE));
    events.push((4, READABLE | WRITABLE));
    assert_eq!(events.len(), 3);
    assert_eq!(events.get(0), (5, 1));
    assert_eq!(events.get(1), (3, 2));
    assert_eq!(events.get(2), (4, 3));
    assert_eq!(events.to_vec(), vec![(5, 1), (3, 2), (4, 3)]);
    events.clear();
    assert!(events.is_empty());
    assert_eq!(events.to_vec(), vec![]);
    events.push((8, WRITABLE));
    assert_eq!(events.len(), 1);
    assert_eq!(events.get(0), (8, 2));
}

// ---- reactor ----

#[test]
fn reactor_registers_as_many_objects_as_its_table_holds() {
    let mut stats = Stats::new();
    let mut reactor = FakeReactor::new(200);
    let mut streams: Vec<FakeStream> = (0..200).map(|_| FakeStream::new()).collect();
    let mut handles = Vec::new();
    for s in streams.iter_mut() {
        handles.push(reactor.register(s, READABLE, &mut stats).unwrap());
    }
    assert_eq!(reactor.len(), 200);
    assert!(reactor.is_full());
    let mut extra = FakeStream::new();
    assert_eq!(reactor.register(&mut extra, READABLE, &mut stats).err(), Some(CapacityExceeded));
    assert_eq!(stats.get().register, 200);
    let mut tasks: Tasks<Immediate> = Tasks::new(1);
    for (s, h) in streams.iter_mut().zip(handles) {
        reactor.unregister(s, &mut stats);
        reactor.release(h, &mut tasks);
    }
    assert_eq!(reactor.len(), 0);
    assert_eq!(stats.get().unregister, 200);
}

#[test]
fn register_fails_at_capacity_and_changes_nothing() {
    let mut stats = Stats::new();
    let mut reactor = FakeReactor::new(1);
    let mut a = FakeStream::new();
    let mut b = FakeStream::new();
    assert!(!reactor.is_full());
    let ha = reactor.register(&mut a, READABLE, &mut stats).unwrap();
    assert!(reactor.is_full());
    assert!(!ha.is_ready(&reactor));
    assert_eq!(reactor.register(&mut b, READABLE, &mut stats).err(), Some(CapacityExceeded));
    assert_eq!(b.get_poll_index(), None);
    assert_eq!(reactor.len(), 1);
    assert_eq!(stats.get().register, 1);
}

#[test]
fn readiness_event_wakes_the_bound_task_once() {
    let mut stats = Stats::new();
    let mut reactor = FakeReactor::new(4);
    let mut tasks: Tasks<Immediate> = Tasks::new(4);
    let t = tasks.add(Box::new(Immediate)).unwrap();
    let other = tasks.add(Box::new(Immediate)).unwrap();
    let mut io = FakeStream::new();
    let reg = reactor.register(&mut io, READABLE, &mut stats).unwrap();

    // run both tasks once: they suspend, t with its handle bound
    let (wt, ct) = tasks.begin().unwrap();
    assert_eq!(wt.task_id(), t);
    reg.bind_waker(&mut reactor, &wt, &mut tasks);
    assert_eq!(tasks.ref_count(t), 2);
    reg.bind_waker(&mut reactor, &wt, &mut tasks); // same task: kept
    assert_eq!(tasks.ref_count(t), 2);
    tasks.suspend(wt, ct);
    let (wo, co) = tasks.begin().unwrap();
    tasks.suspend(wo, co);
    assert!(tasks.begin().is_none());

    // one event: t is resumed once, other not at all
    reactor.poll(&mut tasks, &mut stats);
    assert!(reg.is_ready(&reactor));
    assert!(tasks.is_awake(t));
    assert!(!tasks.is_awake(other));
    assert_eq!(tasks.ref_count(t), 1);
    let (wt, ct) = tasks.begin().unwrap();
    assert_eq!(wt.task_id(), t);
    tasks.suspend(wt, ct);
    assert!(tasks.begin().is_none());

    // the binding was one-shot: a second event wakes nobody
    reactor.poll(&mut tasks, &mut stats);
    assert!(!tasks.is_awake(t));
    assert!(tasks.begin().is_none());
    assert_eq!(stats.get().poll, 2);

    // bound again, it is woken again
    let (lent, _) = {
        tasks.wake(t);
        tasks.begin().unwrap()
    };
    reg.bind_waker(&mut reactor, &lent, &mut tasks);
    reg.set_ready(&mut reactor, false);
    assert!(!reg.is_ready(&reactor));
    reactor.poll(&mut tasks, &mut stats);
    assert!(tasks.is_awake(t));
    assert!(reg.is_ready(&reactor));
}

#[test]
fn rebinding_moves_the_handle_to_the_new_task() {
    let mut stats = Stats::new();
    let mut reactor = FakeReactor::new(2);
    let mut tasks: Tasks<Immediate> = Tasks::new(2);
    let a = tasks.add(Box::new(Immediate)).unwrap();
    let b = tasks.add(Box::new(Immediate)).unwrap();
    let mut io = FakeStream::new();
    let reg = reactor.register(&mut io, READABLE, &mut stats).unwrap();
    let (wa, ca) = tasks.begin().unwrap();
    reg.bind_waker(&mut reactor, &wa, &mut tasks);
    tasks.suspend(wa, ca);
    let (wb, cb) = tasks.begin().unwrap();
    reg.bind_waker(&mut reactor, &wb, &mut tasks);
    assert_eq!(tasks.ref_count(a), 1);
    assert_eq!(tasks.ref_count(b), 2);
    tasks.suspend(wb, cb);
    reactor.poll(&mut tasks, &mut stats);
    assert!(!tasks.is_awake(a));
    assert!(tasks.is_awake(b));

    let (wb, cb) = tasks.begin().unwrap();
    reg.bind_waker(&mut reactor, &wb, &mut tasks);
    assert_eq!(tasks.ref_count(b), 2);
    reg.unbind_waker(&mut reactor, &mut tasks);
    assert_eq!(tasks.ref_count(b), 1);
    reg.unbind_waker(&mut reactor, &mut tasks);
    assert_eq!(tasks.ref_count(b), 1);
    tasks.suspend(wb, cb);
    reactor.poll(&mut tasks, &mut stats);
    assert!(!tasks.is_awake(b));
}

#[test]
fn released_registration_is_never_reported_again() {
    let mut stats = Stats::new();
    let mut reactor = FakeReactor::new(2);
    let mut tasks: Tasks<Immediate> = Tasks::new(2);
    let t = tasks.add(Box::new(Immediate)).unwrap();
    let mut io = FakeStream::new();
    let reg = reactor.register(&mut io, READABLE, &mut stats).unwrap();
    let (wt, ct) = tasks.begin().unwrap();
    reg.bind_waker(&mut reactor, &wt, &mut tasks);
    tasks.suspend(wt, ct);
    assert_eq!(tasks.ref_count(t), 2);

    // released while bound: the handle comes back, the task is not woken
    reactor.release(reg, &mut tasks);
    assert_eq!(reactor.len(), 0);
    assert_eq!(tasks.ref_count(t), 1);
    assert!(!tasks.is_awake(t));

    // the object is still in the readiness source, but its events fall flat
    reactor.poll(&mut tasks, &mut stats);
    assert!(!tasks.is_awake(t));
    assert_eq!(reactor.len(), 0);

    // a new registration may reuse the key and is not ready
    reactor.unregister(&mut io, &mut stats);
    assert_eq!(io.get_poll_index(), None);
    let mut io2 = FakeStream::new();
    let reg2 = reactor.register(&mut io2, WRITABLE, &mut stats).unwrap();
    assert!(!reg2.is_ready(&reactor));
    reactor.poll(&mut tasks, &mut stats);
    assert!(reg2.is_ready(&reactor));
    assert!(!tasks.is_awake(t));
}

#[test]
fn async_stream_polls_as_documented() {
    let mut stats = Stats::new();
    let mut reactor = FakeReactor::new(4);
    let mut tasks: Tasks<Immediate> = Tasks::new(1);
    let t = tasks.add(Box::new(Immediate)).unwrap();
    let (w, c) = tasks.begin().unwrap();
    let mut s = AsyncFakeStream::new(FakeStream::new(), &mut reactor, &mut stats);
    assert!(s.handle.is_ready(&reactor));
    assert_eq!(stats.get().register, 1);
    let mut buf = zeroed(12);

    // ready, but the attempt blocks: flag cleared, task stays bound
    assert_eq!(s.read(&mut buf, 0, &w, &mut reactor, &mut tasks, &mut stats), None);
    assert!(!s.handle.is_ready(&reactor));
    assert_eq!(tasks.ref_count(t), 2);
    assert_eq!(stats.get().read, 1);

    // not ready: nothing is attempted
    assert_eq!(s.read(&mut buf, 0, &w, &mut reactor, &mut tasks, &mut stats), None);
    assert_eq!(stats.get().read, 1);
    assert_eq!(tasks.ref_count(t), 2);

    reactor.poll(&mut tasks, &mut stats);
    assert_eq!(tasks.ref_count(t), 1);
    assert!(tasks.is_awake(t));

    // ready and the attempt succeeds: binding cleared
    assert_eq!(s.read(&mut buf, 0, &w, &mut reactor, &mut tasks, &mut stats), Some(12));
    assert_eq!(&buf[..], b"hello world\n");
    assert_eq!(tasks.ref_count(t), 1);
    assert!(s.handle.is_ready(&reactor));

    assert_eq!(s.write(12, &w, &mut reactor, &mut tasks, &mut stats), None);
    assert_eq!(tasks.ref_count(t), 2);
    reactor.poll(&mut tasks, &mut stats);
    assert_eq!(s.write(12, &w, &mut reactor, &mut tasks, &mut stats), Some(12));
    assert_eq!(stats.get().write, 2);
    assert_eq!(tasks.ref_count(t), 1);

    s.close(&mut reactor, &mut tasks, &mut stats);
    assert_eq!(stats.get().unregister, 1);
    assert_eq!(reactor.len(), 0);
    tasks.suspend(w, c);
}

#[test]
fn async_listener_hands_out_registered_streams() {
    let mut stats = Stats::new();
    let mut reactor = FakeReactor::new(4);
    let mut tasks: Tasks<Immediate> = Tasks::new(1);
    let t = tasks.add(Box::new(Immediate)).unwrap();
    let (w, c) = tasks.begin().unwrap();
    let mut l = AsyncFakeListener::new(&mut reactor, &mut stats);
    assert!(l.accept(&w, &mut reactor, &mut tasks, &mut stats).is_none());
    assert_eq!(tasks.ref_count(t), 2);
    reactor.poll(&mut tasks, &mut stats);
    let s = l.accept(&w, &mut reactor, &mut tasks, &mut stats).unwrap();
    assert_eq!(tasks.ref_count(t), 1);
    assert_eq!(reactor.len(), 2);
    assert!(s.handle.is_ready(&reactor));
    assert!(s.inner.get_poll_index().is_some());
    assert_eq!(stats.get().accept, 2);
    assert_eq!(stats.get().register, 2);
    s.close(&mut reactor, &mut tasks, &mut stats);
    l.close(&mut reactor, &mut tasks, &mut stats);
    assert_eq!(reactor.len(), 0);
    assert_eq!(stats.get().unregister, 2);
    tasks.suspend(w, c);
}

#[test]
fn stats_type_is_comparable() {
    assert_eq!(StatsType::Read, StatsType::Read);
    assert_ne!(StatsType::Read, StatsType::Write);
}

// ---- spawners ----

#[test]
fn detached_spawner_spawns_nothing() {
    let mut e: BoxExecutor<Immediate> = BoxExecutor::new(2);
    let mut spawner = BoxSpawner::new();
    assert_eq!(spawner.spawn(e.tasks_mut(), Immediate), Err(()));
    assert_eq!(spawner.spawn_boxed(e.tasks_mut(), Box::new(Immediate)), Err(()));
    assert!(e.tasks_mut().is_empty());

    e.set_spawner(&mut spawner);
    assert_eq!(spawner.spawn(e.tasks_mut(), Immediate), Ok(()));
    assert_eq!(spawner.spawn_boxed(e.tasks_mut(), Box::new(Immediate)), Ok(()));
    assert_eq!(e.tasks_mut().len(), 2);
    // the pool is at its maximum
    assert_eq!(spawner.spawn(e.tasks_mut(), Immediate), Err(()));
    assert_eq!(e.tasks_mut().len(), 2);

    e.unset_spawner(&mut spawner);
    let mut log = Log::new();
    assert!(e.run(&mut log, 10));
    assert_eq!(log.completions, 2);
    assert_eq!(spawner.spawn(e.tasks_mut(), Immediate), Err(()));
    assert!(e.tasks_mut().is_empty());
}

#[test]
fn attached_arg_spawner_starts_tasks_from_arguments() {
    let mut e: ArgExecutor<Immediate> = ArgExecutor::new(1);
    let mut spawner: ArgSpawner<u8> = ArgSpawner::new();
    assert_eq!(spawner.spawn(e.tasks_mut(), 7), Err(()));
    e.set_spawner(&mut spawner);
    assert_eq!(spawner.spawn(e.tasks_mut(), 7), Ok(()));
    assert_eq!(spawner.spawn(e.tasks_mut(), 8), Err(()));
    assert_eq!(e.tasks_mut().len(), 1);
    let mut log = Log::new();
    assert!(e.run(&mut log, 10));
    assert_eq!(log.completions, 1);
    e.unset_spawner(&mut spawner);
    assert_eq!(spawner.spawn(e.tasks_mut(), 9), Err(()));
}

#[test]
fn tasks_that_complete_at_once_leave_nothing_behind() {
    for (tasks_max, n) in [(0usize, 0usize), (1, 1), (4, 0), (4, 3), (33, 33)] {
        let mut e = run_immediate(tasks_max, n);
        assert!(e.tasks_mut().is_empty());
        assert_eq!(e.tasks_mut().len(), 0);
        assert_eq!(e.tasks_mut().capacity(), tasks_max);
        assert_eq!(e.tasks_mut().front(), None);
    }
}

#[test]
fn library_immediate_is_done_at_its_first_resume() {
    let mut e: BoxExecutor<LibImmediate> = BoxExecutor::new(2);
    assert_eq!(e.spawn(Box::new(LibImmediate)), Ok(()));
    assert_eq!(e.spawn(Box::new(LibImmediate)), Ok(()));
    assert_eq!(e.spawn(Box::new(LibImmediate)), Err(CapacityExceeded));
    let mut env = ();
    // two resumes are enough, and no park is needed
    assert!(e.run(&mut env, 2));
    assert!(e.tasks_mut().is_empty());
    assert_eq!(e.spawn(Box::new(LibImmediate)), Ok(()));
    assert!(!e.run(&mut env, 0));
    assert!(e.run(&mut env, 1));
}
