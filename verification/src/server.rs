//! The sample workload as tasks of the scheduler: a listening task that
//! accepts connections and spawns a task for each, which reads one line and
//! echoes it back.

use crate::count::lemma_advance_one;
use crate::executor::{
    ArgExecutor, BoxExecutor, Continuation, Start, Step, TaskView, Tasks, TasksView,
};
use crate::fakeio::{events_of, hello_line, reports_all, Stats};
use crate::future::{
    attempted_reg, can_fire, can_fire_all, fire, fire_all, lemma_fire_all_wakes,
    AsyncFakeListener,
    AsyncFakeStream, FakeReactor, RegView,
};
use crate::progress::{
    counted_ok, lemma_counts_closed, lemma_counts_finished, lemma_counts_frame,
    lemma_counts_initial, lemma_counts_spawned, lemma_counts_step, lemma_remaining_bound,
    lemma_remaining_positive, remaining, server_counts, steps_left, Progress,
};
use crate::run::{has_newline, served, zeroed, StatsMetrics, CONNS_MAX, POLLS, STEPS_MAX};
use crate::waker::WakeHandle;
use vstd::prelude::*;

verus! {

/// What the tasks of the workload act on: the reactor and the counter. The
/// record of how far the workload has come is kept for the contracts only.
pub struct Net<S> {
    pub reactor: FakeReactor,
    pub stats: S,
    pub progress: Ghost<Progress>,
}

/// What a task of the workload is started with.
pub enum AsyncInvoke {
    /// Listen, and spawn a task for each connection.
    Listen,
    /// Serve the connection on this stream.
    Connection(AsyncFakeStream),
}

/// The listening task: it makes its listener when it is first resumed,
/// accepts `CONNS_MAX` connections and then gives the listener up.
pub struct ListenTask {
    pub listener: Option<AsyncFakeListener>,
    pub accepted: usize,
}

/// The task of one connection: it reads until it has a whole line, writes
/// the line back and then gives the stream up.
pub struct ConnectionTask {
    pub stream: Option<AsyncFakeStream>,
    pub buf: Vec<u8>,
    pub buf_len: usize,
    pub sent: usize,
}

/// A task of the workload, with a buffer of `N` bytes for a connection.
pub enum ServerTask<const N: usize> {
    Listen(ListenTask),
    Connection(ConnectionTask),
}

impl<const N: usize> ServerTask<N> {
    /// The key of the registration that the task holds, if it holds one.
    pub open spec fn key(self) -> Option<usize> {
        match self {
            ServerTask::Listen(l) => match l.listener {
                Some(a) => Some(a.handle@),
                None => None,
            },
            ServerTask::Connection(c) => match c.stream {
                Some(a) => Some(a.handle@),
                None => None,
            },
        }
    }

    /// The index under which the task's I/O object is entered in the
    /// readiness source, if it is.
    pub open spec fn index(self) -> Option<usize> {
        match self {
            ServerTask::Listen(l) => match l.listener {
                Some(a) => a.inner.poll_index,
                None => None,
            },
            ServerTask::Connection(c) => match c.stream {
                Some(a) => a.inner.poll_index,
                None => None,
            },
        }
    }

    /// What holds of the task's own state between resumes: a listener has
    /// not accepted too many; a connection has its stream, and either has
    /// read nothing and has room for the line, or has the line.
    pub open spec fn local_ok(self) -> bool {
        match self {
            ServerTask::Listen(l) => l.accepted <= CONNS_MAX,
            ServerTask::Connection(c) => {
                &&& c.stream is Some
                &&& c.sent <= c.buf_len <= c.buf@.len()
                &&& if c.buf@.subrange(0, c.buf_len as int).contains(10u8) {
                    true
                } else {
                    c.buf_len == 0 && c.sent == 0 && hello_line().len() <= c.buf@.len()
                }
            },
        }
    }
}

/// The pool at rest with the continuation of `id` put back.
pub open spec fn mid<const N: usize>(
    tasks: TasksView<ServerTask<N>>,
    id: usize,
    c: ServerTask<N>,
) -> TasksView<ServerTask<N>> {
    tasks.suspend(id, c).at_rest()
}

/// A task holds its registration and its entry in the readiness source; the
/// only handle of it that is out is the one bound to its registration.
pub open spec fn task_ok<const N: usize>(
    regs: Map<usize, RegView>,
    items: Map<usize, (u8, usize)>,
    v: TasksView<ServerTask<N>>,
    t: usize,
) -> bool {
    let task = v.tasks[t];
    &&& task.cont is Some
    &&& task.cont->Some_0.local_ok()
    &&& match task.cont->Some_0.key() {
        None => task.cont->Some_0 is Listen && task.refs == 1,
        Some(k) => {
            &&& regs.dom().contains(k)
            &&& (regs[k].waker is None || regs[k].waker == Some(t))
            &&& task.refs == (if regs[k].waker is Some {
                2nat
            } else {
                1nat
            })
            &&& task.cont->Some_0.index() matches Some(p) && items.dom().contains(p) && items[p].1
                == k
        },
    }
}

/// Two tasks hold different registrations.
pub open spec fn apart<const N: usize>(v: TasksView<ServerTask<N>>, t1: usize, t2: usize) -> bool {
    v.tasks[t1].cont->Some_0.key() is Some ==> v.tasks[t1].cont->Some_0.key()
        != v.tasks[t2].cont->Some_0.key()
}

/// A task that is bound to a registration is live and holds it.
pub open spec fn reg_ok<const N: usize>(
    regs: Map<usize, RegView>,
    v: TasksView<ServerTask<N>>,
    k: usize,
) -> bool {
    regs[k].waker matches Some(t) ==> v.contains(t) && v.tasks[t].cont is Some
        && v.tasks[t].cont->Some_0.key() == Some(k)
}

/// While a task listens, there is a task less than it has accepted
/// connections, or fewer; and before it has made its listener there is room
/// for the listener's registration.
pub open spec fn listener_ok<const N: usize>(
    regs: Map<usize, RegView>,
    items: Map<usize, (u8, usize)>,
    v: TasksView<ServerTask<N>>,
    t: usize,
) -> bool {
    v.tasks[t].cont matches Some(ServerTask::Listen(l)) ==> {
        &&& v.tasks.dom().len() <= l.accepted + 1
        &&& l.listener is None ==> regs.dom().len() + 1 <= v.tasks.dom().len() && items.dom().len()
            + 1 <= v.tasks.dom().len()
    }
}

/// At most one task listens.
pub open spec fn one_listener<const N: usize>(
    v: TasksView<ServerTask<N>>,
    t1: usize,
    t2: usize,
) -> bool {
    v.tasks[t1].cont->Some_0 is Listen && v.tasks[t2].cont->Some_0 is Listen ==> t1 == t2
}

/// What the tasks of the workload rely on between resumes.
pub open spec fn server_inv<const N: usize>(
    regs: Map<usize, RegView>,
    items: Map<usize, (u8, usize)>,
    limit: nat,
    v: TasksView<ServerTask<N>>,
) -> bool {
    &&& hello_line().len() <= N
    &&& limit > CONNS_MAX
    &&& v.limit > CONNS_MAX
    &&& v.tasks.dom().finite()
    &&& regs.dom().finite()
    &&& items.dom().finite()
    &&& regs.dom().len() <= v.tasks.dom().len()
    &&& items.dom().len() <= v.tasks.dom().len()
    &&& forall|t: usize| v.contains(t) ==> #[trigger] task_ok(regs, items, v, t)
    &&& forall|t: usize| v.contains(t) ==> #[trigger] listener_ok(regs, items, v, t)
    &&& forall|t1: usize, t2: usize|
        v.contains(t1) && v.contains(t2) && t1 != t2 ==> #[trigger] apart(v, t1, t2)
    &&& forall|t1: usize, t2: usize|
        v.contains(t1) && v.contains(t2) ==> #[trigger] one_listener(v, t1, t2)
    &&& forall|k: usize| regs.dom().contains(k) ==> #[trigger] reg_ok(regs, v, k)
}

/// The invariant over the environment itself.
pub open spec fn net_inv<const N: usize, S: Stats>(env: &Net<S>, v: TasksView<ServerTask<N>>) -> bool {
    &&& env.reactor.wf()
    &&& server_inv(
        env.reactor.regs(),
        env.reactor.items(),
        env.reactor.limit(),
        v,
    )
    &&& server_counts(env.progress@, env.stats.metrics(), v)
}

/// Whether a task has attempts left to make: a listening task has not
/// accepted every connection, a connection has not sent its line.
pub open spec fn has_work<const N: usize>(c: ServerTask<N>) -> bool {
    match c {
        ServerTask::Listen(l) => l.accepted < CONNS_MAX,
        ServerTask::Connection(c) => c.calls() <= 3,
    }
}

/// A task will be resumed and will then make an attempt: it has work; and
/// either it is queued and its registration is ready, or it sleeps and is
/// bound to its registration. A task without a registration is queued.
pub open spec fn alive_task<const N: usize>(
    regs: Map<usize, RegView>,
    v: TasksView<ServerTask<N>>,
    t: usize,
) -> bool {
    let task = v.tasks[t];
    &&& has_work(task.cont->Some_0)
    &&& match task.cont->Some_0.key() {
        None => task.awake,
        Some(k) => if task.awake {
            regs[k].ready
        } else {
            regs[k].waker == Some(t)
        },
    }
}

/// How many resumes a connection still takes: one that would block on its
/// read, one that reads the line and would block on its write, one that
/// writes.
pub open spec fn conn_resumes(c: ConnectionTask) -> int {
    if c.calls() == 0 {
        3
    } else if c.calls() == 1 {
        2
    } else {
        1
    }
}

/// How often the scheduler still has to park for a task: once before each
/// of its resumes but the one it is queued for. The listening task takes a
/// resume for each connection that is not accepted, and one more before the
/// first; the connection it accepts last takes two parks after that.
pub open spec fn need<const N: usize>(v: TasksView<ServerTask<N>>, t: usize) -> int {
    let queued = if v.tasks[t].awake {
        1int
    } else {
        0int
    };
    match v.tasks[t].cont->Some_0 {
        ServerTask::Listen(l) => if l.listener is None {
            POLLS as int
        } else {
            CONNS_MAX - l.accepted + 2 - queued
        },
        ServerTask::Connection(c) => conn_resumes(c) - queued,
    }
}

/// A task keeps pace: with the parks it still needs, no more than `POLLS`
/// are made, and exactly as many for the listening task. It sleeps only
/// after an attempt that would have blocked.
pub open spec fn paced_task<const N: usize>(v: TasksView<ServerTask<N>>, t: usize) -> bool {
    &&& v.parks + need(v, t) <= POLLS
    &&& match v.tasks[t].cont->Some_0 {
        ServerTask::Listen(l) => v.parks + need(v, t) == POLLS && (l.listener matches Some(a)
            ==> a.inner.calls % 2 == 1),
        ServerTask::Connection(c) => (c.calls() == 0 || c.calls() == 1 || c.calls() == 3) && (
        !v.tasks[t].awake ==> c.calls() != 0),
    }
}

/// Every task keeps pace; and when the listening task is gone, the last
/// connection needs exactly the parks that are left of `POLLS`, or it is
/// gone too and all of them were made.
pub open spec fn pace<const N: usize>(p: Progress, v: TasksView<ServerTask<N>>) -> bool {
    &&& forall|t: usize| v.contains(t) ==> #[trigger] paced_task(v, t)
    &&& p.listener is None ==> match p.last {
        Some(y) => v.contains(y) && v.tasks[y].cont->Some_0 is Connection && v.parks + need(v, y)
            == POLLS,
        None => v.parks == POLLS,
    }
}

/// When the listening task is gone and the last connection is not the task
/// `id`, the last connection needs exactly the parks that are left.
pub open spec fn last_paced<const N: usize>(
    p: Progress,
    v: TasksView<ServerTask<N>>,
    id: usize,
) -> bool {
    p.listener is None ==> (p.last matches Some(y) ==> y != id ==> v.contains(y)
        && v.tasks[y].cont->Some_0 is Connection && v.parks + need(v, y) == POLLS)
}

/// A task is alive and keeps pace.
pub open spec fn fine_task<const N: usize>(
    regs: Map<usize, RegView>,
    v: TasksView<ServerTask<N>>,
    t: usize,
) -> bool {
    alive_task(regs, v, t) && paced_task(v, t)
}

/// Every task but `id` is alive and keeps pace.
pub open spec fn alive_but<const N: usize>(
    regs: Map<usize, RegView>,
    v: TasksView<ServerTask<N>>,
    id: usize,
) -> bool {
    forall|t: usize| v.contains(t) && t != id ==> #[trigger] fine_task(regs, v, t)
}

/// Every task is alive.
pub open spec fn alive<const N: usize>(regs: Map<usize, RegView>, v: TasksView<ServerTask<N>>) -> bool {
    forall|t: usize| v.contains(t) ==> #[trigger] alive_task(regs, v, t)
}

/// What the tasks keep so that the run comes to its end.
pub open spec fn net_live<const N: usize, S: Stats>(env: &Net<S>, v: TasksView<ServerTask<N>>) -> bool {
    net_inv(env, v.at_rest()) && alive(env.reactor.regs(), v) && pace(env.progress@, v)
}

/// The tasks other than `id` stay alive when only `id` and the registration
/// under `k` change, `k` being the key of `id` or a new one.
pub proof fn lemma_alive_frame<const N: usize>(
    regs: Map<usize, RegView>,
    regs2: Map<usize, RegView>,
    items: Map<usize, (u8, usize)>,
    limit: nat,
    rest: TasksView<ServerTask<N>>,
    v: TasksView<ServerTask<N>>,
    v2: TasksView<ServerTask<N>>,
    id: usize,
    k: usize,
)
    requires
        server_inv(regs, items, limit, rest),
        rest.contains(id),
        rest.tasks[id].cont->Some_0.key() == Some(k) || !regs.dom().contains(k),
        v.tasks.dom() == rest.tasks.dom(),
        forall|t: usize| rest.contains(t) && t != id ==> (#[trigger] v.tasks[t]).cont
            == rest.tasks[t].cont,
        forall|k2: usize| k2 != k && regs.dom().contains(k2) ==> #[trigger] regs2[k2] == regs[k2],
        alive_but(regs, v, id),
        v2.parks == v.parks,
        forall|t: usize| v.contains(t) && t != id ==> #[trigger] v2.tasks[t] == v.tasks[t],
    ensures
        forall|t: usize| v.contains(t) && t != id ==> #[trigger] fine_task(regs2, v2, t),
{
    assert forall|t: usize| v.contains(t) && t != id implies #[trigger] fine_task(regs2, v2, t) by {
        assert(fine_task(regs, v, t));
        assert(task_ok(regs, items, rest, t));
        assert(apart(rest, t, id));
        assert(v2.tasks[t] == v.tasks[t]);
    }
}

/// The tasks other than `id` stay alive when only `id` and the registration
/// under `k` change and no task comes or goes.
pub proof fn lemma_alive_step<const N: usize>(
    regs: Map<usize, RegView>,
    regs2: Map<usize, RegView>,
    items: Map<usize, (u8, usize)>,
    limit: nat,
    rest: TasksView<ServerTask<N>>,
    v: TasksView<ServerTask<N>>,
    v2: TasksView<ServerTask<N>>,
    id: usize,
    k: usize,
)
    requires
        server_inv(regs, items, limit, rest),
        rest.contains(id),
        rest.tasks[id].cont->Some_0.key() == Some(k) || !regs.dom().contains(k),
        v.tasks.dom() == rest.tasks.dom(),
        forall|t: usize| rest.contains(t) && t != id ==> (#[trigger] v.tasks[t]).cont
            == rest.tasks[t].cont,
        forall|k2: usize| k2 != k && regs.dom().contains(k2) ==> #[trigger] regs2[k2] == regs[k2],
        alive_but(regs, v, id),
        v2.parks == v.parks,
        v2.tasks.dom() == v.tasks.dom(),
        forall|t: usize| v.contains(t) && t != id ==> #[trigger] v2.tasks[t] == v.tasks[t],
    ensures
        alive_but(regs2, v2, id),
{
    lemma_alive_frame(regs, regs2, items, limit, rest, v, v2, id, k);
}

/// A readiness event keeps every task alive.
pub proof fn lemma_fire_alive<const N: usize>(
    regs: Map<usize, RegView>,
    items: Map<usize, (u8, usize)>,
    limit: nat,
    tasks: TasksView<ServerTask<N>>,
    key: usize,
)
    requires
        server_inv(regs, items, limit, tasks.at_rest()),
        alive(regs, tasks),
    ensures
        alive(fire(regs, tasks, key).0, fire(regs, tasks, key).1),
{
    let rest = tasks.at_rest();
    let next = fire(regs, tasks, key);
    if regs.dom().contains(key) {
        assert(reg_ok(regs, rest, key));
        assert forall|t: usize| next.1.contains(t) implies #[trigger] alive_task(
            next.0,
            next.1,
            t,
        ) by {
            if tasks.contains(t) {
                assert(alive_task(regs, tasks, t));
                assert(task_ok(regs, items, rest, t));
                if regs[key].waker is Some {
                    let bound = regs[key].waker->Some_0;
                    assert(task_ok(regs, items, rest, bound));
                    if t != bound {
                        assert(apart(rest, t, bound));
                    }
                }
            } else {
                let bound = regs[key].waker->Some_0;
                assert(rest.contains(bound));
            }
        }
    }
}

/// A poll keeps every task alive, whatever it reports.
pub proof fn lemma_fire_all_alive<const N: usize>(
    regs: Map<usize, RegView>,
    items: Map<usize, (u8, usize)>,
    limit: nat,
    tasks: TasksView<ServerTask<N>>,
    events: Seq<(usize, u8)>,
)
    requires
        server_inv(regs, items, limit, tasks.at_rest()),
        alive(regs, tasks),
    ensures
        alive(fire_all(regs, tasks, events).0, fire_all(regs, tasks, events).1),
    decreases events.len(),
{
    if events.len() > 0 {
        let next = fire(regs, tasks, events[0].0);
        lemma_fire_keeps(regs, items, limit, tasks, events[0].0);
        lemma_fire_alive(regs, items, limit, tasks, events[0].0);
        lemma_fire_all_alive(next.0, items, limit, next.1, events.drop_first());
    }
}

/// Whether `v2` is `v` but for the task `id`.
pub open spec fn same_but<const N: usize>(
    v: TasksView<ServerTask<N>>,
    v2: TasksView<ServerTask<N>>,
    id: usize,
) -> bool {
    &&& v2.limit == v.limit
    &&& v2.parks == v.parks
    &&& v2.tasks.dom() == v.tasks.dom()
    &&& forall|t: usize| t != id && v.contains(t) ==> #[trigger] v2.tasks[t] == v.tasks[t]
}

/// The invariant says nothing of how often the scheduler has parked.
pub proof fn lemma_inv_parked<const N: usize>(
    regs: Map<usize, RegView>,
    items: Map<usize, (u8, usize)>,
    limit: nat,
    v: TasksView<ServerTask<N>>,
)
    requires
        server_inv(regs, items, limit, v),
    ensures
        server_inv(regs, items, limit, v.parked()),
{
    let v2 = v.parked();
    assert forall|t: usize| v2.contains(t) implies #[trigger] task_ok(regs, items, v2, t) by {
        assert(task_ok(regs, items, v, t));
    }
    assert forall|t: usize| v2.contains(t) implies #[trigger] listener_ok(regs, items, v2, t) by {
        assert(listener_ok(regs, items, v, t));
    }
    assert forall|t1: usize, t2: usize|
        v2.contains(t1) && v2.contains(t2) && t1 != t2 implies #[trigger] apart(v2, t1, t2) by {
        assert(apart(v, t1, t2));
    }
    assert forall|t1: usize, t2: usize|
        v2.contains(t1) && v2.contains(t2) implies #[trigger] one_listener(v2, t1, t2) by {
        assert(one_listener(v, t1, t2));
    }
    assert forall|k: usize| regs.dom().contains(k) implies #[trigger] reg_ok(regs, v2, k) by {
        assert(reg_ok(regs, v, k));
    }
}

/// The invariant is kept when only ready flags change.
pub proof fn lemma_ready_only<const N: usize>(
    regs: Map<usize, RegView>,
    regs2: Map<usize, RegView>,
    items: Map<usize, (u8, usize)>,
    limit: nat,
    v: TasksView<ServerTask<N>>,
)
    requires
        server_inv(regs, items, limit, v),
        regs2.dom() == regs.dom(),
        forall|k: usize| regs.dom().contains(k) ==> (#[trigger] regs2[k]).waker == regs[k].waker,
    ensures
        server_inv(regs2, items, limit, v),
{
    assert forall|t: usize| v.contains(t) implies #[trigger] task_ok(regs2, items, v, t) by {
        assert(task_ok(regs, items, v, t));
    }
    assert forall|t: usize| v.contains(t) implies #[trigger] listener_ok(regs2, items, v, t) by {
        assert(listener_ok(regs, items, v, t));
    }
    assert forall|k: usize| regs2.dom().contains(k) implies #[trigger] reg_ok(regs2, v, k) by {
        assert(reg_ok(regs, v, k));
    }
}

/// The invariant is kept when a task changes its own state, its own
/// registration and its own count, and they fit.
pub proof fn lemma_own_step<const N: usize>(
    regs: Map<usize, RegView>,
    regs2: Map<usize, RegView>,
    items: Map<usize, (u8, usize)>,
    limit: nat,
    v: TasksView<ServerTask<N>>,
    v2: TasksView<ServerTask<N>>,
    id: usize,
    k: usize,
)
    requires
        server_inv(regs, items, limit, v),
        v.contains(id),
        v.tasks[id].cont->Some_0.key() == Some(k),
        same_but(v, v2, id),
        regs2.dom() == regs.dom(),
        forall|k2: usize| k2 != k && regs.dom().contains(k2) ==> #[trigger] regs2[k2] == regs[k2],
        task_ok(regs2, items, v2, id),
        v2.tasks[id].cont->Some_0.key() == Some(k),
        v.tasks[id].cont->Some_0 is Listen <==> v2.tasks[id].cont->Some_0 is Listen,
        v.tasks[id].cont matches Some(ServerTask::Listen(l)) ==> v2.tasks[id].cont matches Some(
            ServerTask::Listen(l2),
        ) && l.accepted <= l2.accepted,
    ensures
        server_inv(regs2, items, limit, v2),
{
    assert(task_ok(regs, items, v, id));
    assert forall|t: usize| v2.contains(t) implies #[trigger] task_ok(regs2, items, v2, t) by {
        if t != id {
            assert(task_ok(regs, items, v, t));
            assert(apart(v, t, id));
            assert(v2.tasks[t] == v.tasks[t]);
        }
    }
    assert forall|t: usize| v2.contains(t) implies #[trigger] listener_ok(regs2, items, v2, t) by {
        assert(listener_ok(regs, items, v, t));
        if t != id {
            assert(v2.tasks[t] == v.tasks[t]);
        }
    }
    assert forall|t1: usize, t2: usize|
        v2.contains(t1) && v2.contains(t2) && t1 != t2 implies #[trigger] apart(v2, t1, t2) by {
        assert(apart(v, t1, t2));
        assert(apart(v, t2, t1));
        if t1 != id {
            assert(v2.tasks[t1] == v.tasks[t1]);
        }
        if t2 != id {
            assert(v2.tasks[t2] == v.tasks[t2]);
        }
    }
    assert forall|t1: usize, t2: usize|
        v2.contains(t1) && v2.contains(t2) implies #[trigger] one_listener(v2, t1, t2) by {
        assert(one_listener(v, t1, t2));
        if t1 != id {
            assert(v2.tasks[t1] == v.tasks[t1]);
        }
        if t2 != id {
            assert(v2.tasks[t2] == v.tasks[t2]);
        }
    }
    assert forall|k2: usize| regs2.dom().contains(k2) implies #[trigger] reg_ok(regs2, v2, k2) by {
        if k2 != k {
            assert(reg_ok(regs, v, k2));
            if regs[k2].waker is Some {
                let t = regs[k2].waker->Some_0;
                assert(t != id);
                assert(v2.tasks[t] == v.tasks[t]);
            }
        }
    }
}

/// The invariant is kept when the listening task makes its listener.
pub proof fn lemma_started<const N: usize>(
    regs: Map<usize, RegView>,
    regs2: Map<usize, RegView>,
    items: Map<usize, (u8, usize)>,
    items2: Map<usize, (u8, usize)>,
    limit: nat,
    v: TasksView<ServerTask<N>>,
    v2: TasksView<ServerTask<N>>,
    id: usize,
    k: usize,
    p: usize,
)
    requires
        server_inv(regs, items, limit, v),
        v.contains(id),
        v.tasks[id].cont matches Some(ServerTask::Listen(l)) && l.listener is None,
        same_but(v, v2, id),
        !regs.dom().contains(k),
        !items.dom().contains(p),
        regs2 == regs.insert(k, RegView { ready: true, waker: None }),
        items2.dom() == items.dom().insert(p),
        items2[p].1 == k,
        forall|later: usize| items.dom().contains(later) ==> #[trigger] items2[later] == items[later],
        v2.tasks[id].refs == 1,
        v2.tasks[id].cont matches Some(ServerTask::Listen(l2)) && l2.accepted == v.tasks[id].cont->Some_0->Listen_0.accepted
            && (l2.listener matches Some(a) && a.handle@ == k && a.inner.poll_index == Some(p)),
    ensures
        server_inv(regs2, items2, limit, v2),
{
    assert(task_ok(regs, items, v, id));
    assert(listener_ok(regs, items, v, id));
    assert forall|t: usize| v2.contains(t) implies #[trigger] task_ok(regs2, items2, v2, t) by {
        if t != id {
            assert(task_ok(regs, items, v, t));
            assert(v2.tasks[t] == v.tasks[t]);
        }
    }
    assert forall|t: usize| v2.contains(t) implies #[trigger] listener_ok(regs2, items2, v2, t) by {
        assert(listener_ok(regs, items, v, t));
        assert(one_listener(v, t, id));
        if t != id {
            assert(v2.tasks[t] == v.tasks[t]);
        }
    }
    assert forall|t1: usize, t2: usize|
        v2.contains(t1) && v2.contains(t2) && t1 != t2 implies #[trigger] apart(v2, t1, t2) by {
        assert(apart(v, t1, t2));
        assert(apart(v, t2, t1));
        assert(task_ok(regs, items, v, t1));
        assert(task_ok(regs, items, v, t2));
        if t1 != id {
            assert(v2.tasks[t1] == v.tasks[t1]);
        }
        if t2 != id {
            assert(v2.tasks[t2] == v.tasks[t2]);
        }
    }
    assert forall|t1: usize, t2: usize|
        v2.contains(t1) && v2.contains(t2) implies #[trigger] one_listener(v2, t1, t2) by {
        assert(one_listener(v, t1, t2));
        if t1 != id {
            assert(v2.tasks[t1] == v.tasks[t1]);
        }
        if t2 != id {
            assert(v2.tasks[t2] == v.tasks[t2]);
        }
    }
    assert forall|k2: usize| regs2.dom().contains(k2) implies #[trigger] reg_ok(regs2, v2, k2) by {
        if k2 != k {
            assert(reg_ok(regs, v, k2));
            if regs[k2].waker is Some {
                let t = regs[k2].waker->Some_0;
                assert(t != id);
                assert(v2.tasks[t] == v.tasks[t]);
            }
        }
    }
}

/// The invariant is kept when the listening task has accepted a connection
/// and spawned a task for it.
pub proof fn lemma_spawned<const N: usize>(
    regs: Map<usize, RegView>,
    regs2: Map<usize, RegView>,
    items: Map<usize, (u8, usize)>,
    items2: Map<usize, (u8, usize)>,
    limit: nat,
    v: TasksView<ServerTask<N>>,
    v2: TasksView<ServerTask<N>>,
    id: usize,
    k: usize,
    p: usize,
    t_new: usize,
)
    requires
        server_inv(regs, items, limit, v),
        v.contains(id),
        v.tasks[id].cont matches Some(ServerTask::Listen(l)) && l.listener is Some && l.accepted
            < CONNS_MAX,
        !v.contains(t_new),
        !regs.dom().contains(k),
        !items.dom().contains(p),
        regs2 == regs.insert(k, RegView { ready: true, waker: None }),
        items2.dom() == items.dom().insert(p),
        items2[p].1 == k,
        forall|later: usize| items.dom().contains(later) ==> #[trigger] items2[later] == items[later],
        v2.limit == v.limit,
        v2.tasks.dom() == v.tasks.dom().insert(t_new),
        forall|t: usize| t != id && v.contains(t) ==> #[trigger] v2.tasks[t] == v.tasks[t],
        v2.tasks[id].refs == v.tasks[id].refs,
        v2.tasks[id].cont matches Some(ServerTask::Listen(l2)) && l2.accepted == v.tasks[id].cont->Some_0->Listen_0.accepted
            + 1 && l2.listener == v.tasks[id].cont->Some_0->Listen_0.listener,
        v2.tasks[t_new].refs == 1,
        v2.tasks[t_new].cont matches Some(ServerTask::Connection(c)) && ServerTask::<N>::Connection(
            c,
        ).local_ok() && (c.stream matches Some(a) && a.handle@ == k && a.inner.poll_index == Some(
            p,
        )),
    ensures
        server_inv(regs2, items2, limit, v2),
{
    assert(task_ok(regs, items, v, id));
    assert(listener_ok(regs, items, v, id));
    assert forall|t: usize| v2.contains(t) implies #[trigger] task_ok(regs2, items2, v2, t) by {
        if t != id && t != t_new {
            assert(task_ok(regs, items, v, t));
            assert(v2.tasks[t] == v.tasks[t]);
        }
    }
    assert forall|t: usize| v2.contains(t) implies #[trigger] listener_ok(regs2, items2, v2, t) by {
        if t != t_new {
            assert(listener_ok(regs, items, v, t));
            assert(one_listener(v, t, id));
            if t != id {
                assert(v2.tasks[t] == v.tasks[t]);
            }
        }
    }
    assert forall|t1: usize, t2: usize|
        v2.contains(t1) && v2.contains(t2) && t1 != t2 implies #[trigger] apart(v2, t1, t2) by {
        if t1 != t_new && t2 != t_new {
            assert(apart(v, t1, t2));
            assert(apart(v, t2, t1));
        }
        if t1 != t_new {
            assert(task_ok(regs, items, v, t1));
            if t1 != id {
                assert(v2.tasks[t1] == v.tasks[t1]);
            }
        }
        if t2 != t_new {
            assert(task_ok(regs, items, v, t2));
            if t2 != id {
                assert(v2.tasks[t2] == v.tasks[t2]);
            }
        }
    }
    assert forall|t1: usize, t2: usize|
        v2.contains(t1) && v2.contains(t2) implies #[trigger] one_listener(v2, t1, t2) by {
        if t1 != t_new && t2 != t_new {
            assert(one_listener(v, t1, t2));
            if t1 != id {
                assert(v2.tasks[t1] == v.tasks[t1]);
            }
            if t2 != id {
                assert(v2.tasks[t2] == v.tasks[t2]);
            }
        }
    }
    assert forall|k2: usize| regs2.dom().contains(k2) implies #[trigger] reg_ok(regs2, v2, k2) by {
        if k2 != k {
            assert(reg_ok(regs, v, k2));
            if regs[k2].waker is Some {
                let t = regs[k2].waker->Some_0;
                if t != id {
                    assert(v2.tasks[t] == v.tasks[t]);
                }
            }
        }
    }
}

/// The invariant is kept when a task gives up its registration and leaves.
pub proof fn lemma_closed<const N: usize>(
    regs: Map<usize, RegView>,
    items: Map<usize, (u8, usize)>,
    limit: nat,
    v: TasksView<ServerTask<N>>,
    v2: TasksView<ServerTask<N>>,
    id: usize,
    k: usize,
    p: usize,
)
    requires
        server_inv(regs, items, limit, v),
        v.contains(id),
        v.tasks[id].cont->Some_0.key() == Some(k),
        v.tasks[id].cont->Some_0.index() == Some(p),
        v2.limit == v.limit,
        v2.tasks.dom() == v.tasks.dom().remove(id),
        forall|t: usize| t != id && v.contains(t) ==> #[trigger] v2.tasks[t] == v.tasks[t],
    ensures
        server_inv(regs.remove(k), items.remove(p), limit, v2),
{
    let regs2 = regs.remove(k);
    let items2 = items.remove(p);
    assert(task_ok(regs, items, v, id));
    assert forall|t: usize| v2.contains(t) implies #[trigger] task_ok(regs2, items2, v2, t) by {
        assert(task_ok(regs, items, v, t));
        assert(apart(v, t, id));
        assert(v2.tasks[t] == v.tasks[t]);
    }
    assert forall|t: usize| v2.contains(t) implies #[trigger] listener_ok(regs2, items2, v2, t) by {
        assert(listener_ok(regs, items, v, t));
        assert(v2.tasks[t] == v.tasks[t]);
    }
    assert forall|t1: usize, t2: usize|
        v2.contains(t1) && v2.contains(t2) && t1 != t2 implies #[trigger] apart(v2, t1, t2) by {
        assert(apart(v, t1, t2));
        assert(v2.tasks[t1] == v.tasks[t1]);
        assert(v2.tasks[t2] == v.tasks[t2]);
    }
    assert forall|t1: usize, t2: usize|
        v2.contains(t1) && v2.contains(t2) implies #[trigger] one_listener(v2, t1, t2) by {
        assert(one_listener(v, t1, t2));
        assert(v2.tasks[t1] == v.tasks[t1]);
        assert(v2.tasks[t2] == v.tasks[t2]);
    }
    assert forall|k2: usize| regs2.dom().contains(k2) implies #[trigger] reg_ok(regs2, v2, k2) by {
        assert(reg_ok(regs, v, k2));
        if regs[k2].waker is Some {
            let t = regs[k2].waker->Some_0;
            assert(t != id);
            assert(v2.tasks[t] == v.tasks[t]);
        }
    }
}

/// A readiness event keeps the invariant, and the handle it fires is valid.
pub proof fn lemma_fire_keeps<const N: usize>(
    regs: Map<usize, RegView>,
    items: Map<usize, (u8, usize)>,
    limit: nat,
    tasks: TasksView<ServerTask<N>>,
    key: usize,
)
    requires
        server_inv(regs, items, limit, tasks.at_rest()),
    ensures
        can_fire(regs, tasks, key),
        server_inv(
            fire(regs, tasks, key).0,
            items,
            limit,
            fire(regs, tasks, key).1.at_rest(),
        ),
        tasks.evolves(fire(regs, tasks, key).1),
        fire(regs, tasks, key).1.tasks.dom() == tasks.tasks.dom(),
{
    let v = tasks.at_rest();
    let next = fire(regs, tasks, key);
    if regs.dom().contains(key) {
        assert(next.0.dom() =~= regs.dom());
        match regs[key].waker {
            Some(t) => {
                assert(reg_ok(regs, v, key));
                assert(task_ok(regs, items, v, t));
                let v2 = next.1.at_rest();
                assert(v2.tasks.dom() =~= v.tasks.dom());
                assert(next.1.tasks.dom() =~= tasks.tasks.dom());
                lemma_own_step(regs, next.0, items, limit, v, v2, t, key);
            },
            None => {
                lemma_ready_only(regs, next.0, items, limit, v);
            },
        }
    }
}

/// A poll keeps the invariant, whatever it reports, and every handle it
/// fires is valid.
pub proof fn lemma_fire_all_keeps<const N: usize>(
    regs: Map<usize, RegView>,
    items: Map<usize, (u8, usize)>,
    limit: nat,
    tasks: TasksView<ServerTask<N>>,
    events: Seq<(usize, u8)>,
)
    requires
        server_inv(regs, items, limit, tasks.at_rest()),
    ensures
        can_fire_all(regs, tasks, events),
        server_inv(
            fire_all(regs, tasks, events).0,
            items,
            limit,
            fire_all(regs, tasks, events).1.at_rest(),
        ),
        tasks.evolves(fire_all(regs, tasks, events).1),
        fire_all(regs, tasks, events).1.tasks.dom() == tasks.tasks.dom(),
    decreases events.len(),
{
    if events.len() > 0 {
        let next = fire(regs, tasks, events[0].0);
        lemma_fire_keeps(regs, items, limit, tasks, events[0].0);
        lemma_fire_all_keeps(next.0, items, limit, next.1, events.drop_first());
    }
}

/// One resume of the listening task.
fn resume_listen<const N: usize, S: Stats>(
    l: &mut ListenTask,
    waker: &WakeHandle,
    tasks: &mut Tasks<ServerTask<N>>,
    env: &mut Net<S>,
) -> (step: Step)
    requires
        old(tasks).wf(),
        old(tasks)@.running(waker@),
        !old(tasks)@.tasks[waker@].awake,
        net_inv(old(env), mid(old(tasks)@, waker@, ServerTask::<N>::Listen(*old(l)))),
    ensures
        final(tasks).wf(),
        final(tasks).passes() == old(tasks).passes(),
        old(tasks)@.evolves(final(tasks)@),
        final(env).progress@.start == old(env).progress@.start,
        step == Step::Suspended ==> net_inv(
            final(env),
            mid(final(tasks)@, waker@, ServerTask::<N>::Listen(*final(l))),
        ),
        step == Step::Done ==> final(tasks)@.tasks[waker@].refs == 1 && net_inv(
            final(env),
            final(tasks)@.finish(waker@).at_rest(),
        ),
        net_live(
            old(env),
            old(tasks)@.suspend(waker@, ServerTask::<N>::Listen(*old(l))).requeue(waker@),
        ) ==> {
            let before = old(tasks)@.suspend(waker@, ServerTask::<N>::Listen(*old(l))).requeue(
                waker@,
            );
            let after = if step == Step::Done {
                final(tasks)@.finish(waker@)
            } else {
                final(tasks)@.suspend(waker@, ServerTask::<N>::Listen(*final(l)))
            };
            net_live(final(env), after) && steps_left(final(env).progress@, after) < steps_left(
                old(env).progress@,
                before,
            )
        },
{
    let ghost id = waker@;
    let ghost limit = env.reactor.limit();
    let ghost start = env.progress@.start;
    let ghost first = env.progress@;
    let ghost began = tasks@.suspend(id, ServerTask::<N>::Listen(*l)).requeue(id);
    let ghost lively = net_live(env, began);
    let ghost rem0 = remaining(first, began.at_rest());
    proof {
        let v = mid(tasks@, id, ServerTask::<N>::Listen(*l));
        assert(began.at_rest().tasks =~= v.tasks);
        assert(began.at_rest() == v);
        assert(began.ready.len() > 0);
        assert(counted_ok(first, v, id));
        lemma_remaining_bound(first, env.stats.metrics(), v);
        if lively {
            assert(alive_task(env.reactor.regs(), began, id));
            assert(paced_task(began, id));
            assert forall|t: usize| tasks@.contains(t) && t != id implies #[trigger] fine_task(
                env.reactor.regs(),
                tasks@,
                t,
            ) by {
                assert(alive_task(env.reactor.regs(), began, t));
                assert(paced_task(began, t));
            }
        }
    }
    if l.listener.is_none() {
        let ghost v = mid(tasks@, id, ServerTask::<N>::Listen(*l));
        let ghost regs = env.reactor.regs();
        let ghost items = env.reactor.items();
        let ghost p = env.progress@;
        let ghost m = env.stats.metrics();
        proof {
            assert(v.contains(id));
            assert(task_ok(regs, items, v, id));
            assert(listener_ok(regs, items, v, id));
            assert(counted_ok(p, v, id));
        }
        let a = AsyncFakeListener::new(&mut env.reactor, &mut env.stats);
        l.listener = Some(a);
        proof {
            let v2 = mid(tasks@, id, ServerTask::<N>::Listen(*l));
            assert(v2.tasks.dom() =~= v.tasks.dom());
            let k = l.listener->Some_0.handle@;
            let at = l.listener->Some_0.inner.poll_index->Some_0;
            lemma_started(
                regs,
                env.reactor.regs(),
                items,
                env.reactor.items(),
                limit,
                v,
                v2,
                id,
                k,
                at,
            );
            let later = Progress { started: true, ..p };
            env.progress@ = later;
            lemma_advance_one(m.register);
            lemma_advance_one(m.accept);
            lemma_advance_one(m.read);
            lemma_advance_one(m.write);
            lemma_counts_step(p, later, m, env.stats.metrics(), v, v2, id);
            if lively {
                assert(tasks@.tasks.dom() =~= v.tasks.dom());
                lemma_alive_step(
                    regs,
                    env.reactor.regs(),
                    items,
                    limit,
                    v,
                    tasks@,
                    tasks@,
                    id,
                    k,
                );
            }
        }
    }
    while l.accepted < CONNS_MAX
        invariant
            tasks.wf(),
            tasks.passes() == old(tasks).passes(),
            tasks@.running(id),
            !tasks@.tasks[id].awake,
            waker@ == id,
            l.listener is Some,
            env.reactor.limit() == limit,
            env.progress@.start == start,
            start == old(env).progress@.start,
            net_inv(env, mid(tasks@, id, ServerTask::<N>::Listen(*l))),
            old(tasks)@.evolves(tasks@),
            first == old(env).progress@,
            first.calls / 2 == first.accepted,
            rem0 == remaining(first, began.at_rest()),
            2 * rem0 + 1 < STEPS_MAX,
            began.ready.len() > 0,
            began == old(tasks)@.suspend(id, ServerTask::<N>::Listen(*old(l))).requeue(id),
            lively == net_live(old(env), began),
            lively ==> first.accepted < CONNS_MAX,
            lively ==> tasks@.parks == env.progress@.accepted + env.progress@.calls % 2,
            lively ==> (l.accepted == CONNS_MAX ==> (env.progress@.last matches Some(y) && y != id
                && tasks@.contains(y) && tasks@.tasks[y].awake && (
            tasks@.tasks[y].cont matches Some(ServerTask::Connection(c)) && c.calls() == 0))),
            tasks@.parks == old(tasks)@.parks,
            lively ==> alive_but(env.reactor.regs(), tasks@, id),
            lively ==> env.reactor.regs()[l.listener->Some_0.handle@].ready,
            env.progress@.calls >= first.calls,
            remaining(env.progress@, mid(tasks@, id, ServerTask::<N>::Listen(*l)))
                + env.progress@.calls == rem0 + first.calls,
        decreases CONNS_MAX - l.accepted,
    {
        let ghost before = tasks@;
        let ghost v = mid(tasks@, id, ServerTask::<N>::Listen(*l));
        let ghost regs = env.reactor.regs();
        let ghost items = env.reactor.items();
        let ghost k = l.listener->Some_0.handle@;
        let ghost p = env.progress@;
        let ghost m = env.stats.metrics();
        proof {
            assert(v.contains(id));
            assert(task_ok(regs, items, v, id));
            assert(listener_ok(regs, items, v, id));
            assert(counted_ok(p, v, id));
            assert(v.tasks.dom() =~= before.tasks.dom());
            lemma_advance_one(m.register);
            lemma_advance_one(m.accept);
            lemma_advance_one(m.read);
            lemma_advance_one(m.write);
        }
        let accepted = match &mut l.listener {
            Some(listener) => listener.accept(waker, &mut env.reactor, tasks, &mut env.stats),
            None => vstd::pervasive::unreached(),
        };
        match accepted {
            None => {
                proof {
                    let v2 = mid(tasks@, id, ServerTask::<N>::Listen(*l));
                    assert(v2.tasks.dom() =~= v.tasks.dom());
                    assert(env.reactor.regs().dom() =~= regs.dom());
                    assert(tasks@.tasks.dom() =~= before.tasks.dom());
                    lemma_own_step(regs, env.reactor.regs(), items, limit, v, v2, id, k);
                    let later = Progress { calls: l.listener->Some_0.inner.calls as nat, ..p };
                    env.progress@ = later;
                    lemma_counts_step(p, later, m, env.stats.metrics(), v, v2, id);
                    if lively {
                        lemma_alive_step(
                            regs,
                            env.reactor.regs(),
                            items,
                            limit,
                            v,
                            before,
                            tasks@,
                            id,
                            k,
                        );
                        let after = tasks@.suspend(id, ServerTask::<N>::Listen(*l));
                        assert(regs[k].ready);
                        assert(env.reactor.regs()[k] == attempted_reg(true, id));
                        assert(!after.tasks[id].awake);
                        assert(alive_task(env.reactor.regs(), after, id));
                        assert forall|t: usize| after.contains(t) implies #[trigger] alive_task(
                            env.reactor.regs(),
                            after,
                            t,
                        ) by {
                            if t != id {
                                assert(fine_task(env.reactor.regs(), tasks@, t));
                            }
                        }
                        assert(after.at_rest() == v2);
                        assert(later.calls > first.calls);
                        assert(2 * remaining(later, after.at_rest()) + 1 < 2 * rem0);
                        assert(steps_left(later, after) < steps_left(first, began));
                        assert(counted_ok(later, v2, id));
                        assert(p.calls % 2 == 0);
                        assert(paced_task(after, id));
                        assert forall|t: usize| after.contains(t) implies #[trigger] paced_task(
                            after,
                            t,
                        ) by {
                            if t != id {
                                assert(fine_task(env.reactor.regs(), tasks@, t));
                            }
                        }
                        assert(pace(later, after));
                    }
                }
                return Step::Suspended;
            },
            Some(stream) => {
                let ghost regs1 = regs.insert(k, attempted_reg(false, id));
                let ghost v1 = mid(tasks@, id, ServerTask::<N>::Listen(*l));
                let ghost k2 = stream.handle@;
                let ghost at2 = stream.inner.poll_index->Some_0;
                let ghost mid_tasks = tasks@;
                proof {
                    assert(v1.tasks.dom() =~= v.tasks.dom());
                    assert(regs1.dom() =~= regs.dom());
                    assert(mid_tasks.tasks.dom() =~= before.tasks.dom());
                    lemma_own_step(regs, regs1, items, limit, v, v1, id, k);
                    assert(env.reactor.regs() =~= regs1.insert(
                        k2,
                        RegView { ready: true, waker: None },
                    ));
                    assert(task_ok(regs1, items, v1, id));
                    assert(listener_ok(regs1, items, v1, id));
                    if lively {
                        lemma_alive_step(
                            regs,
                            regs1,
                            items,
                            limit,
                            v,
                            before,
                            mid_tasks,
                            id,
                            k,
                        );
                    }
                }
                let c = ConnectionTask { stream: Some(stream), buf: zeroed(N), buf_len: 0, sent: 0 };
                proof {
                    assert(c.buf@.subrange(0, 0) =~= Seq::<u8>::empty());
                }
                let t_new = match tasks.add(Box::new(ServerTask::Connection(c))) {
                    Ok(t_new) => t_new,
                    Err(_) => vstd::pervasive::unreached(),
                };
                l.accepted = l.accepted + 1;
                proof {
                    let v2 = mid(tasks@, id, ServerTask::<N>::Listen(*l));
                    assert(v2.tasks.dom() =~= v1.tasks.dom().insert(t_new));
                    lemma_spawned(
                        regs1,
                        env.reactor.regs(),
                        items,
                        env.reactor.items(),
                        limit,
                        v1,
                        v2,
                        id,
                        k2,
                        at2,
                        t_new,
                    );
                    let next = Progress {
                        accepted: p.accepted + 1,
                        calls: p.calls + 1,
                        last: Some(t_new),
                        ..p
                    };
                    env.progress@ = next;
                    assert(v2.tasks.dom() =~= v.tasks.dom().insert(t_new));
                    lemma_counts_spawned(p, next, m, env.stats.metrics(), v, v2, id, t_new);
                    assert forall|t: usize| old(tasks)@.contains(t) implies tasks@.contains(t) && (
                    #[trigger] tasks@.tasks[t]).cont == old(tasks)@.tasks[t].cont by {
                        assert(before.contains(t));
                        assert(mid_tasks.contains(t));
                        assert(t != t_new);
                    }
                    assert forall|t: usize|
                        tasks@.contains(t) && !old(tasks)@.contains(t) implies (
                    #[trigger] tasks@.tasks[t]).cont is Some by {
                        if t != t_new && !before.contains(t) {
                            assert(mid_tasks.contains(t));
                        }
                    }
                    if lively {
                        assert(mid_tasks.tasks.dom() =~= v1.tasks.dom());
                        lemma_alive_frame(
                            regs1,
                            env.reactor.regs(),
                            items,
                            limit,
                            v1,
                            mid_tasks,
                            tasks@,
                            id,
                            k2,
                        );
                        assert(alive_task(env.reactor.regs(), tasks@, t_new));
                        assert(p.calls % 2 == 1);
                        assert(paced_task(tasks@, t_new));
                        assert forall|t: usize|
                            tasks@.contains(t) && t != id implies #[trigger] fine_task(
                            env.reactor.regs(),
                            tasks@,
                            t,
                        ) by {
                            if t != t_new {
                                assert(mid_tasks.contains(t));
                            }
                        }
                    }
                }
            },
        }
    }
    let ghost v = mid(tasks@, id, ServerTask::<N>::Listen(*l));
    let ghost before = tasks@;
    let ghost regs = env.reactor.regs();
    let ghost items = env.reactor.items();
    let ghost k = l.listener->Some_0.handle@;
    let ghost at = l.listener->Some_0.inner.poll_index->Some_0;
    let ghost p = env.progress@;
    let ghost m = env.stats.metrics();
    proof {
        assert(v.contains(id));
        assert(task_ok(regs, items, v, id));
        assert(counted_ok(p, v, id));
    }
    let mut taken = None;
    std::mem::swap(&mut taken, &mut l.listener);
    match taken {
        Some(listener) => listener.close(&mut env.reactor, tasks, &mut env.stats),
        None => vstd::pervasive::unreached(),
    }
    proof {
        let v2 = tasks@.finish(id).at_rest();
        assert(v2.tasks.dom() =~= v.tasks.dom().remove(id));
        lemma_closed(regs, items, limit, v, v2, id, k, at);
        let later = Progress { listener: None, ..p };
        env.progress@ = later;
        lemma_counts_closed(p, later, m, env.stats.metrics(), v, v2, id);
        if lively {
            let after = tasks@.finish(id);
            assert(before.tasks.dom() =~= v.tasks.dom());
            lemma_alive_frame(
                regs,
                env.reactor.regs(),
                items,
                limit,
                v,
                before,
                after,
                id,
                k,
            );
            assert forall|t: usize| after.contains(t) implies #[trigger] alive_task(
                env.reactor.regs(),
                after,
                t,
            ) by {
                assert(before.contains(t) && t != id);
                assert(fine_task(env.reactor.regs(), after, t));
            }
            assert(after.at_rest() == v2);
            assert(p.calls > first.calls);
            assert(2 * remaining(later, after.at_rest()) + 1 < 2 * rem0);
            assert(steps_left(later, after) < steps_left(first, began));
            assert forall|t: usize| after.contains(t) implies #[trigger] paced_task(after, t) by {
                assert(fine_task(env.reactor.regs(), after, t));
            }
            let y = p.last->Some_0;
            assert(fine_task(env.reactor.regs(), after, y));
            assert(after.tasks[y] == before.tasks[y]);
            assert(pace(later, after));
        }
    }
    Step::Done
}

/// One resume of the task of a connection.
fn resume_connection<const N: usize, S: Stats>(
    c: &mut ConnectionTask,
    waker: &WakeHandle,
    tasks: &mut Tasks<ServerTask<N>>,
    env: &mut Net<S>,
) -> (step: Step)
    requires
        old(tasks).wf(),
        old(tasks)@.running(waker@),
        !old(tasks)@.tasks[waker@].awake,
        net_inv(old(env), mid(old(tasks)@, waker@, ServerTask::<N>::Connection(*old(c)))),
    ensures
        final(tasks).wf(),
        final(tasks).passes() == old(tasks).passes(),
        old(tasks)@.evolves(final(tasks)@),
        final(env).progress@.start == old(env).progress@.start,
        step == Step::Suspended ==> net_inv(
            final(env),
            mid(final(tasks)@, waker@, ServerTask::<N>::Connection(*final(c))),
        ),
        step == Step::Done ==> final(tasks)@.tasks[waker@].refs == 1 && net_inv(
            final(env),
            final(tasks)@.finish(waker@).at_rest(),
        ),
        net_live(
            old(env),
            old(tasks)@.suspend(waker@, ServerTask::<N>::Connection(*old(c))).requeue(waker@),
        ) ==> {
            let before = old(tasks)@.suspend(
                waker@,
                ServerTask::<N>::Connection(*old(c)),
            ).requeue(waker@);
            let after = if step == Step::Done {
                final(tasks)@.finish(waker@)
            } else {
                final(tasks)@.suspend(waker@, ServerTask::<N>::Connection(*final(c)))
            };
            net_live(final(env), after) && steps_left(final(env).progress@, after) < steps_left(
                old(env).progress@,
                before,
            )
        },
{
    let ghost id = waker@;
    let ghost limit = env.reactor.limit();
    let ghost p = env.progress@;
    let ghost k = c.stream->Some_0.handle@;
    let ghost began = tasks@.suspend(id, ServerTask::<N>::Connection(*c)).requeue(id);
    let ghost lively = net_live(env, began);
    let ghost rem0 = remaining(p, began.at_rest());
    let ghost calls0 = c.calls();
    proof {
        let v = mid(tasks@, id, ServerTask::<N>::Connection(*c));
        assert(began.at_rest().tasks =~= v.tasks);
        assert(began.at_rest() == v);
        assert(began.ready.len() > 0);
        assert(task_ok(env.reactor.regs(), env.reactor.items(), v, id));
        lemma_remaining_bound(p, env.stats.metrics(), v);
        if lively {
            assert(alive_task(env.reactor.regs(), began, id));
            assert(paced_task(began, id));
            if p.listener is None && p.last is Some && p.last != Some(id) {
                assert(tasks@.tasks[p.last->Some_0] == began.tasks[p.last->Some_0]);
            }
            assert forall|t: usize| tasks@.contains(t) && t != id implies #[trigger] fine_task(
                env.reactor.regs(),
                tasks@,
                t,
            ) by {
                assert(alive_task(env.reactor.regs(), began, t));
                assert(paced_task(began, t));
            }
        }
    }
    loop
        invariant
            tasks.wf(),
            tasks.passes() == old(tasks).passes(),
            tasks@.running(id),
            !tasks@.tasks[id].awake,
            waker@ == id,
            env.reactor.limit() == limit,
            env.progress@ == p,
            p == old(env).progress@,
            c.stream is Some,
            c.stream->Some_0.handle@ == k,
            net_inv(env, mid(tasks@, id, ServerTask::<N>::Connection(*c))),
            old(tasks)@.evolves(tasks@),
            2 * rem0 + 1 < STEPS_MAX,
            calls0 <= 3 || !lively,
            rem0 == remaining(p, began.at_rest()),
            began.ready.len() > 0,
            began == old(tasks)@.suspend(id, ServerTask::<N>::Connection(*old(c))).requeue(id),
            lively == net_live(old(env), began),
            lively ==> alive_but(env.reactor.regs(), tasks@, id),
            lively ==> env.reactor.regs()[k].ready,
            lively ==> pace(p, began) && (calls0 == 0 || calls0 == 1 || calls0 == 3),
            lively ==> last_paced(p, tasks@, id),
            lively ==> (calls0 == 0 ==> c.calls() == 0) && (calls0 == 1 ==> c.calls() <= 2) && (
            c.calls() == 4 ==> calls0 == 3),
            tasks@.parks == old(tasks)@.parks,
            calls0 == old(c).calls(),
            c.calls() >= calls0,
            remaining(p, mid(tasks@, id, ServerTask::<N>::Connection(*c))) + c.calls() == rem0
                + calls0,
        ensures
            tasks.wf(),
            tasks.passes() == old(tasks).passes(),
            tasks@.running(id),
            !tasks@.tasks[id].awake,
            env.reactor.limit() == limit,
            env.progress@ == p,
            p == old(env).progress@,
            c.stream is Some,
            c.stream->Some_0.handle@ == k,
            net_inv(env, mid(tasks@, id, ServerTask::<N>::Connection(*c))),
            old(tasks)@.evolves(tasks@),
            c.sent <= c.buf_len <= c.buf@.len(),
            c.buf@.subrange(0, c.buf_len as int).contains(10u8),
            lively ==> alive_but(env.reactor.regs(), tasks@, id),
            lively ==> env.reactor.regs()[k].ready,
            lively ==> pace(p, began) && (calls0 == 0 || calls0 == 1 || calls0 == 3),
            lively ==> last_paced(p, tasks@, id),
            lively ==> (calls0 == 0 ==> c.calls() == 0) && (calls0 == 1 ==> c.calls() <= 2) && (
            c.calls() == 4 ==> calls0 == 3),
            tasks@.parks == old(tasks)@.parks,
            calls0 == old(c).calls(),
            c.calls() >= calls0,
            remaining(p, mid(tasks@, id, ServerTask::<N>::Connection(*c))) + c.calls() == rem0
                + calls0,
        decreases
                (if c.buf_len <= c.buf@.len() && c.buf@.subrange(0, c.buf_len as int).contains(10u8) {
                    0int
                } else {
                    1int
                }),
    {
        let ghost v = mid(tasks@, id, ServerTask::<N>::Connection(*c));
        let ghost before = tasks@;
        let ghost regs = env.reactor.regs();
        let ghost items = env.reactor.items();
        let ghost m = env.stats.metrics();
        proof {
            assert(v.contains(id));
            assert(task_ok(regs, items, v, id));
            assert(counted_ok(p, v, id));
            lemma_advance_one(m.register);
            lemma_advance_one(m.accept);
            lemma_advance_one(m.read);
            lemma_advance_one(m.write);
        }
        if has_newline(&c.buf, c.buf_len) {
            break ;
        }
        let at = c.buf_len;
        let r = match &mut c.stream {
            Some(stream) => stream.read(
                &mut c.buf,
                at,
                waker,
                &mut env.reactor,
                tasks,
                &mut env.stats,
            ),
            None => vstd::pervasive::unreached(),
        };
        proof {
            if r is Some {
                assert(c.buf@.subrange(0, (c.buf_len + r->Some_0) as int) =~= hello_line());
                assert(hello_line()[11] == 10u8);
            }
        }
        match r {
            None => {},
            Some(n) => {
                c.buf_len = c.buf_len + n;
            },
        }
        proof {
            let v2 = mid(tasks@, id, ServerTask::<N>::Connection(*c));
            assert(v2.tasks.dom() =~= v.tasks.dom());
            assert(env.reactor.regs().dom() =~= regs.dom());
            assert(tasks@.tasks.dom() =~= before.tasks.dom());
            assert(before.tasks.dom() =~= v.tasks.dom());
            lemma_own_step(regs, env.reactor.regs(), items, limit, v, v2, id, k);
            lemma_counts_step(p, p, m, env.stats.metrics(), v, v2, id);
            assert(counted_ok(p, v2, id));
            if lively {
                lemma_alive_step(
                    regs,
                    env.reactor.regs(),
                    items,
                    limit,
                    v,
                    before,
                    tasks@,
                    id,
                    k,
                );
                if p.listener is None && p.last is Some && p.last != Some(id) {
                    assert(tasks@.tasks[p.last->Some_0] == before.tasks[p.last->Some_0]);
                }
            }
        }
        if r.is_none() {
            proof {
                if lively {
                    let after = tasks@.suspend(id, ServerTask::<N>::Connection(*c));
                    assert(regs[k].ready);
                    assert(env.reactor.regs()[k] == attempted_reg(true, id));
                    assert(c.calls() <= 3);
                    assert(!after.tasks[id].awake);
                    assert(alive_task(env.reactor.regs(), after, id));
                    assert forall|t: usize| after.contains(t) implies #[trigger] alive_task(
                        env.reactor.regs(),
                        after,
                        t,
                    ) by {
                        if t != id {
                            assert(fine_task(env.reactor.regs(), tasks@, t));
                        }
                    }
                    assert(after.at_rest() == mid(tasks@, id, ServerTask::<N>::Connection(*c)));
                    assert(c.calls() > calls0);
                    assert(began.contains(id));
                    assert(paced_task(began, id));
                    assert(need(after, id) == need(began, id));
                    assert(paced_task(after, id));
                    assert forall|t: usize| after.contains(t) implies #[trigger] paced_task(
                        after,
                        t,
                    ) by {
                        if t != id {
                            assert(fine_task(env.reactor.regs(), tasks@, t));
                        }
                    }
                    if p.listener is None && p.last is Some {
                        let y = p.last->Some_0;
                        if y != id {
                            assert(after.tasks[y] == tasks@.tasks[y]);
                        }
                    }
                    assert(pace(p, after));
                    assert(2 * remaining(p, after.at_rest()) + 1 < 2 * rem0);
                    assert(steps_left(p, after) < steps_left(p, began));
                }
            }
            return Step::Suspended;
        }
    }
    while c.sent < c.buf_len
        invariant
            tasks.wf(),
            tasks.passes() == old(tasks).passes(),
            tasks@.running(id),
            !tasks@.tasks[id].awake,
            waker@ == id,
            env.reactor.limit() == limit,
            env.progress@ == p,
            p == old(env).progress@,
            c.stream is Some,
            c.stream->Some_0.handle@ == k,
            net_inv(env, mid(tasks@, id, ServerTask::<N>::Connection(*c))),
            old(tasks)@.evolves(tasks@),
            c.buf_len <= c.buf@.len(),
            c.buf@.subrange(0, c.buf_len as int).contains(10u8),
            c.sent <= c.buf_len,
            2 * rem0 + 1 < STEPS_MAX,
            calls0 <= 3 || !lively,
            rem0 == remaining(p, began.at_rest()),
            began.ready.len() > 0,
            began == old(tasks)@.suspend(id, ServerTask::<N>::Connection(*old(c))).requeue(id),
            lively == net_live(old(env), began),
            lively ==> alive_but(env.reactor.regs(), tasks@, id),
            lively ==> env.reactor.regs()[k].ready,
            lively ==> pace(p, began) && (calls0 == 0 || calls0 == 1 || calls0 == 3),
            lively ==> last_paced(p, tasks@, id),
            lively ==> (calls0 == 0 ==> c.calls() == 0) && (calls0 == 1 ==> c.calls() <= 2) && (
            c.calls() == 4 ==> calls0 == 3),
            tasks@.parks == old(tasks)@.parks,
            calls0 == old(c).calls(),
            c.calls() >= calls0,
            remaining(p, mid(tasks@, id, ServerTask::<N>::Connection(*c))) + c.calls() == rem0
                + calls0,
        decreases c.buf_len - c.sent,
    {
        let ghost v = mid(tasks@, id, ServerTask::<N>::Connection(*c));
        let ghost before = tasks@;
        let ghost regs = env.reactor.regs();
        let ghost items = env.reactor.items();
        let ghost m = env.stats.metrics();
        proof {
            assert(v.contains(id));
            assert(task_ok(regs, items, v, id));
            assert(counted_ok(p, v, id));
            lemma_advance_one(m.register);
            lemma_advance_one(m.accept);
            lemma_advance_one(m.read);
            lemma_advance_one(m.write);
        }
        let len = c.buf_len - c.sent;
        let r = match &mut c.stream {
            Some(stream) => stream.write(len, waker, &mut env.reactor, tasks, &mut env.stats),
            None => vstd::pervasive::unreached(),
        };
        match r {
            None => {},
            Some(n) => {
                c.sent = c.sent + n;
            },
        }
        proof {
            let v2 = mid(tasks@, id, ServerTask::<N>::Connection(*c));
            assert(v2.tasks.dom() =~= v.tasks.dom());
            assert(env.reactor.regs().dom() =~= regs.dom());
            assert(tasks@.tasks.dom() =~= before.tasks.dom());
            assert(before.tasks.dom() =~= v.tasks.dom());
            lemma_own_step(regs, env.reactor.regs(), items, limit, v, v2, id, k);
            lemma_counts_step(p, p, m, env.stats.metrics(), v, v2, id);
            assert(counted_ok(p, v2, id));
            if lively {
                lemma_alive_step(
                    regs,
                    env.reactor.regs(),
                    items,
                    limit,
                    v,
                    before,
                    tasks@,
                    id,
                    k,
                );
                if p.listener is None && p.last is Some && p.last != Some(id) {
                    assert(tasks@.tasks[p.last->Some_0] == before.tasks[p.last->Some_0]);
                }
            }
        }
        if r.is_none() {
            proof {
                if lively {
                    let after = tasks@.suspend(id, ServerTask::<N>::Connection(*c));
                    assert(regs[k].ready);
                    assert(env.reactor.regs()[k] == attempted_reg(true, id));
                    assert(c.calls() <= 3);
                    assert(!after.tasks[id].awake);
                    assert(alive_task(env.reactor.regs(), after, id));
                    assert forall|t: usize| after.contains(t) implies #[trigger] alive_task(
                        env.reactor.regs(),
                        after,
                        t,
                    ) by {
                        if t != id {
                            assert(fine_task(env.reactor.regs(), tasks@, t));
                        }
                    }
                    assert(after.at_rest() == mid(tasks@, id, ServerTask::<N>::Connection(*c)));
                    assert(c.calls() > calls0);
                    assert(began.contains(id));
                    assert(paced_task(began, id));
                    assert(need(after, id) == need(began, id));
                    assert(paced_task(after, id));
                    assert forall|t: usize| after.contains(t) implies #[trigger] paced_task(
                        after,
                        t,
                    ) by {
                        if t != id {
                            assert(fine_task(env.reactor.regs(), tasks@, t));
                        }
                    }
                    if p.listener is None && p.last is Some {
                        let y = p.last->Some_0;
                        if y != id {
                            assert(after.tasks[y] == tasks@.tasks[y]);
                        }
                    }
                    assert(pace(p, after));
                    assert(2 * remaining(p, after.at_rest()) + 1 < 2 * rem0);
                    assert(steps_left(p, after) < steps_left(p, began));
                }
            }
            return Step::Suspended;
        }
    }
    let ghost v = mid(tasks@, id, ServerTask::<N>::Connection(*c));
    let ghost before = tasks@;
    let ghost regs = env.reactor.regs();
    let ghost items = env.reactor.items();
    let ghost at = c.stream->Some_0.inner.poll_index->Some_0;
    let ghost m = env.stats.metrics();
    let ghost calls_end = c.calls();
    proof {
        assert(v.contains(id));
        assert(task_ok(regs, items, v, id));
        assert(counted_ok(p, v, id));
        assert(calls_end == 4);
        if lively {
            assert(calls0 == 3);
            assert(began.contains(id));
            assert(paced_task(began, id));
        }
    }
    let mut taken = None;
    std::mem::swap(&mut taken, &mut c.stream);
    match taken {
        Some(stream) => stream.close(&mut env.reactor, tasks, &mut env.stats),
        None => vstd::pervasive::unreached(),
    }
    proof {
        let v2 = tasks@.finish(id).at_rest();
        assert(v2.tasks.dom() =~= v.tasks.dom().remove(id));
        lemma_closed(regs, items, limit, v, v2, id, k, at);
        let q = if p.last == Some(id) {
            Progress { last: None, echoed: p.echoed + 1, ..p }
        } else {
            Progress { echoed: p.echoed + 1, ..p }
        };
        env.progress@ = q;
        lemma_counts_closed(p, q, m, env.stats.metrics(), v, v2, id);
        if lively {
            let after = tasks@.finish(id);
            assert(before.tasks.dom() =~= v.tasks.dom());
            lemma_alive_frame(
                regs,
                env.reactor.regs(),
                items,
                limit,
                v,
                before,
                after,
                id,
                k,
            );
            assert forall|t: usize| after.contains(t) implies #[trigger] alive_task(
                env.reactor.regs(),
                after,
                t,
            ) by {
                assert(before.contains(t) && t != id);
                assert(fine_task(env.reactor.regs(), after, t));
            }
            assert(after.at_rest() == v2);
            assert(calls_end > calls0);
            assert(2 * remaining(p, after.at_rest()) + 1 < 2 * rem0);
            assert(remaining(q, after.at_rest()) == remaining(p, after.at_rest()));
            assert(steps_left(q, after) < steps_left(p, began));
            assert(need(began, id) == 0);
            assert forall|t: usize| after.contains(t) implies #[trigger] paced_task(after, t) by {
                assert(fine_task(env.reactor.regs(), after, t));
            }
            if p.listener is None && p.last is Some {
                let y = p.last->Some_0;
                if y != id {
                    assert(before.contains(y));
                    assert(after.tasks[y] == before.tasks[y]);
                }
            }
            assert(pace(q, after));
        }
    }
    Step::Done
}

impl<const N: usize, S: Stats> Continuation<Net<S>> for ServerTask<N> {
    type Fixed = StatsMetrics;

    /// The counts that the workload began with.
    open spec fn fixed(env: &Net<S>) -> StatsMetrics {
        env.progress@.start
    }

    open spec fn inv(env: &Net<S>, tasks: TasksView<Self>) -> bool {
        net_inv(env, tasks)
    }

    open spec fn live(env: &Net<S>, tasks: TasksView<Self>) -> bool {
        net_live(env, tasks)
    }

    open spec fn fuel(env: &Net<S>, tasks: TasksView<Self>) -> usize {
        steps_left(env.progress@, tasks)
    }

    fn resume(&mut self, waker: &WakeHandle, tasks: &mut Tasks<Self>, env: &mut Net<S>) -> (step:
        Step) {
        match self {
            ServerTask::Listen(l) => resume_listen(l, waker, tasks, env),
            ServerTask::Connection(c) => resume_connection(c, waker, tasks, env),
        }
    }

    fn park(tasks: &mut Tasks<Self>, env: &mut Net<S>) {
        let ghost before = tasks@;
        let ghost regs = env.reactor.regs();
        let ghost items = env.reactor.items();
        let ghost limit = env.reactor.limit();
        let ghost events = events_of(items);
        let ghost p = env.progress@;
        let ghost m = env.stats.metrics();
        let ghost lively = net_live(env, before);
        proof {
            lemma_fire_all_keeps(regs, items, limit, before, events);
            tasks.lemma_inv();
        }
        env.reactor.poll(tasks, &mut env.stats);
        proof {
            let v = before.at_rest();
            let after = tasks@.parked();
            let v2 = after.at_rest();
            assert(tasks@.at_rest().parked().tasks =~= v2.tasks);
            assert(tasks@.at_rest().parked() == v2);
            lemma_inv_parked(env.reactor.regs(), items, limit, tasks@.at_rest());
            assert(v2.tasks.dom() =~= v.tasks.dom());
            lemma_counts_frame(p, m, env.stats.metrics(), v, v2);
            if lively {
                lemma_fire_all_alive(regs, items, limit, before, events);
                tasks.lemma_inv();
                assert(reports_all(items, events));
                assert forall|t: usize| after.contains(t) implies tasks@.tasks[t].awake
                    && #[trigger] paced_task(after, t) by {
                    assert(before.contains(t));
                    assert(alive_task(regs, before, t));
                    assert(paced_task(before, t));
                    assert(!before.ready.contains(t));
                    assert(!before.tasks[t].awake);
                    assert(v.contains(t));
                    assert(task_ok(regs, items, v, t));
                    let k = before.tasks[t].cont->Some_0.key()->Some_0;
                    let at = before.tasks[t].cont->Some_0.index()->Some_0;
                    assert(items.dom().contains(at));
                    let i = choose|i: int|
                        0 <= i < events.len() && #[trigger] events[i] == (
                            items[at].1,
                            items[at].0,
                        );
                    assert(events[i].0 == k);
                    lemma_fire_all_wakes(regs, before, events, k, t);
                    assert(tasks@.tasks[t].cont == before.tasks[t].cont);
                }
                assert forall|t: usize| after.contains(t) implies #[trigger] alive_task(
                    env.reactor.regs(),
                    after,
                    t,
                ) by {
                    assert(alive_task(env.reactor.regs(), tasks@, t));
                }
                if p.listener is None {
                    if p.last is Some {
                        let y = p.last->Some_0;
                        assert(paced_task(after, y));
                        assert(tasks@.tasks[y].awake);
                        assert(!before.ready.contains(y));
                        assert(tasks@.tasks[y].cont == before.tasks[y].cont);
                    } else {
                        let t = before.tasks.dom().choose();
                        assert(before.contains(t));
                        assert(paced_task(before, t));
                        assert(alive_task(regs, before, t));
                        assert(!before.ready.contains(t));
                        assert(v.contains(t));
                        assert(server_counts(p, m, v));
                        assert(crate::progress::counted_ok(p, v, t));
                    }
                }
                assert(pace(p, after));
                let t = before.tasks.dom().choose();
                assert(before.contains(t));
                assert(tasks@.contains(t));
                assert(after.contains(t));
                assert(paced_task(after, t));
                assert(tasks@.tasks[t].awake);
                assert(tasks@.ready.contains(t));
                assert(after.ready.len() > 0);
                lemma_remaining_bound(p, m, v);
                assert(steps_left(p, after) < steps_left(p, before));
            }
        }
    }
}

impl<const N: usize> Start<AsyncInvoke> for ServerTask<N> {
    open spec fn starts(arg: AsyncInvoke, c: Self) -> bool {
        match arg {
            AsyncInvoke::Listen => c == ServerTask::<N>::Listen(
                ListenTask { listener: None, accepted: 0 },
            ),
            AsyncInvoke::Connection(stream) => c matches ServerTask::Connection(t) && t.stream
                == Some(stream) && t.buf@.len() == N && t.buf_len == 0 && t.sent == 0,
        }
    }

    fn start(arg: AsyncInvoke) -> (c: Self) {
        match arg {
            AsyncInvoke::Listen => ServerTask::Listen(ListenTask { listener: None, accepted: 0 }),
            AsyncInvoke::Connection(stream) => ServerTask::Connection(
                ConnectionTask { stream: Some(stream), buf: zeroed(N), buf_len: 0, sent: 0 },
            ),
        }
    }
}

/// With one task, which listens and has not made its listener yet, and a
/// reactor without registrations, the invariant holds.
pub proof fn lemma_initial<const N: usize>(
    limit: nat,
    v: TasksView<ServerTask<N>>,
    id: usize,
)
    requires
        hello_line().len() <= N,
        limit > CONNS_MAX,
        v.limit > CONNS_MAX,
        v.tasks.dom() == set![id],
        v.tasks[id] == (TaskView {
            cont: Some(ServerTask::<N>::Listen(ListenTask { listener: None, accepted: 0 })),
            refs: 1,
            awake: false,
        }),
    ensures
        server_inv(
            Map::<usize, RegView>::empty(),
            Map::<usize, (u8, usize)>::empty(),
            limit,
            v,
        ),
{
    let regs = Map::<usize, RegView>::empty();
    let items = Map::<usize, (u8, usize)>::empty();
    assert(task_ok(regs, items, v, id));
    assert(listener_ok(regs, items, v, id));
}

/// When no task is left, no registration is left either, and nothing is
/// entered in the readiness source.
pub proof fn lemma_all_released<const N: usize>(
    regs: Map<usize, RegView>,
    items: Map<usize, (u8, usize)>,
    limit: nat,
    v: TasksView<ServerTask<N>>,
)
    requires
        server_inv(regs, items, limit, v),
        v.tasks.dom().len() == 0,
    ensures
        regs == Map::<usize, RegView>::empty(),
        items == Map::<usize, (u8, usize)>::empty(),
{
    assert(regs.dom() =~= Set::<usize>::empty());
    assert(items.dom() =~= Set::<usize>::empty());
    assert(regs =~= Map::<usize, RegView>::empty());
    assert(items =~= Map::<usize, (u8, usize)>::empty());
}

/// Serves the workload with a scheduler whose tasks are made from
/// arguments: spawns the listening task and runs until no task is left, or
/// until `budget` steps were made. Returns the environment, and whether no
/// task is left; then no registration is left either, every connection was
/// accepted, has received its line and sent it back, and the counts are
/// those of the whole workload.
pub fn serve<const N: usize, S: Stats>(stats: S, budget: usize) -> (r: (Net<S>, bool))
    requires
        hello_line().len() <= N,
    ensures
        r.0.reactor.wf(),
        r.1 ==> r.0.reactor.regs() == Map::<usize, RegView>::empty() && r.0.reactor.items()
            == Map::<usize, (u8, usize)>::empty(),
        r.1 ==> served(stats.metrics(), r.0.stats.metrics()),
        r.1 ==> r.0.progress@.accepted == CONNS_MAX && r.0.progress@.echoed == CONNS_MAX,
        budget >= STEPS_MAX ==> r.1,
{
    let ghost start = stats.metrics();
    let mut env = Net {
        reactor: FakeReactor::new(CONNS_MAX + 1),
        stats,
        progress: Ghost(
            Progress {
                start,
                listener: None,
                started: false,
                accepted: 0,
                calls: 0,
                echoed: 0,
                last: None,
            },
        ),
    };
    let mut executor: ArgExecutor<ServerTask<N>> = ArgExecutor::new(CONNS_MAX + 1);
    let ghost empty = executor@;
    match executor.spawn(AsyncInvoke::Listen) {
        Ok(_) => {},
        Err(_) => vstd::pervasive::unreached(),
    }
    proof {
        let (id, c) = choose|id: usize, c: ServerTask<N>|
            ServerTask::<N>::starts(AsyncInvoke::Listen, c) && !empty.contains(id) && executor@
                == #[trigger] empty.spawn(id, c);
        let v = executor@.at_rest();
        assert(v.tasks.dom() =~= set![id]);
        lemma_initial(env.reactor.limit(), v, id);
        env.progress@ = Progress {
            start,
            listener: Some(id),
            started: false,
            accepted: 0,
            calls: 0,
            echoed: 0,
            last: None,
        };
        lemma_counts_initial(env.progress@, env.stats.metrics(), v, id);
        assert(alive_task(env.reactor.regs(), executor@, id));
        assert(paced_task(executor@, id));
        assert(net_live(&env, executor@));
    }
    let finished = executor.run(&mut env, budget);
    proof {
        executor.lemma_inv();
        if !finished && budget >= STEPS_MAX {
            let t = executor@.ready[0];
            assert(executor@.ready.contains(t));
            assert(alive_task(env.reactor.regs(), executor@, t));
            lemma_remaining_positive(
                env.progress@,
                env.stats.metrics(),
                executor@.at_rest(),
                t,
            );
        }
        if finished {
            let v = executor@.at_rest();
            assert(v.tasks.dom() =~= executor@.tasks.dom());
            assert(pace(env.progress@, executor@));
            assert(server_counts(env.progress@, env.stats.metrics(), v));
            assert(env.progress@.listener is None);
            assert(env.progress@.last is None);
            assert(executor@.parks == POLLS);
            lemma_all_released(
                env.reactor.regs(),
                env.reactor.items(),
                env.reactor.limit(),
                v,
            );
            lemma_counts_finished(env.progress@, env.stats.metrics(), v);
        }
    }
    (env, finished)
}

/// Serves the workload as [`serve`] does, with a scheduler that is handed
/// continuations which the caller has put on the heap.
pub fn serve_boxed<const N: usize, S: Stats>(stats: S, budget: usize) -> (r: (Net<S>, bool))
    requires
        hello_line().len() <= N,
    ensures
        r.0.reactor.wf(),
        r.1 ==> r.0.reactor.regs() == Map::<usize, RegView>::empty() && r.0.reactor.items()
            == Map::<usize, (u8, usize)>::empty(),
        r.1 ==> served(stats.metrics(), r.0.stats.metrics()),
        r.1 ==> r.0.progress@.accepted == CONNS_MAX && r.0.progress@.echoed == CONNS_MAX,
        budget >= STEPS_MAX ==> r.1,
{
    let ghost start = stats.metrics();
    let mut env = Net {
        reactor: FakeReactor::new(CONNS_MAX + 1),
        stats,
        progress: Ghost(
            Progress {
                start,
                listener: None,
                started: false,
                accepted: 0,
                calls: 0,
                echoed: 0,
                last: None,
            },
        ),
    };
    let mut executor: BoxExecutor<ServerTask<N>> = BoxExecutor::new(CONNS_MAX + 1);
    let ghost empty = executor@;
    let listen: Box<ServerTask<N>> = Box::new(ServerTask::<N>::start(AsyncInvoke::Listen));
    match executor.spawn(listen) {
        Ok(_) => {},
        Err(_) => vstd::pervasive::unreached(),
    }
    proof {
        let id = choose|id: usize|
            !empty.contains(id) && executor@ == #[trigger] empty.spawn(id, *listen);
        let v = executor@.at_rest();
        assert(v.tasks.dom() =~= set![id]);
        lemma_initial(env.reactor.limit(), v, id);
        env.progress@ = Progress {
            start,
            listener: Some(id),
            started: false,
            accepted: 0,
            calls: 0,
            echoed: 0,
            last: None,
        };
        lemma_counts_initial(env.progress@, env.stats.metrics(), v, id);
        assert(alive_task(env.reactor.regs(), executor@, id));
        assert(paced_task(executor@, id));
        assert(net_live(&env, executor@));
    }
    let finished = executor.run(&mut env, budget);
    proof {
        executor.lemma_inv();
        if !finished && budget >= STEPS_MAX {
            let t = executor@.ready[0];
            assert(executor@.ready.contains(t));
            assert(alive_task(env.reactor.regs(), executor@, t));
            lemma_remaining_positive(
                env.progress@,
                env.stats.metrics(),
                executor@.at_rest(),
                t,
            );
        }
        if finished {
            let v = executor@.at_rest();
            assert(v.tasks.dom() =~= executor@.tasks.dom());
            assert(pace(env.progress@, executor@));
            assert(server_counts(env.progress@, env.stats.metrics(), v));
            assert(env.progress@.listener is None);
            assert(env.progress@.last is None);
            assert(executor@.parks == POLLS);
            lemma_all_released(
                env.reactor.regs(),
                env.reactor.items(),
                env.reactor.limit(),
                v,
            );
            lemma_counts_finished(env.progress@, env.stats.metrics(), v);
        }
    }
    (env, finished)
}

} // verus!
