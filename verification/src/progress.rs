//! What the served workload has counted, told from how far its tasks have
//! come.

use crate::count::{
    advance, lemma_advance_add, lemma_advance_one, lemma_sum_at_most, lemma_sum_change,
    lemma_sum_empty, lemma_sum_insert, lemma_sum_same, lemma_sum_split, sum_over,
};
use crate::executor::TasksView;
use crate::fakeio::StatsType;
use crate::run::{served, StatsMetrics, CONNS_MAX, POLLS, STEPS_MAX};
use crate::server::{same_but, ConnectionTask, ServerTask};
use vstd::prelude::*;

verus! {

/// How far the listening task has come, and the counts the workload began
/// with.
pub ghost struct Progress {
    /// The counts before the workload was served.
    pub start: StatsMetrics,
    /// The task that listens, while there is one.
    pub listener: Option<usize>,
    /// Whether the listener was made and registered.
    pub started: bool,
    /// How many connections were accepted.
    pub accepted: nat,
    /// How many attempts to accept were made.
    pub calls: nat,
    /// How many connections have received their line, sent all of it back
    /// and were closed.
    pub echoed: nat,
    /// The task of the connection that was accepted last, while the task
    /// is there.
    pub last: Option<usize>,
}

impl ConnectionTask {
    /// Whether the connection has received its line.
    pub open spec fn has_line(&self) -> bool {
        self.buf@.subrange(0, self.buf_len as int).contains(10u8)
    }

    /// How many attempts were made on the connection's stream.
    pub open spec fn calls(&self) -> nat {
        self.stream->Some_0.inner.calls as nat
    }

    /// A connection has made no attempt or one before it has its line, two
    /// or three while it has not sent it, and four when it has.
    pub open spec fn on_track(&self) -> bool {
        if self.has_line() {
            &&& self.sent < self.buf_len ==> 2 <= self.calls() <= 3
            &&& self.sent >= self.buf_len ==> self.calls() == 4
        } else {
            self.calls() <= 1
        }
    }

    /// How many reads the connection has attempted.
    pub open spec fn reads(&self) -> nat {
        if self.has_line() {
            2
        } else {
            self.calls()
        }
    }

    /// How many writes the connection has attempted.
    pub open spec fn writes(&self) -> nat {
        if self.has_line() {
            (self.calls() - 2) as nat
        } else {
            0
        }
    }
}

impl<const N: usize> ServerTask<N> {
    /// How many reads the task has attempted.
    pub open spec fn reads(self) -> nat {
        match self {
            ServerTask::Listen(_) => 0,
            ServerTask::Connection(c) => c.reads(),
        }
    }

    /// How many writes the task has attempted.
    pub open spec fn writes(self) -> nat {
        match self {
            ServerTask::Listen(_) => 0,
            ServerTask::Connection(c) => c.writes(),
        }
    }
}

impl<const N: usize> ServerTask<N> {
    /// How many attempts a task that serves a connection has still to make.
    pub open spec fn weight(self) -> nat {
        match self {
            ServerTask::Listen(_) => 0,
            ServerTask::Connection(c) => (4 - c.calls()) as nat,
        }
    }
}

/// The attempts that each task has still to make on its connection.
pub open spec fn weights_in<const N: usize>(v: TasksView<ServerTask<N>>) -> spec_fn(usize) -> nat {
    |t: usize| v.tasks[t].cont->Some_0.weight()
}

/// The attempts that are still to be made: those to accept, four for each
/// connection that is not accepted yet, and those of the open connections.
pub open spec fn remaining<const N: usize>(p: Progress, v: TasksView<ServerTask<N>>) -> nat {
    (2 * CONNS_MAX - p.calls) as nat + 4 * ((CONNS_MAX - p.accepted) as nat) + sum_over(
        v.tasks.dom(),
        weights_in(v),
    )
}

/// A bound on the steps that a run still takes: two for each attempt that
/// is still to be made, a resume and at most one park before it, and one
/// more when no task is ready.
pub open spec fn steps_left<const N: usize>(p: Progress, v: TasksView<ServerTask<N>>) -> usize {
    let steps = 2 * remaining(p, v.at_rest()) + (if v.ready.len() == 0 {
        1nat
    } else {
        0nat
    });
    if steps < STEPS_MAX {
        steps as usize
    } else {
        STEPS_MAX
    }
}

/// The reads of each task.
pub open spec fn reads_in<const N: usize>(v: TasksView<ServerTask<N>>) -> spec_fn(usize) -> nat {
    |t: usize| v.tasks[t].cont->Some_0.reads()
}

/// The writes of each task.
pub open spec fn writes_in<const N: usize>(v: TasksView<ServerTask<N>>) -> spec_fn(usize) -> nat {
    |t: usize| v.tasks[t].cont->Some_0.writes()
}

/// A task fits the progress: the listening task is the one on record and
/// has come as far as recorded; a connection is on track.
pub open spec fn counted_ok<const N: usize>(
    p: Progress,
    v: TasksView<ServerTask<N>>,
    t: usize,
) -> bool {
    match v.tasks[t].cont->Some_0 {
        ServerTask::Listen(l) => {
            &&& p.listener == Some(t)
            &&& l.accepted == p.accepted
            &&& l.listener is Some <==> p.started
            &&& p.started ==> l.listener->Some_0.inner.calls == p.calls
        },
        ServerTask::Connection(c) => c.on_track(),
    }
}

/// How many tasks serve a connection.
pub open spec fn conn_tasks<const N: usize>(p: Progress, v: TasksView<ServerTask<N>>) -> int {
    v.tasks.dom().len() - (if p.listener is Some {
        1int
    } else {
        0int
    })
}

/// What the workload has counted when it has come as far as `p` and its
/// tasks are `v`: one registration for the listener and one for each
/// accepted connection; every attempt to accept; one unregistration and two
/// reads and writes for each connection that was closed, and the attempts of
/// those that are open; and the listener's unregistration when it is gone.
pub open spec fn server_counts<const N: usize>(
    p: Progress,
    m: StatsMetrics,
    v: TasksView<ServerTask<N>>,
) -> bool {
    let closed = (p.accepted - conn_tasks(p, v)) as nat;
    &&& v.tasks.dom().finite()
    &&& p.accepted <= CONNS_MAX
    &&& p.listener matches Some(t) ==> v.contains(t) && v.tasks[t].cont->Some_0 is Listen
    &&& 0 <= conn_tasks(p, v) <= p.accepted
    &&& p.calls / 2 == p.accepted
    &&& p.echoed == closed
    &&& p.accepted == CONNS_MAX ==> p.calls % 2 == 0
    &&& !p.started ==> p.calls == 0 && p.accepted == 0 && p.listener is Some
    &&& p.listener is None ==> p.accepted == CONNS_MAX && p.started
    &&& m.register == advance(p.start.register, p.accepted + (if p.started {
        1nat
    } else {
        0nat
    }))
    &&& m.accept == advance(p.start.accept, p.calls)
    &&& m.poll == advance(p.start.poll, v.parks)
    &&& m.unregister == advance(p.start.unregister, closed + (if p.listener is None {
        1nat
    } else {
        0nat
    }))
    &&& m.read == advance(p.start.read, 2 * closed + sum_over(v.tasks.dom(), reads_in(v)))
    &&& m.write == advance(p.start.write, 2 * closed + sum_over(v.tasks.dom(), writes_in(v)))
    &&& forall|t: usize| v.contains(t) ==> #[trigger] counted_ok(p, v, t)
}

/// The counts fit one task that listens and has not begun.
pub proof fn lemma_counts_initial<const N: usize>(
    p: Progress,
    m: StatsMetrics,
    v: TasksView<ServerTask<N>>,
    id: usize,
)
    requires
        p == (Progress {
            start: m,
            listener: Some(id),
            started: false,
            accepted: 0,
            calls: 0,
            echoed: 0,
            last: None,
        }),
        v.parks == 0,
        v.tasks.dom() == set![id],
        v.tasks[id].cont matches Some(ServerTask::Listen(l)) && l.listener is None && l.accepted
            == 0,
    ensures
        server_counts(p, m, v),
{
    lemma_advance_one(m.register);
    lemma_advance_one(m.accept);
    lemma_advance_one(m.unregister);
    lemma_advance_one(m.read);
    lemma_advance_one(m.write);
    lemma_advance_one(m.poll);
    lemma_sum_split(v.tasks.dom(), reads_in(v), id);
    lemma_sum_split(v.tasks.dom(), writes_in(v), id);
    assert(v.tasks.dom().remove(id) =~= Set::<usize>::empty());
    lemma_sum_empty(reads_in(v));
    lemma_sum_empty(writes_in(v));
}

/// When no task is left, the counts are those of a workload served to the
/// end, and every connection was accepted and served.
pub proof fn lemma_counts_finished<const N: usize>(
    p: Progress,
    m: StatsMetrics,
    v: TasksView<ServerTask<N>>,
)
    requires
        server_counts(p, m, v),
        v.tasks.dom().len() == 0,
        v.parks == POLLS,
    ensures
        served(p.start, m),
        p.accepted == CONNS_MAX,
        p.echoed == CONNS_MAX,
{
    assert(v.tasks.dom() =~= Set::<usize>::empty());
    lemma_sum_empty(reads_in(v));
    lemma_sum_empty(writes_in(v));
}

/// The counts are kept when the scheduler has parked: no task has changed
/// and one poll was counted.
pub proof fn lemma_counts_frame<const N: usize>(
    p: Progress,
    m: StatsMetrics,
    m2: StatsMetrics,
    v: TasksView<ServerTask<N>>,
    v2: TasksView<ServerTask<N>>,
)
    requires
        server_counts(p, m, v),
        v2.tasks.dom() == v.tasks.dom(),
        forall|t: usize| v.contains(t) ==> (#[trigger] v2.tasks[t]).cont == v.tasks[t].cont,
        v2.parks == v.parks + 1,
        m2 == m.bump(StatsType::Poll),
    ensures
        server_counts(p, m2, v2),
        remaining(p, v2) == remaining(p, v),
{
    lemma_sum_same(v.tasks.dom(), reads_in(v), reads_in(v2));
    lemma_sum_same(v.tasks.dom(), writes_in(v), writes_in(v2));
    lemma_sum_same(v.tasks.dom(), weights_in(v), weights_in(v2));
    lemma_advance_add(p.start.poll, v.parks, 1);
    lemma_advance_one(m.poll);
    assert forall|t: usize| v2.contains(t) implies #[trigger] counted_ok(p, v2, t) by {
        assert(counted_ok(p, v, t));
    }
}

/// The counts are kept when one task has made attempts and counted them.
pub proof fn lemma_counts_step<const N: usize>(
    p: Progress,
    later: Progress,
    m: StatsMetrics,
    m2: StatsMetrics,
    v: TasksView<ServerTask<N>>,
    v2: TasksView<ServerTask<N>>,
    id: usize,
)
    requires
        server_counts(p, m, v),
        v.contains(id),
        same_but(v, v2, id),
        counted_ok(later, v2, id),
        v.tasks[id].cont->Some_0 is Listen <==> v2.tasks[id].cont->Some_0 is Listen,
        v.tasks[id].cont->Some_0 is Connection ==> later == (Progress { last: later.last, ..p }),
        later.start == p.start,
        later.listener == p.listener,
        later.accepted == p.accepted,
        later.echoed == p.echoed,
        later.calls >= p.calls,
        later.calls / 2 == later.accepted,
        later.accepted == CONNS_MAX ==> later.calls % 2 == 0,
        p.started ==> later.started,
        !later.started ==> later.calls == 0,
        v2.tasks[id].cont->Some_0.reads() >= v.tasks[id].cont->Some_0.reads(),
        v2.tasks[id].cont->Some_0.writes() >= v.tasks[id].cont->Some_0.writes(),
        m2.register == advance(m.register, (if later.started && !p.started {
            1nat
        } else {
            0nat
        })),
        m2.accept == advance(m.accept, (later.calls - p.calls) as nat),
        m2.unregister == m.unregister,
        m2.poll == m.poll,
        m2.read == advance(
            m.read,
            (v2.tasks[id].cont->Some_0.reads() - v.tasks[id].cont->Some_0.reads()) as nat,
        ),
        m2.write == advance(
            m.write,
            (v2.tasks[id].cont->Some_0.writes() - v.tasks[id].cont->Some_0.writes()) as nat,
        ),
    ensures
        server_counts(later, m2, v2),
        remaining(later, v2) + (later.calls - p.calls) + v.tasks[id].cont->Some_0.weight() == remaining(
            p,
            v,
        ) + v2.tasks[id].cont->Some_0.weight(),
{
    lemma_sum_change(v.tasks.dom(), weights_in(v), weights_in(v2), id);
    let closed = (p.accepted - conn_tasks(p, v)) as nat;
    let dr = (v2.tasks[id].cont->Some_0.reads() - v.tasks[id].cont->Some_0.reads()) as nat;
    let dw = (v2.tasks[id].cont->Some_0.writes() - v.tasks[id].cont->Some_0.writes()) as nat;
    assert(counted_ok(p, v, id));
    lemma_sum_change(v.tasks.dom(), reads_in(v), reads_in(v2), id);
    lemma_sum_change(v.tasks.dom(), writes_in(v), writes_in(v2), id);
    lemma_advance_add(p.start.read, 2 * closed + sum_over(v.tasks.dom(), reads_in(v)), dr);
    lemma_advance_add(p.start.write, 2 * closed + sum_over(v.tasks.dom(), writes_in(v)), dw);
    lemma_advance_add(p.start.accept, p.calls, (later.calls - p.calls) as nat);
    lemma_advance_add(p.start.register, p.accepted + (if p.started {
        1nat
    } else {
        0nat
    }), (if later.started && !p.started {
        1nat
    } else {
        0nat
    }));
    assert forall|t: usize| v2.contains(t) implies #[trigger] counted_ok(later, v2, t) by {
        if t != id {
            assert(counted_ok(p, v, t));
            assert(v2.tasks[t] == v.tasks[t]);
        }
    }
}

/// The counts are kept when the listening task has accepted a connection,
/// registered its stream and spawned a task for it.
pub proof fn lemma_counts_spawned<const N: usize>(
    p: Progress,
    later: Progress,
    m: StatsMetrics,
    m2: StatsMetrics,
    v: TasksView<ServerTask<N>>,
    v2: TasksView<ServerTask<N>>,
    id: usize,
    t_new: usize,
)
    requires
        server_counts(p, m, v),
        v.contains(id),
        p.listener == Some(id),
        p.started,
        p.calls % 2 == 1,
        p.accepted < CONNS_MAX,
        later == (Progress {
            accepted: p.accepted + 1,
            calls: p.calls + 1,
            last: later.last,
            ..p
        }),
        m2 == m.bump(StatsType::Accept).bump(StatsType::Register),
        !v.contains(t_new),
        v2.parks == v.parks,
        v2.tasks.dom() == v.tasks.dom().insert(t_new),
        forall|t: usize| t != id && v.contains(t) ==> #[trigger] v2.tasks[t] == v.tasks[t],
        counted_ok(later, v2, id),
        v2.tasks[id].cont->Some_0 is Listen,
        v2.tasks[t_new].cont matches Some(ServerTask::Connection(c)) && c.calls() == 0
            && !c.has_line(),
    ensures
        server_counts(later, m2, v2),
        remaining(later, v2) + 1 == remaining(p, v),
{
    let keys = v.tasks.dom();
    assert(counted_ok(p, v, id));
    lemma_sum_insert(keys, weights_in(v2), t_new);
    lemma_sum_same(keys, weights_in(v), weights_in(v2));
    lemma_sum_insert(keys, reads_in(v2), t_new);
    lemma_sum_insert(keys, writes_in(v2), t_new);
    lemma_sum_same(keys, reads_in(v), reads_in(v2));
    lemma_sum_same(keys, writes_in(v), writes_in(v2));
    lemma_advance_add(p.start.accept, p.calls, 1);
    lemma_advance_one(m.accept);
    lemma_advance_add(p.start.register, p.accepted + 1, 1);
    lemma_advance_one(m.register);
    assert forall|t: usize| v2.contains(t) implies #[trigger] counted_ok(later, v2, t) by {
        if t != id && t != t_new {
            assert(counted_ok(p, v, t));
            assert(v2.tasks[t] == v.tasks[t]);
        }
    }
}

/// The counts are kept when a task has given up its registration and left:
/// a connection that has sent its line, or the listening task when it has
/// accepted every connection.
pub proof fn lemma_counts_closed<const N: usize>(
    p: Progress,
    later: Progress,
    m: StatsMetrics,
    m2: StatsMetrics,
    v: TasksView<ServerTask<N>>,
    v2: TasksView<ServerTask<N>>,
    id: usize,
)
    requires
        server_counts(p, m, v),
        v.contains(id),
        m2 == m.bump(StatsType::Unregister),
        v2.parks == v.parks,
        v2.tasks.dom() == v.tasks.dom().remove(id),
        forall|t: usize| t != id && v.contains(t) ==> #[trigger] v2.tasks[t] == v.tasks[t],
        match v.tasks[id].cont->Some_0 {
            ServerTask::Listen(l) => p.accepted == CONNS_MAX && p.started && later == (Progress {
                listener: None,
                ..p
            }),
            ServerTask::Connection(c) => c.has_line() && c.sent >= c.buf_len && later == (Progress {
                last: later.last,
                echoed: p.echoed + 1,
                ..p
            }),
        },
    ensures
        server_counts(later, m2, v2),
        remaining(later, v2) == remaining(p, v),
{
    let keys = v.tasks.dom();
    let closed = (p.accepted - conn_tasks(p, v)) as nat;
    assert(counted_ok(p, v, id));
    lemma_sum_split(keys, weights_in(v), id);
    lemma_sum_same(v2.tasks.dom(), weights_in(v), weights_in(v2));
    lemma_sum_split(keys, reads_in(v), id);
    lemma_sum_split(keys, writes_in(v), id);
    lemma_sum_same(v2.tasks.dom(), reads_in(v), reads_in(v2));
    lemma_sum_same(v2.tasks.dom(), writes_in(v), writes_in(v2));
    if p.listener is Some && p.listener != Some(id) {
        assert(v2.tasks.dom().contains(p.listener->Some_0));
        assert(v2.tasks.dom().len() >= 1);
    }
    lemma_advance_add(p.start.unregister, closed + (if p.listener is None {
        1nat
    } else {
        0nat
    }), 1);
    lemma_advance_one(m.unregister);
    assert forall|t: usize| v2.contains(t) implies #[trigger] counted_ok(later, v2, t) by {
        assert(counted_ok(p, v, t));
        assert(v2.tasks[t] == v.tasks[t]);
    }
}

/// There are never more attempts to be made than the whole workload takes.
pub proof fn lemma_remaining_bound<const N: usize>(
    p: Progress,
    m: StatsMetrics,
    v: TasksView<ServerTask<N>>,
)
    requires
        server_counts(p, m, v),
    ensures
        2 * remaining(p, v) + 1 < STEPS_MAX,
{
    assert forall|t: usize| v.tasks.dom().contains(t) implies #[trigger] weights_in(v)(t) <= 4 by {
        assert(counted_ok(p, v, t));
    }
    lemma_sum_at_most(v.tasks.dom(), weights_in(v), 4);
}

/// While a task is left that has attempts to make, there are attempts to be
/// made.
pub proof fn lemma_remaining_positive<const N: usize>(
    p: Progress,
    m: StatsMetrics,
    v: TasksView<ServerTask<N>>,
    t: usize,
)
    requires
        server_counts(p, m, v),
        v.contains(t),
        match v.tasks[t].cont->Some_0 {
            ServerTask::Listen(l) => l.accepted < CONNS_MAX,
            ServerTask::Connection(c) => c.calls() <= 3,
        },
    ensures
        remaining(p, v) >= 1,
{
    assert(counted_ok(p, v, t));
    lemma_sum_split(v.tasks.dom(), weights_in(v), t);
}

} // verus!
