//! The sample workload: a listener that accepts connections, each of which
//! reads one line and echoes it back, run by hand and run by the scheduler.

use crate::arena::Arena;
use crate::count::{
    advance, lemma_advance_one, lemma_advance_small, lemma_sum_change, lemma_sum_empty, lemma_sum_insert, lemma_sum_same, lemma_sum_split,
    next_count, sum_over,
};
use crate::events::Events;
use crate::fakeio::{
    hello_line, reports_all, stems_from, Evented, FakeListener, FakeStream, Poll, StatsType, READABLE, WRITABLE,
};
use crate::list::List;
use vstd::prelude::*;

verus! {

/// How often each kind of I/O operation was made.
#[derive(Debug, Clone, Copy, PartialEq, Eq, Structural)]
pub struct StatsMetrics {
    pub register: u32,
    pub unregister: u32,
    pub poll: u32,
    pub accept: u32,
    pub read: u32,
    pub write: u32,
}

impl StatsMetrics {
    /// The metrics after one more operation of kind `t`.
    pub open spec fn bump(self, t: StatsType) -> StatsMetrics {
        match t {
            StatsType::Register => StatsMetrics { register: next_count(self.register), ..self },
            StatsType::Unregister => StatsMetrics {
                unregister: next_count(self.unregister),
                ..self
            },
            StatsType::Poll => StatsMetrics { poll: next_count(self.poll), ..self },
            StatsType::Accept => StatsMetrics { accept: next_count(self.accept), ..self },
            StatsType::Read => StatsMetrics { read: next_count(self.read), ..self },
            StatsType::Write => StatsMetrics { write: next_count(self.write), ..self },
        }
    }

    /// All counts at zero.
    pub fn new() -> (m: Self)
        ensures
            m == (StatsMetrics { register: 0, unregister: 0, poll: 0, accept: 0, read: 0, write: 0 }),
    {
        StatsMetrics { register: 0, unregister: 0, poll: 0, accept: 0, read: 0, write: 0 }
    }
}

/// The number of connections that the workload serves.
pub const CONNS_MAX: usize = 32;

/// The size of a connection's buffer, small.
pub const SMALL_BUFSIZE: usize = 128;

/// The size of a connection's buffer, large.
pub const LARGE_BUFSIZE: usize = 16_384;

/// The polls that the workload takes: one before each of the `CONNS_MAX`
/// connections is accepted, and two more until the last of them has read
/// its line and sent it back.
pub const POLLS: usize = CONNS_MAX + 2;

/// More steps than the scheduler takes on the workload, resumes and parks
/// together.
pub const STEPS_MAX: usize = 400;

/// The counter that the workload runs with.
#[derive(Debug)]
pub struct Stats {
    metrics: StatsMetrics,
}

impl Stats {
    /// A counter at zero.
    pub fn new() -> (s: Self)
        ensures
            crate::fakeio::Stats::metrics(&s) == (StatsMetrics {
                register: 0,
                unregister: 0,
                poll: 0,
                accept: 0,
                read: 0,
                write: 0,
            }),
    {
        Stats { metrics: StatsMetrics::new() }
    }

    /// The counts so far.
    pub fn get(&self) -> (m: StatsMetrics)
        ensures
            m == crate::fakeio::Stats::metrics(self),
    {
        self.metrics
    }
}

/// One more than `n`, starting again at zero after the largest value.
pub fn counted(n: u32) -> (m: u32)
    ensures
        m == next_count(n),
{
    if n == u32::MAX {
        0
    } else {
        n + 1
    }
}

impl crate::fakeio::Stats for Stats {
    closed spec fn metrics(&self) -> StatsMetrics {
        self.metrics
    }

    fn inc(&mut self, t: StatsType) {
        match t {
            StatsType::Register => self.metrics.register = counted(self.metrics.register),
            StatsType::Unregister => self.metrics.unregister = counted(self.metrics.unregister),
            StatsType::Poll => self.metrics.poll = counted(self.metrics.poll),
            StatsType::Accept => self.metrics.accept = counted(self.metrics.accept),
            StatsType::Read => self.metrics.read = counted(self.metrics.read),
            StatsType::Write => self.metrics.write = counted(self.metrics.write),
        }
    }
}

/// Whether the first `len` bytes of `buf` hold a newline.
pub fn has_newline(buf: &Vec<u8>, len: usize) -> (b: bool)
    requires
        len <= buf@.len(),
    ensures
        b == buf@.subrange(0, len as int).contains(10u8),
{
    let mut i: usize = 0;
    while i < len
        invariant
            0 <= i <= len <= buf@.len(),
            forall|j: int| 0 <= j < i ==> buf@[j] != 10u8,
        decreases len - i,
    {
        if buf[i] == 10u8 {
            assert(buf@.subrange(0, len as int)[i as int] == 10u8);
            return true;
        }
        i = i + 1;
    }
    false
}

/// A buffer of `size` zero bytes.
pub fn zeroed(size: usize) -> (buf: Vec<u8>)
    ensures
        buf@.len() == size,
        forall|i: int| 0 <= i < size ==> buf@[i] == 0u8,
{
    let mut buf: Vec<u8> = Vec::new();
    let mut i: usize = 0;
    while i < size
        invariant
            0 <= i <= size,
            buf@.len() == i,
            forall|j: int| 0 <= j < i ==> buf@[j] == 0u8,
        decreases size - i,
    {
        buf.push(0u8);
        i = i + 1;
    }
    buf
}

/// Where a connection stands.
#[derive(Debug, Clone, Copy, PartialEq, Eq, Structural)]
pub enum ConnectionState {
    ReceivingRequest,
    SendingResponse,
}

/// A connection that is run by hand: it receives until it has a whole line
/// and then sends the line back.
#[derive(Debug)]
pub struct Connection {
    pub stream: FakeStream,
    pub can_read: bool,
    pub can_write: bool,
    pub state: ConnectionState,
    pub buf: Vec<u8>,
    pub buf_len: usize,
    pub sent: usize,
}

impl Connection {
    /// A connection receives into an empty buffer with room for the line;
    /// when it sends, it has the line and has not sent it all.
    pub open spec fn wf(&self) -> bool {
        match self.state {
            ConnectionState::ReceivingRequest => self.buf_len == 0 && self.sent == 0
                && hello_line().len() <= self.buf@.len(),
            ConnectionState::SendingResponse => self.sent < self.buf_len <= self.buf@.len()
                && self.buf@.subrange(0, self.buf_len as int).contains(10u8),
        }
    }

    /// A connection on `stream` that has received nothing yet.
    pub fn new(stream: FakeStream, size: usize) -> (c: Self)
        requires
            hello_line().len() <= size,
        ensures
            c.wf(),
            c.stream == stream,
            c.state == ConnectionState::ReceivingRequest,
            c.can_read && c.can_write,
    {
        Connection {
            stream,
            can_read: true,
            can_write: true,
            state: ConnectionState::ReceivingRequest,
            buf: zeroed(size),
            buf_len: 0,
            sent: 0,
        }
    }

    /// Drives the connection as far as it goes without blocking, and says
    /// whether it has sent its whole response.
    ///
    /// Receiving, an attempt that blocks ends the call; one that succeeds
    /// brings the whole line and the connection goes on to send. Sending, an
    /// attempt that blocks ends the call; one that succeeds sends all that
    /// is left, and the connection is done.
    pub fn process<S: crate::fakeio::Stats>(&mut self, stats: &mut S) -> (done: bool)
        requires
            old(self).wf(),
        ensures
            final(self).stream.poll_index == old(self).stream.poll_index,
            !done ==> final(self).wf(),
            ({
                let blocks = old(self).stream.will_block();
                let counts = old(stats).metrics();
                match old(self).state {
                    ConnectionState::ReceivingRequest => if blocks {
                        &&& !done
                        &&& final(self).state == ConnectionState::ReceivingRequest
                        &&& final(self).stream == old(self).stream.attempted()
                        &&& !final(self).can_read
                        &&& final(self).can_write == old(self).can_write
                        &&& final(self).buf@ == old(self).buf@
                        &&& final(self).buf_len == 0
                        &&& final(self).sent == 0
                        &&& final(stats).metrics() == counts.bump(StatsType::Read)
                    } else {
                        &&& !done
                        &&& final(self).state == ConnectionState::SendingResponse
                        &&& final(self).stream == old(self).stream.attempted().attempted()
                        &&& final(self).can_read == old(self).can_read
                        &&& !final(self).can_write
                        &&& final(self).buf_len == hello_line().len()
                        &&& final(self).sent == 0
                        &&& final(self).buf@ == hello_line() + old(self).buf@.subrange(
                            hello_line().len() as int,
                            old(self).buf@.len() as int,
                        )
                        &&& final(stats).metrics() == counts.bump(StatsType::Read).bump(
                            StatsType::Write,
                        )
                    },
                    ConnectionState::SendingResponse => {
                        &&& done == !blocks
                        &&& final(self).state == ConnectionState::SendingResponse
                        &&& final(self).stream == old(self).stream.attempted()
                        &&& final(self).buf@ == old(self).buf@
                        &&& final(self).buf_len == old(self).buf_len
                        &&& final(self).can_read == old(self).can_read
                        &&& blocks ==> !final(self).can_write && final(self).sent == old(self).sent
                        &&& !blocks ==> final(self).can_write == old(self).can_write
                            && final(self).sent == final(self).buf_len
                        &&& final(stats).metrics() == counts.bump(StatsType::Write)
                    },
                }
            }),
    {
        let ghost received = false;
        loop
            invariant
                self.wf(),
                self.stream.poll_index == old(self).stream.poll_index,
                !received ==> *self == *old(self) && stats.metrics() == old(stats).metrics(),
                received ==> {
                    &&& old(self).state == ConnectionState::ReceivingRequest
                    &&& !old(self).stream.will_block()
                    &&& self.state == ConnectionState::SendingResponse
                    &&& self.stream == old(self).stream.attempted()
                    &&& self.stream.will_block()
                    &&& self.buf_len == hello_line().len()
                    &&& self.sent == 0
                    &&& self.can_read == old(self).can_read
                    &&& self.can_write == old(self).can_write
                    &&& self.buf@ == hello_line() + old(self).buf@.subrange(
                        hello_line().len() as int,
                        old(self).buf@.len() as int,
                    )
                    &&& stats.metrics() == old(stats).metrics().bump(StatsType::Read)
                },
            decreases
                    (if self.state == ConnectionState::ReceivingRequest {
                        2int
                    } else {
                        1int
                    }),
        {
            match self.state {
                ConnectionState::ReceivingRequest => {
                    let size = match self.stream.read(&mut self.buf, self.buf_len, stats) {
                        Ok(size) => size,
                        Err(_) => {
                            self.can_read = false;
                            return false;
                        },
                    };
                    self.buf_len = self.buf_len + size;
                    proof {
                        assert(self.buf@.subrange(0, self.buf_len as int) =~= hello_line());
                        assert(hello_line()[11] == 10u8);
                        assert(self.buf@ =~= hello_line() + old(self).buf@.subrange(
                            hello_line().len() as int,
                            old(self).buf@.len() as int,
                        ));
                    }
                    if has_newline(&self.buf, self.buf_len) {
                        self.state = ConnectionState::SendingResponse;
                    }
                    proof {
                        received = true;
                    }
                },
                ConnectionState::SendingResponse => {
                    let size = match self.stream.write(self.buf_len - self.sent, stats) {
                        Ok(size) => size,
                        Err(_) => {
                            self.can_write = false;
                            return false;
                        },
                    };
                    self.sent = self.sent + size;
                    if self.sent >= self.buf_len {
                        return true;
                    }
                },
            }
        }
    }
}

impl Connection {
    /// Between calls of `process` a connection has made no attempt or one
    /// while it receives, and three when it sends: two reads and a write.
    pub open spec fn on_track(&self) -> bool {
        match self.state {
            ConnectionState::ReceivingRequest => self.stream.calls <= 1,
            ConnectionState::SendingResponse => self.stream.calls == 3,
        }
    }

    /// How many reads a connection on track has attempted.
    pub open spec fn reads(&self) -> nat {
        match self.state {
            ConnectionState::ReceivingRequest => self.stream.calls as nat,
            ConnectionState::SendingResponse => 2,
        }
    }

    /// How many writes a connection on track has attempted.
    pub open spec fn writes(&self) -> nat {
        match self.state {
            ConnectionState::ReceivingRequest => 0,
            ConnectionState::SendingResponse => 1,
        }
    }
}

/// The reads of each open connection.
pub open spec fn reads_in(conns: Map<usize, Connection>) -> spec_fn(usize) -> nat {
    |k: usize| conns[k].reads()
}

/// The writes of each open connection.
pub open spec fn writes_in(conns: Map<usize, Connection>) -> spec_fn(usize) -> nat {
    |k: usize| conns[k].writes()
}

/// The workload run by hand: one loop that accepts, drives the connections
/// that may make progress, and polls when none can.
pub struct RunManual {
    poll: Poll,
    events: Events,
    conns: Arena<Connection>,
    accepted: Ghost<nat>,
    echoed: Ghost<nat>,
}

/// What the hand-run loop keeps: every connection has its entry in the
/// readiness source, under its key plus one, and every entry but the
/// listener's, which has the key zero, belongs to a connection.
pub open spec fn manual_inv(
    items: Map<usize, (u8, usize)>,
    conns: Map<usize, Connection>,
    listener: FakeListener,
) -> bool {
    &&& listener.poll_index matches Some(at) && items.dom().contains(at) && items[at].1 == 0
    &&& forall|k: usize| #[trigger]
        conns.dom().contains(k) ==> conns[k].wf() && conns[k].on_track() && (
        conns[k].stream.poll_index matches Some(at) && items.dom().contains(at) && items[at].1 == k
            + 1 && items[at].0 == READABLE | WRITABLE)
    &&& forall|at: usize| #[trigger]
        items.dom().contains(at) ==> if items[at].1 == 0 {
            listener.poll_index == Some(at)
        } else {
            conns.dom().contains((items[at].1 - 1) as usize) && conns[(items[at].1
                - 1) as usize].stream.poll_index == Some(at)
        }
}

/// The hand-run invariant is kept when the connection under `key` and its
/// entry in the readiness source come, change or go together, and every
/// other connection and entry stays as it is.
proof fn lemma_manual_kept(
    items: Map<usize, (u8, usize)>,
    items2: Map<usize, (u8, usize)>,
    conns: Map<usize, Connection>,
    conns2: Map<usize, Connection>,
    listener: FakeListener,
    key: usize,
)
    requires
        manual_inv(items, conns, listener),
        key < usize::MAX,
        forall|k: usize|
            k != key ==> (conns2.dom().contains(k) <==> conns.dom().contains(k)) && (
            conns.dom().contains(k) ==> #[trigger] conns2[k] == conns[k]),
        forall|at: usize|
            items.dom().contains(at) && items[at].1 != key + 1 ==> items2.dom().contains(at)
                && #[trigger] items2[at] == items[at],
        forall|at: usize| #[trigger]
            items2.dom().contains(at) ==> (items.dom().contains(at) && items[at].1 != key + 1
                && items2[at] == items[at]) || (items2[at].1 == key + 1 && conns2.dom().contains(
                key,
            ) && conns2[key].stream.poll_index == Some(at)),
        conns2.dom().contains(key) ==> conns2[key].wf() && conns2[key].on_track() && (
        conns2[key].stream.poll_index matches Some(at) && items2.dom().contains(at) && items2[at].1
            == key + 1 && items2[at].0 == READABLE | WRITABLE),
    ensures
        manual_inv(items2, conns2, listener),
{
    assert forall|k: usize| #[trigger] conns2.dom().contains(k) implies conns2[k].wf()
        && conns2[k].on_track() && (conns2[k].stream.poll_index matches Some(at)
        && items2.dom().contains(at) && items2[at].1 == k + 1 && items2[at].0 == READABLE
        | WRITABLE) by {
        if k != key {
            assert(conns.dom().contains(k));
            assert(conns2[k] == conns[k]);
            let at = conns[k].stream.poll_index->Some_0;
            assert(items.dom().contains(at));
            assert(items2[at] == items[at]);
        }
    }
    let at = listener.poll_index->Some_0;
    assert(items.dom().contains(at));
    assert(items2[at] == items[at]);
    assert forall|at: usize| #[trigger] items2.dom().contains(at) implies if items2[at].1 == 0 {
        listener.poll_index == Some(at)
    } else {
        conns2.dom().contains((items2[at].1 - 1) as usize) && conns2[(items2[at].1
            - 1) as usize].stream.poll_index == Some(at)
    } by {
        if items2[at].1 != key + 1 {
            assert(items.dom().contains(at));
            let k = (items[at].1 - 1) as usize;
            if items[at].1 != 0 {
                assert(conns.dom().contains(k));
                assert(conns2[k] == conns[k]);
            }
        }
    }
}

/// How many polls a connection still needs: one before each of the calls
/// of `process` that it takes, but the one it is queued for. It takes three
/// calls when nothing was attempted on it, two after its read has blocked,
/// and one when it sends.
pub open spec fn conn_polls(c: Connection, queued: bool) -> int {
    (match c.state {
        ConnectionState::ReceivingRequest => if c.stream.calls == 0 {
            3int
        } else {
            2int
        },
        ConnectionState::SendingResponse => 1int,
    }) - (if queued {
        1int
    } else {
        0int
    })
}

/// How many polls are still needed on account of the listener: one before
/// each connection that is not accepted, and two more for the last.
pub open spec fn listener_polls(calls: nat, accept_left: nat, can_accept: bool) -> int {
    if calls % 2 == 1 {
        accept_left + 2 - (if can_accept {
            1int
        } else {
            0int
        })
    } else {
        accept_left + 2int
    }
}

/// The hand-run loop keeps pace: with the polls that the listener still
/// needs, exactly `POLLS` are made; no connection needs more; and when all
/// are accepted, the last of them needs exactly the polls that are left, or
/// it is closed and all polls were made.
pub open spec fn manual_pace(
    polls: int,
    accept_left: nat,
    calls: nat,
    can_accept: bool,
    conns: Map<usize, Connection>,
    queue: Seq<usize>,
    last: Option<usize>,
) -> bool {
    &&& accept_left > 0 ==> polls + listener_polls(calls, accept_left, can_accept) == POLLS && (
    !can_accept ==> calls % 2 == 1) && (calls % 2 == 0 ==> can_accept)
    &&& forall|k: usize| #[trigger]
        conns.dom().contains(k) ==> polls + conn_polls(conns[k], queue.contains(k)) <= POLLS && (
        conns[k].stream.calls == 0 ==> queue.contains(k))
    &&& accept_left == 0 ==> match last {
        Some(y) => conns.dom().contains(y) && polls + conn_polls(conns[y], queue.contains(y))
            == POLLS,
        None => polls == POLLS,
    }
}

/// The pace is kept when a connection is accepted and queued.
proof fn lemma_pace_accepted(
    polls: int,
    accept_left: nat,
    calls: nat,
    conns: Map<usize, Connection>,
    conns2: Map<usize, Connection>,
    queue: Seq<usize>,
    queue2: Seq<usize>,
    last: Option<usize>,
    key: usize,
)
    requires
        manual_pace(polls, accept_left, calls, true, conns, queue, last),
        accept_left > 0,
        calls % 2 == 1,
        !conns.dom().contains(key),
        conns2.dom() == conns.dom().insert(key),
        forall|k: usize| conns.dom().contains(k) ==> #[trigger] conns2[k] == conns[k],
        conns2[key].state == ConnectionState::ReceivingRequest,
        conns2[key].stream.calls == 0,
        forall|k: usize| #[trigger] queue2.contains(k) <==> queue.contains(k) || k == key,
    ensures
        manual_pace(
            polls,
            (accept_left - 1) as nat,
            calls + 1,
            true,
            conns2,
            queue2,
            if accept_left == 1 {
            Some(key)
            } else {
            last
            },
        ),
{
    assert forall|k: usize| #[trigger] conns2.dom().contains(k) implies polls + conn_polls(
        conns2[k],
        queue2.contains(k),
    ) <= POLLS && (conns2[k].stream.calls == 0 ==> queue2.contains(k)) by {
        if k != key {
            assert(conns.dom().contains(k));
            assert(conns2[k] == conns[k]);
        }
    }
}

/// The pace is kept when a queued connection is driven and stays open.
proof fn lemma_pace_driven(
    polls: int,
    accept_left: nat,
    calls: nat,
    can_accept: bool,
    conns: Map<usize, Connection>,
    conns2: Map<usize, Connection>,
    queue: Seq<usize>,
    queue2: Seq<usize>,
    last: Option<usize>,
    key: usize,
)
    requires
        manual_pace(polls, accept_left, calls, can_accept, conns, queue, last),
        conns.dom().contains(key),
        queue.contains(key),
        conns[key].state == ConnectionState::ReceivingRequest,
        conns[key].on_track(),
        conns2.dom() == conns.dom(),
        forall|k: usize| conns.dom().contains(k) && k != key ==> #[trigger] conns2[k] == conns[k],
        forall|k: usize| #[trigger] queue2.contains(k) <==> queue.contains(k) && k != key,
        if conns[key].stream.will_block() {
            &&& conns2[key].state == ConnectionState::ReceivingRequest
            &&& conns2[key].stream == conns[key].stream.attempted()
        } else {
            &&& conns2[key].state == ConnectionState::SendingResponse
            &&& conns2[key].stream == conns[key].stream.attempted().attempted()
        },
    ensures
        manual_pace(polls, accept_left, calls, can_accept, conns2, queue2, last),
{
    assert forall|k: usize| #[trigger] conns2.dom().contains(k) implies polls + conn_polls(
        conns2[k],
        queue2.contains(k),
    ) <= POLLS && (conns2[k].stream.calls == 0 ==> queue2.contains(k)) by {
        assert(conns.dom().contains(k));
        if k != key {
            assert(conns2[k] == conns[k]);
        }
    }
}

/// The pace is kept when a queued connection sends its response and is
/// closed.
proof fn lemma_pace_closed(
    polls: int,
    accept_left: nat,
    calls: nat,
    can_accept: bool,
    conns: Map<usize, Connection>,
    conns2: Map<usize, Connection>,
    queue: Seq<usize>,
    queue2: Seq<usize>,
    last: Option<usize>,
    key: usize,
)
    requires
        manual_pace(polls, accept_left, calls, can_accept, conns, queue, last),
        conns.dom().contains(key),
        queue.contains(key),
        conns[key].state == ConnectionState::SendingResponse,
        conns2.dom() == conns.dom().remove(key),
        forall|k: usize| conns.dom().contains(k) && k != key ==> #[trigger] conns2[k] == conns[k],
        forall|k: usize| #[trigger] queue2.contains(k) <==> queue.contains(k) && k != key,
    ensures
        manual_pace(polls, accept_left, calls, can_accept, conns2, queue2, if last == Some(key) {
            None
        } else {
            last
        }),
{
    assert forall|k: usize| #[trigger] conns2.dom().contains(k) implies polls + conn_polls(
        conns2[k],
        queue2.contains(k),
    ) <= POLLS && (conns2[k].stream.calls == 0 ==> queue2.contains(k)) by {
        assert(conns.dom().contains(k));
        assert(conns2[k] == conns[k]);
    }
    if accept_left == 0 && last is Some && last != Some(key) {
        assert(conns.dom().contains(last->Some_0));
        assert(conns2[last->Some_0] == conns[last->Some_0]);
    }
}

/// The pace is kept when connections change in what the pace does not
/// depend on.
proof fn lemma_pace_same(
    polls: int,
    accept_left: nat,
    calls: nat,
    can_accept: bool,
    conns: Map<usize, Connection>,
    conns2: Map<usize, Connection>,
    queue: Seq<usize>,
    last: Option<usize>,
)
    requires
        manual_pace(polls, accept_left, calls, can_accept, conns, queue, last),
        conns2.dom() == conns.dom(),
        forall|k: usize|
            conns.dom().contains(k) ==> (#[trigger] conns2[k]).state == conns[k].state
                && conns2[k].stream == conns[k].stream,
    ensures
        manual_pace(polls, accept_left, calls, can_accept, conns2, queue, last),
{
    assert forall|k: usize| #[trigger] conns2.dom().contains(k) implies polls + conn_polls(
        conns2[k],
        queue.contains(k),
    ) <= POLLS && (conns2[k].stream.calls == 0 ==> queue.contains(k)) by {
        assert(conns.dom().contains(k));
        assert(conns2[k].state == conns[k].state);
    }
    if accept_left == 0 && last is Some {
        assert(conns.dom().contains(last->Some_0));
        assert(conns2[last->Some_0].state == conns[last->Some_0].state);
    }
}

/// The pace is kept by a poll: it wakes the listener and queues every
/// connection, and one poll more is made.
proof fn lemma_pace_polled(
    polls: int,
    accept_left: nat,
    calls: nat,
    can_accept: bool,
    conns: Map<usize, Connection>,
    queue: Seq<usize>,
    last: Option<usize>,
    open: usize,
)
    requires
        manual_pace(polls - 1, accept_left, calls, false, conns, Seq::<usize>::empty(), last),
        accept_left > 0 ==> can_accept,
        accept_left == 0 ==> conns.dom().contains(open),
        forall|k: usize| conns.dom().contains(k) ==> #[trigger] queue.contains(k),
    ensures
        manual_pace(polls, accept_left, calls, can_accept, conns, queue, last),
{
    assert forall|k: usize| #[trigger] conns.dom().contains(k) implies polls + conn_polls(
        conns[k],
        queue.contains(k),
    ) <= POLLS && (conns[k].stream.calls == 0 ==> queue.contains(k)) by {
        assert(queue.contains(k));
    }
    if accept_left == 0 {
        assert(queue.contains(open));
        if last is Some {
            assert(queue.contains(last->Some_0));
        }
    }
}

/// What the hand-run loop has counted, from the counts `b` it began with:
/// one registration for the listener and one for each accepted connection;
/// one unregistration and two reads and writes for each connection that was
/// closed, and the attempts of those that are open; every attempt to
/// accept, two for each connection; and every poll.
pub open spec fn manual_counts(
    b: StatsMetrics,
    m: StatsMetrics,
    accept_left: nat,
    calls: nat,
    conns: Map<usize, Connection>,
    polls: nat,
) -> bool {
    let accepted = (CONNS_MAX - accept_left) as nat;
    let closed = (accepted - conns.dom().len()) as nat;
    &&& accept_left <= CONNS_MAX
    &&& conns.dom().finite()
    &&& conns.dom().len() <= accepted
    &&& calls / 2 == accepted
    &&& accept_left == 0 ==> calls % 2 == 0
    &&& m.register == advance(b.register, 1 + accepted)
    &&& m.unregister == advance(b.unregister, closed)
    &&& m.accept == advance(b.accept, calls)
    &&& m.read == advance(b.read, 2 * closed + sum_over(conns.dom(), reads_in(conns)))
    &&& m.write == advance(b.write, 2 * closed + sum_over(conns.dom(), writes_in(conns)))
    &&& m.poll == advance(b.poll, polls)
}

/// The counts of a workload that was served to the end, from the counts `b`
/// it began with: 33 registrations and as many unregistrations, 34 polls,
/// and 64 attempts each to accept, to read and to write.
pub open spec fn served(b: StatsMetrics, m: StatsMetrics) -> bool {
    &&& m.poll == advance(b.poll, POLLS as nat)
    &&& m.register == advance(b.register, CONNS_MAX as nat + 1)
    &&& m.unregister == advance(b.unregister, CONNS_MAX as nat + 1)
    &&& m.accept == advance(b.accept, 2 * CONNS_MAX as nat)
    &&& m.read == advance(b.read, 2 * CONNS_MAX as nat)
    &&& m.write == advance(b.write, 2 * CONNS_MAX as nat)
}

/// The counts are kept when a connection changes in what is not counted.
proof fn lemma_counts_same(
    b: StatsMetrics,
    m: StatsMetrics,
    accept_left: nat,
    calls: nat,
    conns: Map<usize, Connection>,
    conns2: Map<usize, Connection>,
    polls: nat,
)
    requires
        manual_counts(b, m, accept_left, calls, conns, polls),
        conns2.dom() == conns.dom(),
        forall|k: usize|
            conns.dom().contains(k) ==> (#[trigger] conns2[k]).reads() == conns[k].reads()
                && conns2[k].writes() == conns[k].writes(),
    ensures
        manual_counts(b, m, accept_left, calls, conns2, polls),
{
    lemma_sum_same(conns.dom(), reads_in(conns), reads_in(conns2));
    lemma_sum_same(conns.dom(), writes_in(conns), writes_in(conns2));
}

/// The counts are kept when a connection is accepted and registered.
proof fn lemma_counts_accepted(
    b: StatsMetrics,
    m: StatsMetrics,
    accept_left: nat,
    calls: nat,
    conns: Map<usize, Connection>,
    conns2: Map<usize, Connection>,
    polls: nat,
    key: usize,
)
    requires
        manual_counts(b, m, accept_left, calls, conns, polls),
        accept_left > 0,
        calls % 2 == 1,
        !conns.dom().contains(key),
        conns2.dom() == conns.dom().insert(key),
        forall|k: usize| conns.dom().contains(k) ==> #[trigger] conns2[k] == conns[k],
        conns2[key].state == ConnectionState::ReceivingRequest,
        conns2[key].stream.calls == 0,
    ensures
        manual_counts(
            b,
            m.bump(StatsType::Accept).bump(StatsType::Register),
            (accept_left - 1) as nat,
            calls + 1,
            conns2,
            polls,
        ),
{
    lemma_sum_insert(conns.dom(), reads_in(conns2), key);
    lemma_sum_insert(conns.dom(), writes_in(conns2), key);
    lemma_sum_same(conns.dom(), reads_in(conns), reads_in(conns2));
    lemma_sum_same(conns.dom(), writes_in(conns), writes_in(conns2));
}

/// The counts are kept when a connection is driven and stays open.
proof fn lemma_counts_driven(
    b: StatsMetrics,
    m: StatsMetrics,
    m2: StatsMetrics,
    accept_left: nat,
    calls: nat,
    conns: Map<usize, Connection>,
    conns2: Map<usize, Connection>,
    polls: nat,
    key: usize,
)
    requires
        manual_counts(b, m, accept_left, calls, conns, polls),
        conns.dom().contains(key),
        conns[key].state == ConnectionState::ReceivingRequest,
        conns[key].on_track(),
        conns2.dom() == conns.dom(),
        forall|k: usize| conns.dom().contains(k) && k != key ==> #[trigger] conns2[k] == conns[k],
        if conns[key].stream.will_block() {
            &&& conns2[key].state == ConnectionState::ReceivingRequest
            &&& conns2[key].stream == conns[key].stream.attempted()
            &&& m2 == m.bump(StatsType::Read)
        } else {
            &&& conns2[key].state == ConnectionState::SendingResponse
            &&& conns2[key].stream == conns[key].stream.attempted().attempted()
            &&& m2 == m.bump(StatsType::Read).bump(StatsType::Write)
        },
    ensures
        manual_counts(b, m2, accept_left, calls, conns2, polls),
        conns2[key].on_track(),
{
    lemma_sum_change(conns.dom(), reads_in(conns), reads_in(conns2), key);
    lemma_sum_change(conns.dom(), writes_in(conns), writes_in(conns2), key);
}

/// The counts are kept when a connection sends its response and is closed.
proof fn lemma_counts_closed(
    b: StatsMetrics,
    m: StatsMetrics,
    accept_left: nat,
    calls: nat,
    conns: Map<usize, Connection>,
    conns2: Map<usize, Connection>,
    polls: nat,
    key: usize,
)
    requires
        manual_counts(b, m, accept_left, calls, conns, polls),
        conns.dom().contains(key),
        conns[key].state == ConnectionState::SendingResponse,
        conns2.dom() == conns.dom().remove(key),
        forall|k: usize| conns.dom().contains(k) && k != key ==> #[trigger] conns2[k] == conns[k],
    ensures
        manual_counts(
            b,
            m.bump(StatsType::Write).bump(StatsType::Unregister),
            accept_left,
            calls,
            conns2,
            polls,
        ),
{
    lemma_sum_split(conns.dom(), reads_in(conns), key);
    lemma_sum_split(conns.dom(), writes_in(conns), key);
    lemma_sum_same(conns2.dom(), reads_in(conns), reads_in(conns2));
    lemma_sum_same(conns2.dom(), writes_in(conns), writes_in(conns2));
}

impl RunManual {
    /// Between runs nothing is registered and no connection is open.
    pub closed spec fn wf(&self) -> bool {
        &&& self.poll.wf()
        &&& self.conns.wf()
        &&& self.conns.limit() == CONNS_MAX
        &&& self.poll.items() == Map::<usize, (u8, usize)>::empty()
        &&& self.conns@ == Map::<usize, Connection>::empty()
        &&& self.conns.links() == Map::<usize, crate::arena::Link>::empty()
    }

    /// How many connections were accepted, over all runs.
    pub closed spec fn accepted(&self) -> nat {
        self.accepted@
    }

    /// How many connections have received their line, sent all of it back
    /// and were closed, over all runs.
    pub closed spec fn echoed(&self) -> nat {
        self.echoed@
    }

    /// The workload's state before its first run.
    pub fn new() -> (r: Self)
        ensures
            r.wf(),
            r.accepted() == 0,
            r.echoed() == 0,
    {
        RunManual {
            poll: Poll::new(CONNS_MAX + 1),
            events: Events::new(CONNS_MAX + 1),
            conns: Arena::new(CONNS_MAX),
            accepted: Ghost(0),
            echoed: Ghost(0),
        }
    }

    /// Serves the connections: accepts while the listener does not block,
    /// drives every connection that was marked, and polls once when there is
    /// still work but none to do now. It ends when all connections were
    /// accepted and served, or when `budget` polls were made, and says
    /// whether all were served. Then everything is unregistered again, every
    /// connection has received its line and sent it back, and the counts are
    /// those of a workload served to the end, `POLLS` polls among them. A
    /// budget of `POLLS` polls is enough, and no smaller one is.
    pub fn run<S: crate::fakeio::Stats>(&mut self, stats: &mut S, budget: usize) -> (finished: bool)
        requires
            old(self).wf(),
        ensures
            finished ==> final(self).wf() && served(
                old(stats).metrics(),
                final(stats).metrics(),
            ),
            finished ==> final(self).accepted() == old(self).accepted() + CONNS_MAX,
            finished ==> final(self).echoed() == old(self).echoed() + CONNS_MAX,
            !finished ==> final(stats).metrics().poll == advance(
                old(stats).metrics().poll,
                budget as nat,
            ),
            finished <==> budget >= POLLS,
    {
        let ghost b = stats.metrics();
        let mut needs_process = List::new();
        let mut listener = FakeListener::new();
        self.poll.register(&mut listener, 0, READABLE, stats);
        let mut can_accept = true;
        let mut accept_left: usize = CONNS_MAX;
        let mut left = budget;
        let ghost mut last: Option<usize> = None;
        proof {
            assert(self.poll.items().dom() =~= set![listener.poll_index->Some_0]);
            lemma_sum_empty(reads_in(self.conns@));
            lemma_sum_empty(writes_in(self.conns@));
            assert(self.conns@.dom() =~= Set::<usize>::empty());
            lemma_advance_one(b.register);
            lemma_advance_one(b.unregister);
            lemma_advance_one(b.accept);
            lemma_advance_one(b.read);
            lemma_advance_one(b.write);
            lemma_advance_one(b.poll);
        }
        loop
            invariant
                b == old(stats).metrics(),
                self.poll.wf(),
                self.conns.wf(),
                needs_process.wf(self.conns.links()),
                self.conns.limit() == CONNS_MAX,
                manual_inv(self.poll.items(), self.conns@, listener),
                self.poll.items().dom().len() == self.conns@.dom().len() + 1,
                self.conns@.dom().len() + accept_left <= CONNS_MAX,
                left <= budget,
                self.accepted() == old(self).accepted() + (CONNS_MAX - accept_left),
                self.echoed() - old(self).echoed() + self.conns@.dom().len() == self.accepted()
                    - old(self).accepted(),
                manual_pace(
                    budget - left,
                    accept_left as nat,
                    listener.calls as nat,
                    can_accept,
                    self.conns@,
                    needs_process@,
                    last,
                ),
                manual_counts(
                    b,
                    stats.metrics(),
                    accept_left as nat,
                    listener.calls as nat,
                    self.conns@,
                    (budget - left) as nat,
                ),
            ensures
                self.poll.wf(),
                self.conns.wf(),
                self.conns.limit() == CONNS_MAX,
                manual_inv(self.poll.items(), self.conns@, listener),
                self.poll.items().dom().len() == 1,
                self.conns@ == Map::<usize, Connection>::empty(),
                self.conns.links() == Map::<usize, crate::arena::Link>::empty(),
                accept_left == 0,
                left <= budget,
                self.accepted() == old(self).accepted() + (CONNS_MAX - accept_left),
                self.echoed() - old(self).echoed() + self.conns@.dom().len() == self.accepted()
                    - old(self).accepted(),
                budget - left == POLLS,
                manual_counts(
                    b,
                    stats.metrics(),
                    accept_left as nat,
                    listener.calls as nat,
                    self.conns@,
                    (budget - left) as nat,
                ),
            decreases left,
        {
            while accept_left > 0 && can_accept
                invariant
                    self.poll.wf(),
                    self.conns.wf(),
                    needs_process.wf(self.conns.links()),
                    self.conns.limit() == CONNS_MAX,
                    manual_inv(self.poll.items(), self.conns@, listener),
                    self.poll.items().dom().len() == self.conns@.dom().len() + 1,
                    self.conns@.dom().len() + accept_left <= CONNS_MAX,
                    left <= budget,
                    self.accepted() == old(self).accepted() + (CONNS_MAX - accept_left),
                    self.echoed() - old(self).echoed() + self.conns@.dom().len() == self.accepted()
                        - old(self).accepted(),
                    manual_pace(
                        budget - left,
                        accept_left as nat,
                        listener.calls as nat,
                        can_accept,
                        self.conns@,
                        needs_process@,
                        last,
                    ),
                    manual_counts(
                        b,
                        stats.metrics(),
                        accept_left as nat,
                        listener.calls as nat,
                        self.conns@,
                        (budget - left) as nat,
                    ),
                decreases
                        accept_left,
                        (if can_accept {
                            1int
                        } else {
                            0int
                        }),
            {
                let ghost m = stats.metrics();
                let ghost calls = listener.calls;
                match listener.accept(stats) {
                    Ok(stream) => {
                        let ghost items = self.poll.items();
                        let ghost conns = self.conns@;
                        let ghost links = self.conns.links();
                        let ghost queue = needs_process@;
                        proof {
                            self.conns.lemma_bounded();
                            self.poll.lemma_bounded();
                            self.conns.lemma_same_keys();
                        }
                        let key = match self.conns.insert(Connection::new(stream, SMALL_BUFSIZE)) {
                            Ok(key) => key,
                            Err(_) => vstd::pervasive::unreached(),
                        };
                        proof {
                            self.conns.lemma_key_bound(key);
                            if needs_process@.contains(key) {
                                let i = choose|i: int|
                                    0 <= i < needs_process@.len() && needs_process@[i] == key;
                                assert(links.dom().contains(needs_process@[i]));
                            }
                            needs_process.lemma_wf_frame(links, key);
                        }
                        let c = self.conns.get_mut(key);
                        self.poll.register(&mut c.stream, key + 1, READABLE | WRITABLE, stats);
                        needs_process.push_back(&mut self.conns, key);
                        proof {
                            let at = self.conns@[key].stream.poll_index->Some_0;
                            assert(self.conns@.dom() =~= conns.dom().insert(key));
                            assert(self.poll.items().dom() =~= items.dom().insert(at));
                            lemma_manual_kept(items, self.poll.items(), conns, self.conns@, listener, key);
                            lemma_counts_accepted(
                                b,
                                m,
                                accept_left as nat,
                                calls as nat,
                                conns,
                                self.conns@,
                                (budget - left) as nat,
                                key,
                            );
                            lemma_pace_accepted(
                                budget - left,
                                accept_left as nat,
                                calls as nat,
                                conns,
                                self.conns@,
                                queue,
                                needs_process@,
                                last,
                                key,
                            );
                            if accept_left == 1 {
                                last = Some(key);
                            }
                            self.accepted@ = self.accepted@ + 1;
                        }
                        accept_left = accept_left - 1;
                    },
                    Err(_) => {
                        can_accept = false;
                    },
                }
            }
            loop
                invariant
                    self.poll.wf(),
                    self.conns.wf(),
                    needs_process.wf(self.conns.links()),
                    self.conns.limit() == CONNS_MAX,
                    manual_inv(self.poll.items(), self.conns@, listener),
                    self.poll.items().dom().len() == self.conns@.dom().len() + 1,
                    self.conns@.dom().len() + accept_left <= CONNS_MAX,
                    left <= budget,
                    self.accepted() == old(self).accepted() + (CONNS_MAX - accept_left),
                    self.echoed() - old(self).echoed() + self.conns@.dom().len() == self.accepted()
                        - old(self).accepted(),
                    manual_pace(
                        budget - left,
                        accept_left as nat,
                        listener.calls as nat,
                        can_accept,
                        self.conns@,
                        needs_process@,
                        last,
                    ),
                    manual_counts(
                        b,
                        stats.metrics(),
                        accept_left as nat,
                        listener.calls as nat,
                        self.conns@,
                        (budget - left) as nat,
                    ),
                ensures
                    self.poll.wf(),
                    self.conns.wf(),
                    needs_process.wf(self.conns.links()),
                    needs_process@.len() == 0,
                    self.conns.limit() == CONNS_MAX,
                    manual_inv(self.poll.items(), self.conns@, listener),
                    self.poll.items().dom().len() == self.conns@.dom().len() + 1,
                    self.conns@.dom().len() + accept_left <= CONNS_MAX,
                    left <= budget,
                    self.accepted() == old(self).accepted() + (CONNS_MAX - accept_left),
                    self.echoed() - old(self).echoed() + self.conns@.dom().len() == self.accepted()
                        - old(self).accepted(),
                    manual_pace(
                        budget - left,
                        accept_left as nat,
                        listener.calls as nat,
                        can_accept,
                        self.conns@,
                        needs_process@,
                        last,
                    ),
                    manual_counts(
                        b,
                        stats.metrics(),
                        accept_left as nat,
                        listener.calls as nat,
                        self.conns@,
                        (budget - left) as nat,
                    ),
                decreases needs_process@.len(),
            {
                let ghost items = self.poll.items();
                let ghost conns = self.conns@;
                let ghost links = self.conns.links();
                let ghost m = stats.metrics();
                let ghost queue = needs_process@;
                proof {
                    self.conns.lemma_same_keys();
                    self.conns.lemma_bounded();
                    self.poll.lemma_bounded();
                    if needs_process@.len() > 0 {
                        assert(links.dom().contains(needs_process@[0]));
                    }
                }
                let key = match needs_process.pop_front(&mut self.conns) {
                    Some(key) => key,
                    None => {
                        break ;
                    },
                };
                proof {
                    assert(queue[0] == key);
                    assert(queue.contains(key));
                }
                let c = self.conns.get_mut(key);
                if c.process(stats) {
                    self.poll.unregister(&mut c.stream, stats);
                    proof {
                        self.conns.lemma_same_keys();
                        needs_process.lemma_wf_frame(self.conns.links(), key);
                    }
                    let _ = self.conns.remove(key);
                    proof {
                        let at = conns[key].stream.poll_index->Some_0;
                        assert(self.conns@.dom() =~= conns.dom().remove(key));
                        assert(self.poll.items().dom() =~= items.dom().remove(at));
                        lemma_manual_kept(items, self.poll.items(), conns, self.conns@, listener, key);
                        lemma_counts_closed(
                            b,
                            m,
                            accept_left as nat,
                            listener.calls as nat,
                            conns,
                            self.conns@,
                            (budget - left) as nat,
                            key,
                        );
                        lemma_pace_closed(
                            budget - left,
                            accept_left as nat,
                            listener.calls as nat,
                            can_accept,
                            conns,
                            self.conns@,
                            queue,
                            needs_process@,
                            last,
                            key,
                        );
                        if last == Some(key) {
                            last = None;
                        }
                        self.echoed@ = self.echoed@ + 1;
                    }
                } else {
                    proof {
                        assert(self.conns@.dom() =~= conns.dom());
                        lemma_counts_driven(
                            b,
                            m,
                            stats.metrics(),
                            accept_left as nat,
                            listener.calls as nat,
                            conns,
                            self.conns@,
                            (budget - left) as nat,
                            key,
                        );
                        lemma_manual_kept(items, self.poll.items(), conns, self.conns@, listener, key);
                        lemma_pace_driven(
                            budget - left,
                            accept_left as nat,
                            listener.calls as nat,
                            can_accept,
                            conns,
                            self.conns@,
                            queue,
                            needs_process@,
                            last,
                            key,
                        );
                    }
                }
            }
            if accept_left == 0 && self.conns.is_empty() {
                proof {
                    self.conns.lemma_same_keys();
                    assert(self.conns.links() =~= Map::<usize, crate::arena::Link>::empty());
                }
                break ;
            }
            if left == 0 {
                proof {
                    if accept_left == 0 {
                        self.conns.lemma_bounded();
                        if self.conns@.dom().len() == 0 {
                            assert(self.conns@.dom() =~= Set::<usize>::empty());
                            assert(self.conns@ =~= Map::<usize, Connection>::empty());
                        }
                        let k = self.conns@.dom().choose();
                        assert(self.conns@.dom().contains(k));
                        assert(!needs_process@.contains(k));
                    }
                    assert(budget < POLLS);
                }
                return false;
            }
            left = left - 1;
            proof {
                assert(needs_process@ =~= Seq::<usize>::empty());
                self.conns.lemma_bounded();
                if accept_left == 0 && self.conns@.dom().len() == 0 {
                    assert(self.conns@.dom() =~= Set::<usize>::empty());
                    assert(self.conns@ =~= Map::<usize, Connection>::empty());
                }
            }
            self.poll.poll(&mut self.events, stats);
            let mut i: usize = 0;
            while i < self.events.len()
                invariant
                    accept_left > 0 || self.conns@.dom().len() > 0,
                    can_accept || forall|j: int| 0 <= j < i ==> (#[trigger] self.events@[j]).0 != 0,
                    reports_all(self.poll.items(), self.events@),
                    self.events.wf(),
                    self.poll.wf(),
                    self.conns.wf(),
                    needs_process.wf(self.conns.links()),
                    self.conns.limit() == CONNS_MAX,
                    manual_inv(self.poll.items(), self.conns@, listener),
                    self.poll.items().dom().len() == self.conns@.dom().len() + 1,
                    self.conns@.dom().len() + accept_left <= CONNS_MAX,
                    left <= budget,
                    self.accepted() == old(self).accepted() + (CONNS_MAX - accept_left),
                    self.echoed() - old(self).echoed() + self.conns@.dom().len() == self.accepted()
                        - old(self).accepted(),
                    manual_pace(
                        budget - left - 1,
                        accept_left as nat,
                        listener.calls as nat,
                        false,
                        self.conns@,
                        Seq::<usize>::empty(),
                        last,
                    ),
                    accept_left > 0 ==> listener.calls % 2 == 1,
                    forall|j: int|
                        0 <= j < i && (#[trigger] self.events@[j]).0 != 0
                            ==> needs_process@.contains((self.events@[j].0 - 1) as usize),
                    manual_counts(
                        b,
                        stats.metrics(),
                        accept_left as nat,
                        listener.calls as nat,
                        self.conns@,
                        (budget - left) as nat,
                    ),
                    0 <= i <= self.events@.len(),
                    forall|j: int|
                        0 <= j < self.events@.len() ==> stems_from(
                            self.poll.items(),
                            #[trigger] self.events@[j],
                        ),
                decreases self.events@.len() - i,
            {
                let (key, state) = self.events.get(i);
                if key == 0 {
                    can_accept = true;
                } else {
                    let key = key - 1;
                    let ghost conns = self.conns@;
                    proof {
                        assert(stems_from(self.poll.items(), self.events@[i as int]));
                        let index = choose|index: usize| #[trigger]
                            self.poll.items().dom().contains(index) && self.events@[i as int] == (
                                self.poll.items()[index].1,
                                self.poll.items()[index].0,
                            );
                        assert(self.poll.items().dom().contains(index));
                        assert(conns.dom().contains(key));
                        assert(state == READABLE | WRITABLE);
                        assert((1u8 | 2u8) & 1u8 != 0u8) by (bit_vector);
                    }
                    let c = self.conns.get_mut(key);
                    let mut do_process = false;
                    if state & READABLE != 0 {
                        c.can_read = true;
                        do_process = true;
                    }
                    if state & WRITABLE != 0 {
                        c.can_write = true;
                        do_process = true;
                    }
                    proof {
                        assert(self.conns@.dom() =~= conns.dom());
                        lemma_manual_kept(
                            self.poll.items(),
                            self.poll.items(),
                            conns,
                            self.conns@,
                            listener,
                            key,
                        );
                        lemma_counts_same(
                            b,
                            stats.metrics(),
                            accept_left as nat,
                            listener.calls as nat,
                            conns,
                            self.conns@,
                            (budget - left) as nat,
                        );
                        lemma_pace_same(
                            budget - left - 1,
                            accept_left as nat,
                            listener.calls as nat,
                            false,
                            conns,
                            self.conns@,
                            Seq::<usize>::empty(),
                            last,
                        );
                    }
                    assert(do_process);
                    if do_process {
                        needs_process.remove(&mut self.conns, key);
                        needs_process.push_back(&mut self.conns, key);
                    }
                }
                i = i + 1;
            }
            proof {
                if accept_left > 0 {
                    let at = listener.poll_index->Some_0;
                    assert(self.poll.items().dom().contains(at));
                    let j = choose|j: int|
                        0 <= j < self.events@.len() && #[trigger] self.events@[j] == (
                            self.poll.items()[at].1,
                            self.poll.items()[at].0,
                        );
                    assert(self.events@[j].0 == 0);
                    assert(can_accept);
                }
                assert forall|k: usize| self.conns@.dom().contains(k) implies #[trigger]
                    needs_process@.contains(k) by {
                    let at = self.conns@[k].stream.poll_index->Some_0;
                    assert(self.poll.items().dom().contains(at));
                    let j = choose|j: int|
                        0 <= j < self.events@.len() && #[trigger] self.events@[j] == (
                            self.poll.items()[at].1,
                            self.poll.items()[at].0,
                        );
                    assert(self.events@[j].0 == k + 1);
                }
                lemma_pace_polled(
                    budget - left,
                    accept_left as nat,
                    listener.calls as nat,
                    can_accept,
                    self.conns@,
                    needs_process@,
                    last,
                    self.conns@.dom().choose(),
                );
            }
        }
        let ghost items = self.poll.items();
        let ghost at = listener.poll_index->Some_0;
        proof {
            self.poll.lemma_bounded();
            lemma_sum_empty(reads_in(self.conns@));
            lemma_sum_empty(writes_in(self.conns@));
            assert(self.conns@.dom() =~= Set::<usize>::empty());
        }
        self.poll.unregister(&mut listener, stats);
        proof {
            assert(self.poll.items().dom() =~= items.dom().remove(at));
            assert(self.poll.items().dom().len() == 0);
            self.poll.lemma_bounded();
            assert(self.poll.items().dom() =~= Set::<usize>::empty());
            assert(self.poll.items() =~= Map::<usize, (u8, usize)>::empty());
            assert(advance(b.poll, (budget - left) as nat) == stats.metrics().poll);
        }
        true
    }
}

/// Serves the workload by hand, to the end, and returns what was counted.
pub fn run_manual() -> (m: StatsMetrics)
    ensures
        whole_workload(m),
{
    let mut stats = Stats::new();
    let mut r = RunManual::new();
    let _ = r.run(&mut stats, usize::MAX);
    proof {
        lemma_served_from_zero(crate::fakeio::Stats::metrics(&stats));
    }
    stats.get()
}

/// The counts of the whole workload, counted from zero.
pub open spec fn whole_workload(m: StatsMetrics) -> bool {
    m == (StatsMetrics {
        register: 33,
        unregister: 33,
        poll: 34,
        accept: 64,
        read: 64,
        write: 64,
    })
}

/// Counted from zero, the counts of a workload served to the end are those
/// of the whole workload.
pub proof fn lemma_served_from_zero(m: StatsMetrics)
    requires
        served(
            StatsMetrics { register: 0, unregister: 0, poll: 0, accept: 0, read: 0, write: 0 },
            m,
        ),
    ensures
        whole_workload(m),
{
    lemma_advance_small(0, CONNS_MAX as nat + 1);
    lemma_advance_small(0, 2 * CONNS_MAX as nat);
    lemma_advance_small(0, POLLS as nat);
}

/// Serves the workload with tasks that are made from arguments and have
/// small buffers, to the end, and returns what was counted.
pub fn run_nonbox() -> (m: StatsMetrics)
    ensures
        whole_workload(m),
{
    let (net, _) = crate::server::serve::<SMALL_BUFSIZE, Stats>(Stats::new(), usize::MAX);
    proof {
        lemma_served_from_zero(crate::fakeio::Stats::metrics(&net.stats));
    }
    net.stats.get()
}

/// Serves the workload with tasks that the caller has put on the heap, to
/// the end, and returns what was counted.
pub fn run_callerbox() -> (m: StatsMetrics)
    ensures
        whole_workload(m),
{
    let (net, _) = crate::server::serve_boxed::<SMALL_BUFSIZE, Stats>(Stats::new(), usize::MAX);
    proof {
        lemma_served_from_zero(crate::fakeio::Stats::metrics(&net.stats));
    }
    net.stats.get()
}

/// Serves the workload with tasks that are made from arguments and have
/// large buffers, to the end, and returns what was counted.
pub fn run_large_nonbox() -> (m: StatsMetrics)
    ensures
        whole_workload(m),
{
    let (net, _) = crate::server::serve::<LARGE_BUFSIZE, Stats>(Stats::new(), usize::MAX);
    proof {
        lemma_served_from_zero(crate::fakeio::Stats::metrics(&net.stats));
    }
    net.stats.get()
}

} // verus!
