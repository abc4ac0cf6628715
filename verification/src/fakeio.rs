//! A simulated I/O backend: streams and a listener whose every other attempt
//! would block, and a readiness source that reports every registered object
//! on every poll.

use crate::arena::Arena;
use crate::events::Events;
use crate::run::StatsMetrics;
use vstd::prelude::*;

verus! {

/// The kinds of I/O operation that are counted.
#[derive(Debug, Clone, Copy, PartialEq, Eq, Structural)]
pub enum StatsType {
    Register,
    Unregister,
    Poll,
    Accept,
    Read,
    Write,
}

/// A counter of I/O operations.
pub trait Stats {
    /// The counts so far.
    spec fn metrics(&self) -> StatsMetrics;

    /// Counts one operation of kind `t`.
    fn inc(&mut self, t: StatsType)
        ensures
            final(self).metrics() == old(self).metrics().bump(t),
    ;
}

/// An I/O object that remembers under which index a readiness source holds
/// it.
pub trait Evented: Sized {
    /// The index under which the object is registered, if it is.
    spec fn poll_index(&self) -> Option<usize>;

    /// The same object, registered under `index`.
    spec fn with_poll_index(self, index: Option<usize>) -> Self;

    fn set_poll_index(&mut self, index: Option<usize>)
        ensures
            *final(self) == old(self).with_poll_index(index),
            final(self).poll_index() == index,
    ;

    fn get_poll_index(&self) -> (index: Option<usize>)
        ensures
            index == self.poll_index(),
    ;
}

/// The signal that an attempt can do nothing now and should be repeated when
/// the object is reported ready.
#[derive(Debug, Clone, Copy, PartialEq, Eq, Structural)]
pub struct WouldBlock;

/// Interest in, or readiness for, reading.
pub const READABLE: u8 = 1;

/// Interest in, or readiness for, writing.
pub const WRITABLE: u8 = 2;

/// The line that every simulated stream delivers: `hello world` and a
/// newline.
pub open spec fn hello_line() -> Seq<u8> {
    seq![104u8, 101u8, 108u8, 108u8, 111u8, 32u8, 119u8, 111u8, 114u8, 108u8, 100u8, 10u8]
}

/// A simulated stream. Its attempts alternate: the first would block, the
/// second succeeds, and so on, reads and writes counted together.
#[derive(Debug)]
pub struct FakeStream {
    pub poll_index: Option<usize>,
    pub calls: usize,
}

impl FakeStream {
    /// Whether the next attempt would block.
    pub open spec fn will_block(&self) -> bool {
        self.calls % 2 == 0
    }

    /// The stream after one more attempt.
    pub open spec fn attempted(self) -> FakeStream {
        FakeStream {
            calls: if self.calls == usize::MAX {
                0
            } else {
                (self.calls + 1) as usize
            },
            ..self
        }
    }

    /// A stream on which nothing was attempted yet.
    pub fn new() -> (s: Self)
        ensures
            s == (FakeStream { poll_index: None, calls: 0 }),
    {
        FakeStream { poll_index: None, calls: 0 }
    }

    fn attempt(&mut self) -> (blocks: bool)
        ensures
            *final(self) == old(self).attempted(),
            blocks == old(self).will_block(),
            final(self).will_block() == !old(self).will_block(),
    {
        self.calls = if self.calls == usize::MAX {
            0
        } else {
            self.calls + 1
        };
        self.calls % 2 == 1
    }

    /// Attempts to read into `buf` from position `at` on. An attempt that
    /// succeeds delivers the whole line at once.
    pub fn read<S: Stats>(&mut self, buf: &mut Vec<u8>, at: usize, stats: &mut S) -> (r: Result<
        usize,
        WouldBlock,
    >)
        requires
            !old(self).will_block() ==> at + hello_line().len() <= old(buf)@.len(),
        ensures
            final(stats).metrics() == old(stats).metrics().bump(StatsType::Read),
            *final(self) == old(self).attempted(),
            final(self).will_block() == !old(self).will_block(),
            r is Err <==> old(self).will_block(),
            r is Err ==> final(buf)@ == old(buf)@,
            r matches Ok(n) ==> n == hello_line().len() && final(buf)@ == old(buf)@.subrange(
                0,
                at as int,
            ) + hello_line() + old(buf)@.subrange(at + n, old(buf)@.len() as int),
    {
        stats.inc(StatsType::Read);
        if self.attempt() {
            return Err(WouldBlock);
        }
        let data: [u8; 12] = [104, 101, 108, 108, 111, 32, 119, 111, 114, 108, 100, 10];
        assert(data@ =~= hello_line());
        let total = buf.len();
        let mut i: usize = 0;
        while i < 12
            invariant
                0 <= i <= 12,
                at + 12 <= buf@.len(),
                buf@.len() == total,
                buf@.len() == old(buf)@.len(),
                data@ == hello_line(),
                forall|j: int| 0 <= j < at ==> buf@[j] == old(buf)@[j],
                forall|j: int| at <= j < at + i ==> buf@[j] == data@[j - at],
                forall|j: int| at + i <= j < buf@.len() ==> buf@[j] == old(buf)@[j],
            decreases 12 - i,
        {
            buf.set(at + i, data[i]);
            i = i + 1;
        }
        assert(buf@ =~= old(buf)@.subrange(0, at as int) + hello_line() + old(buf)@.subrange(
            at + 12,
            old(buf)@.len() as int,
        ));
        Ok(12)
    }

    /// Attempts to write `len` bytes. An attempt that succeeds takes them
    /// all.
    pub fn write<S: Stats>(&mut self, len: usize, stats: &mut S) -> (r: Result<usize, WouldBlock>)
        ensures
            final(stats).metrics() == old(stats).metrics().bump(StatsType::Write),
            *final(self) == old(self).attempted(),
            final(self).will_block() == !old(self).will_block(),
            r is Err <==> old(self).will_block(),
            r matches Ok(n) ==> n == len,
    {
        stats.inc(StatsType::Write);
        if self.attempt() {
            return Err(WouldBlock);
        }
        Ok(len)
    }
}

impl FakeStream {
    /// Flushes what was written: there is nothing to do.
    pub fn flush(&mut self) -> (r: Result<(), WouldBlock>)
        ensures
            r is Ok,
            *final(self) == *old(self),
    {
        Ok(())
    }
}

impl Evented for FakeStream {
    open spec fn poll_index(&self) -> Option<usize> {
        self.poll_index
    }

    open spec fn with_poll_index(self, index: Option<usize>) -> Self {
        FakeStream { poll_index: index, ..self }
    }

    fn set_poll_index(&mut self, index: Option<usize>) {
        self.poll_index = index;
    }

    fn get_poll_index(&self) -> (index: Option<usize>) {
        self.poll_index
    }
}

/// A simulated listener. Its attempts alternate like those of a stream.
#[derive(Debug)]
pub struct FakeListener {
    pub poll_index: Option<usize>,
    pub calls: usize,
}

impl FakeListener {
    /// Whether the next attempt would block.
    pub open spec fn will_block(&self) -> bool {
        self.calls % 2 == 0
    }

    /// The listener after one more attempt.
    pub open spec fn attempted(self) -> FakeListener {
        FakeListener {
            calls: if self.calls == usize::MAX {
                0
            } else {
                (self.calls + 1) as usize
            },
            ..self
        }
    }

    /// A listener on which nothing was attempted yet.
    pub fn new() -> (l: Self)
        ensures
            l == (FakeListener { poll_index: None, calls: 0 }),
    {
        FakeListener { poll_index: None, calls: 0 }
    }

    /// Attempts to accept a connection. An attempt that succeeds hands out a
    /// new stream.
    pub fn accept<S: Stats>(&mut self, stats: &mut S) -> (r: Result<FakeStream, WouldBlock>)
        ensures
            final(stats).metrics() == old(stats).metrics().bump(StatsType::Accept),
            *final(self) == old(self).attempted(),
            final(self).will_block() == !old(self).will_block(),
            r is Err <==> old(self).will_block(),
            r matches Ok(s) ==> s == (FakeStream { poll_index: None, calls: 0 }),
    {
        stats.inc(StatsType::Accept);
        self.calls = if self.calls == usize::MAX {
            0
        } else {
            self.calls + 1
        };
        if self.calls % 2 == 1 {
            Err(WouldBlock)
        } else {
            Ok(FakeStream::new())
        }
    }
}

impl Evented for FakeListener {
    open spec fn poll_index(&self) -> Option<usize> {
        self.poll_index
    }

    open spec fn with_poll_index(self, index: Option<usize>) -> Self {
        FakeListener { poll_index: index, ..self }
    }

    fn set_poll_index(&mut self, index: Option<usize>) {
        self.poll_index = index;
    }

    fn get_poll_index(&self) -> (index: Option<usize>) {
        self.poll_index
    }
}

/// Whether `keys` lists exactly the keys of `dom`, in ascending order.
pub open spec fn lists_ascending(keys: Seq<usize>, dom: Set<usize>) -> bool {
    &&& forall|i: int, j: int| 0 <= i < j < keys.len() ==> keys[i] < keys[j]
    &&& forall|k: usize| keys.contains(k) <==> dom.contains(k)
}

/// There is only one way to list a set in ascending order.
pub proof fn lemma_lists_ascending_unique(a: Seq<usize>, b: Seq<usize>, dom: Set<usize>)
    requires
        lists_ascending(a, dom),
        lists_ascending(b, dom),
    ensures
        a == b,
    decreases a.len(),
{
    if a.len() == 0 {
        if b.len() > 0 {
            assert(b.contains(b[0]));
            assert(a.contains(b[0]));
        }
        assert(a =~= b);
    } else {
        assert(a.contains(a[0]));
        assert(b.contains(a[0]));
        assert(b.contains(b[0]));
        assert(a.contains(b[0]));
        let ia = choose|i: int| 0 <= i < a.len() && a[i] == b[0];
        let ib = choose|i: int| 0 <= i < b.len() && b[i] == a[0];
        assert(a[0] == b[0]);
        let rest = dom.remove(a[0]);
        let ta = a.drop_first();
        let tb = b.drop_first();
        assert forall|k: usize| ta.contains(k) <==> rest.contains(k) by {
            if ta.contains(k) {
                let i = choose|i: int| 0 <= i < ta.len() && ta[i] == k;
                assert(a[i + 1] == k);
                assert(a.contains(k));
            }
            if rest.contains(k) {
                assert(a.contains(k));
                let i = choose|i: int| 0 <= i < a.len() && a[i] == k;
                assert(ta[i - 1] == k);
            }
        }
        assert forall|k: usize| tb.contains(k) <==> rest.contains(k) by {
            if tb.contains(k) {
                let i = choose|i: int| 0 <= i < tb.len() && tb[i] == k;
                assert(b[i + 1] == k);
                assert(b.contains(k));
            }
            if rest.contains(k) {
                assert(b.contains(k));
                let i = choose|i: int| 0 <= i < b.len() && b[i] == k;
                assert(tb[i - 1] == k);
            }
        }
        lemma_lists_ascending_unique(ta, tb, rest);
        assert(a =~= seq![a[0]] + ta);
        assert(b =~= seq![b[0]] + tb);
    }
}

/// The events that a poll reports for the registered `items`: for each, by
/// ascending index, the key and the interest it was registered with.
pub open spec fn events_of(items: Map<usize, (u8, usize)>) -> Seq<(usize, u8)> {
    let keys = choose|keys: Seq<usize>| lists_ascending(keys, items.dom());
    Seq::new(keys.len(), |i: int| (items[keys[i]].1, items[keys[i]].0))
}

/// Whether `event` is the event of one of the registered `items`.
pub open spec fn stems_from(items: Map<usize, (u8, usize)>, event: (usize, u8)) -> bool {
    exists|index: usize| #[trigger]
        items.dom().contains(index) && event == (items[index].1, items[index].0)
}

/// Whether `events` has an event of every one of the registered `items`.
pub open spec fn reports_all(items: Map<usize, (u8, usize)>, events: Seq<(usize, u8)>) -> bool {
    forall|index: usize| #[trigger]
        items.dom().contains(index) ==> exists|i: int|
            0 <= i < events.len() && #[trigger] events[i] == (items[index].1, items[index].0)
}

/// A simulated readiness source: every registered object is always ready.
pub struct Poll {
    items: Arena<(u8, usize)>,
}

impl Poll {
    /// The registered objects by index: the interest and the key of each.
    pub closed spec fn items(&self) -> Map<usize, (u8, usize)> {
        self.items@
    }

    pub closed spec fn wf(&self) -> bool {
        self.items.wf() && self.items.limit() == usize::MAX
    }

    /// A well-formed source holds finitely many objects.
    pub proof fn lemma_bounded(&self)
        requires
            self.wf(),
        ensures
            self.items().dom().finite(),
    {
        self.items.lemma_bounded();
    }

    /// A source without registered objects, with room for `capacity` of
    /// them. It grows when more are registered.
    pub fn new(capacity: usize) -> (p: Self)
        ensures
            p.wf(),
            p.items() == Map::<usize, (u8, usize)>::empty(),
    {
        Poll { items: Arena::growing(capacity) }
    }

    /// The number of registered objects.
    pub fn len(&self) -> (n: usize)
        requires
            self.wf(),
        ensures
            n == self.items().dom().len(),
    {
        self.items.len()
    }

    /// Whether no object is registered. Every object is to be unregistered
    /// before its source is given up.
    pub fn is_empty(&self) -> (b: bool)
        requires
            self.wf(),
        ensures
            b == (self.items() == Map::<usize, (u8, usize)>::empty()),
    {
        self.items.is_empty()
    }

    /// Registers `handle` under a free index, with the key that its events
    /// are to carry, and records the index in the object.
    pub fn register<E: Evented, S: Stats>(
        &mut self,
        handle: &mut E,
        key: usize,
        interest: u8,
        stats: &mut S,
    )
        requires
            old(self).wf(),
        ensures
            final(self).wf(),
            final(stats).metrics() == old(stats).metrics().bump(StatsType::Register),
            final(handle).poll_index() matches Some(index) && !old(self).items().dom().contains(
                index,
            ) && final(self).items() == old(self).items().insert(index, (interest, key)),
            *final(handle) == old(handle).with_poll_index(final(handle).poll_index()),
    {
        stats.inc(StatsType::Register);
        let index = self.items.push((interest, key));
        handle.set_poll_index(Some(index));
    }

    /// Takes `handle` out of the source, if the object says that it is
    /// registered, and clears the index in the object.
    pub fn unregister<E: Evented, S: Stats>(&mut self, handle: &mut E, stats: &mut S)
        requires
            old(self).wf(),
            old(handle).poll_index() matches Some(index) ==> old(self).items().dom().contains(
                index,
            ),
        ensures
            final(self).wf(),
            final(stats).metrics() == old(stats).metrics().bump(StatsType::Unregister),
            old(handle).poll_index() is None ==> final(self).items() == old(self).items()
                && *final(handle) == *old(handle),
            old(handle).poll_index() matches Some(index) ==> final(self).items() == old(self).items().remove(index) && *final(handle) == old(handle).with_poll_index(None),
    {
        stats.inc(StatsType::Unregister);
        if let Some(index) = handle.get_poll_index() {
            let _ = self.items.remove(index);
            handle.set_poll_index(None);
        }
    }

    /// Replaces `events` by one event for every registered object.
    pub fn poll<S: Stats>(&self, events: &mut Events, stats: &mut S)
        requires
            self.wf(),
        ensures
            final(stats).metrics() == old(stats).metrics().bump(StatsType::Poll),
            final(events).wf(),
            final(events)@ == events_of(self.items()),
            forall|i: int|
                0 <= i < final(events)@.len() ==> stems_from(
                    self.items(),
                    #[trigger] final(events)@[i],
                ),
            reports_all(self.items(), final(events)@),
    {
        stats.inc(StatsType::Poll);
        events.clear();
        let keys = self.items.keys();
        let mut i: usize = 0;
        while i < keys.len()
            invariant
                self.wf(),
                0 <= i <= keys@.len(),
                lists_ascending(keys@, self.items@.dom()),
                events.wf(),
                events@.len() == i,
                forall|j: int|
                    0 <= j < i ==> events@[j] == (
                        self.items@[keys@[j]].1,
                        self.items@[keys@[j]].0,
                    ),
            decreases keys@.len() - i,
        {
            let key = keys[i];
            assert(keys@.contains(keys@[i as int]));
            let item = self.items.get(key).unwrap();
            events.push((item.1, item.0));
            i = i + 1;
        }
        proof {
            let chosen = choose|ks: Seq<usize>| lists_ascending(ks, self.items@.dom());
            lemma_lists_ascending_unique(keys@, chosen, self.items@.dom());
            assert(events@ =~= events_of(self.items()));
            assert forall|i: int| 0 <= i < events@.len() implies stems_from(
                self.items(),
                #[trigger] events@[i],
            ) by {
                assert(keys@.contains(keys@[i]));
                assert(self.items().dom().contains(keys@[i]));
            }
            assert forall|index: usize| #[trigger]
                self.items().dom().contains(index) implies exists|i: int|
                0 <= i < events@.len() && #[trigger] events@[i] == (
                    self.items()[index].1,
                    self.items()[index].0,
                ) by {
                assert(keys@.contains(index));
                let i = choose|i: int| 0 <= i < keys@.len() && keys@[i] == index;
                assert(events@[i] == (self.items()[index].1, self.items()[index].0));
            }
        }
    }
}

} // verus!
