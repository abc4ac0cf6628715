//! The list of readiness events that a poll fills.
//!
//! The events are kept in a `slab::Slab`. A list is only ever cleared and
//! appended to, so every slot up to its length is taken and the slab hands
//! out the keys in the order of the appends: the key of an event is its
//! place in the list.

use vstd::prelude::*;
use crate::arena::RESERVE_MAX;

verus! {

/// The slots of a slab of events, in the order of their keys, taken and
/// vacant ones alike: the slot under key `i` holds `Some` of the event stored
/// there, or `None` where it is vacant.
pub uninterp spec fn slab_events(s: slab::Slab<(usize, u8)>) -> Seq<Option<(usize, u8)>>;

/// Whether no slot of `slots` is vacant.
pub open spec fn all_taken(slots: Seq<Option<(usize, u8)>>) -> bool {
    forall|i: int| 0 <= i < slots.len() ==> (#[trigger] slots[i]) is Some
}

/// The keys of the slots that are taken.
pub open spec fn taken(slots: Seq<Option<(usize, u8)>>) -> Set<int> {
    Set::new(|i: int| 0 <= i < slots.len() && slots[i] is Some)
}

/// `Slab::with_capacity`: the new slab has no slot. The slab panics when
/// the capacity takes more than `isize::MAX` bytes, which a capacity of at
/// most `RESERVE_MAX` events never does. Allocation failure is not modelled.
#[verifier::external_body]
fn slots_with_capacity(capacity: usize) -> (slab: slab::Slab<(usize, u8)>)
    requires
        capacity <= RESERVE_MAX,
    ensures
        slab_events(slab) == Seq::<Option<(usize, u8)>>::empty(),
{
    slab::Slab::with_capacity(capacity)
}

/// `Slab::clear`: the slab has no slot afterwards, and hands out keys from
/// zero again.
#[verifier::external_body]
fn slots_clear(s: &mut slab::Slab<(usize, u8)>)
    ensures
        slab_events(*final(s)) == Seq::<Option<(usize, u8)>>::empty(),
{
    s.clear()
}

/// `Slab::insert`: stores the event in a slot that was vacant, or in a new
/// slot behind the others where none was vacant, and returns the slot's key;
/// every other slot is left as it was. Which of several vacant slots is
/// taken is left open. Allocation failure is not modelled.
#[verifier::external_body]
fn slots_insert(s: &mut slab::Slab<(usize, u8)>, event: (usize, u8)) -> (key: usize)
    ensures
        key <= slab_events(*old(s)).len(),
        key < slab_events(*old(s)).len() ==> slab_events(*old(s))[key as int] is None
            && slab_events(*final(s)) == slab_events(*old(s)).update(key as int, Some(event)),
        key == slab_events(*old(s)).len() ==> slab_events(*final(s)) == slab_events(
            *old(s),
        ).push(Some(event)),
{
    s.insert(event)
}

/// `Slab::len`: the number of slots that are taken.
#[verifier::external_body]
fn slots_len(s: &slab::Slab<(usize, u8)>) -> (n: usize)
    ensures
        n == taken(slab_events(*s)).len(),
{
    s.len()
}

/// `Slab::get`: the event stored under `key`, if the slab has a slot of
/// that key and it is taken.
#[verifier::external_body]
fn slots_get(s: &slab::Slab<(usize, u8)>, key: usize) -> (r: Option<(usize, u8)>)
    ensures
        r == (if key < slab_events(*s).len() {
            slab_events(*s)[key as int]
        } else {
            None
        }),
{
    s.get(key).copied()
}

/// Where no slot is vacant, as many slots are taken as there are.
proof fn lemma_taken_all(slots: Seq<Option<(usize, u8)>>)
    requires
        all_taken(slots),
    ensures
        taken(slots).finite(),
        taken(slots).len() == slots.len(),
{
    vstd::set_lib::lemma_int_range(0, slots.len() as int);
    assert(taken(slots) =~= vstd::set_lib::set_int_range(0, slots.len() as int));
}

/// A list of events: pairs of the key that an object was registered with and
/// its interest, in the order in which they were reported.
pub struct Events {
    slots: slab::Slab<(usize, u8)>,
}

impl View for Events {
    type V = Seq<(usize, u8)>;

    /// The events, in their order.
    closed spec fn view(&self) -> Seq<(usize, u8)> {
        Seq::new(slab_events(self.slots).len(), |i: int| slab_events(self.slots)[i]->Some_0)
    }
}

impl Events {
    /// Whether the keys of the events are their places in the list.
    pub closed spec fn wf(&self) -> bool {
        all_taken(slab_events(self.slots))
    }

    /// An empty list, with room for `reserve` events taken at once, as far
    /// as `RESERVE_MAX` allows. The list grows as it fills.
    pub fn new(reserve: usize) -> (e: Self)
        ensures
            e.wf(),
            e@ == Seq::<(usize, u8)>::empty(),
    {
        let reserve = if reserve < RESERVE_MAX {
            reserve
        } else {
            RESERVE_MAX
        };
        let e = Events { slots: slots_with_capacity(reserve) };
        assert(e@ =~= Seq::<(usize, u8)>::empty());
        e
    }

    /// Empties the list.
    pub fn clear(&mut self)
        ensures
            final(self).wf(),
            final(self)@ == Seq::<(usize, u8)>::empty(),
    {
        slots_clear(&mut self.slots);
        assert(self@ =~= Seq::<(usize, u8)>::empty());
    }

    /// Appends `event`.
    pub fn push(&mut self, event: (usize, u8))
        requires
            old(self).wf(),
        ensures
            final(self).wf(),
            final(self)@ == old(self)@.push(event),
    {
        let ghost before = slab_events(self.slots);
        let _ = slots_insert(&mut self.slots, event);
        assert(slab_events(self.slots) == before.push(Some(event)));
        assert(self@ =~= old(self)@.push(event));
    }

    /// The number of events.
    pub fn len(&self) -> (n: usize)
        requires
            self.wf(),
        ensures
            n == self@.len(),
    {
        proof {
            lemma_taken_all(slab_events(self.slots));
        }
        slots_len(&self.slots)
    }

    /// Whether the list is empty.
    pub fn is_empty(&self) -> (b: bool)
        requires
            self.wf(),
        ensures
            b == (self@.len() == 0),
    {
        self.len() == 0
    }

    /// The event at place `i`.
    pub fn get(&self, i: usize) -> (event: (usize, u8))
        requires
            self.wf(),
            i < self@.len(),
        ensures
            event == self@[i as int],
    {
        match slots_get(&self.slots, i) {
            Some(event) => event,
            None => vstd::pervasive::unreached(),
        }
    }

    /// The events as a vector, in their order.
    pub fn to_vec(&self) -> (v: Vec<(usize, u8)>)
        requires
            self.wf(),
        ensures
            v@ == self@,
    {
        let n = self.len();
        let mut v: Vec<(usize, u8)> = Vec::new();
        let mut i: usize = 0;
        while i < n
            invariant
                self.wf(),
                n == self@.len(),
                0 <= i <= n,
                v@ == self@.take(i as int),
            decreases n - i,
        {
            v.push(self.get(i));
            assert(self@.take(i as int).push(self@[i as int]) =~= self@.take(i + 1));
            i = i + 1;
        }
        assert(self@.take(n as int) =~= self@);
        v
    }
}

} // verus!
