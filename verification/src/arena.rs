//! Fixed-capacity slot storage with stable integer identities.
//!
//! Slot allocation is done by a `slab::Slab`, which also stores the links of
//! an intrusive list threaded through the slots. The values live beside it,
//! indexed by slot key, so that the arena can hold any type of value.

use vstd::prelude::*;

verus! {

#[verifier::external_type_specification]
#[verifier::external_body]
#[verifier::reject_recursive_types(T)]
pub struct ExSlab<T>(slab::Slab<T>);

/// The two neighbours of a slot in an intrusive list.
#[derive(Clone, Copy, Debug)]
pub struct Link {
    pub prev: Option<usize>,
    pub next: Option<usize>,
}

impl Link {
    /// The link of a slot that is in no list.
    pub open spec fn unlinked() -> Link {
        Link { prev: None, next: None }
    }
}

/// Returned when an insertion finds the configured maximum already reached.
#[derive(Clone, Copy, Debug, PartialEq, Eq, Structural)]
pub struct CapacityExceeded;

/// The occupied slots of a slab: each key in use, with the link stored under it.
pub uninterp spec fn slab_links(s: slab::Slab<Link>) -> Map<usize, Link>;

/// The most slots that an arena reserves when it is made. An arena with a
/// higher limit grows as it fills.
pub const RESERVE_MAX: usize = 65_536;

/// `Slab::with_capacity`: the new slab has no occupied slot. The slab
/// panics when the capacity takes more than `isize::MAX` bytes, which a
/// capacity of at most `RESERVE_MAX` slots of a few words each never does.
/// Allocation failure is not modelled.
#[verifier::external_body]
fn slab_with_capacity(capacity: usize) -> (slab: slab::Slab<Link>)
    requires
        capacity <= RESERVE_MAX,
    ensures
        slab_links(slab).dom() == Set::<usize>::empty(),
{
    slab::Slab::with_capacity(capacity)
}

/// `Slab::len`: the number of occupied slots.
#[verifier::external_body]
fn slab_len(s: &slab::Slab<Link>) -> (n: usize)
    ensures
        n == slab_links(*s).dom().len(),
{
    s.len()
}

/// `Slab::contains`: whether a value is stored under `key`.
#[verifier::external_body]
fn slab_contains(s: &slab::Slab<Link>, key: usize) -> (b: bool)
    ensures
        b == slab_links(*s).dom().contains(key),
{
    s.contains(key)
}

/// `Slab::get`: the value stored under `key`, if any.
#[verifier::external_body]
fn slab_get(s: &slab::Slab<Link>, key: usize) -> (r: Option<Link>)
    ensures
        r == (if slab_links(*s).dom().contains(key) {
            Some(slab_links(*s)[key])
        } else {
            None
        }),
{
    s.get(key).copied()
}

/// `Slab::insert`: stores the value under a key that was vacant and returns
/// that key; every other slot is left as it was. Allocation failure is not
/// modelled.
#[verifier::external_body]
fn slab_insert(s: &mut slab::Slab<Link>, link: Link) -> (key: usize)
    ensures
        !slab_links(*old(s)).dom().contains(key),
        slab_links(*final(s)) == slab_links(*old(s)).insert(key, link),
{
    s.insert(link)
}

/// `Slab::remove`: vacates the slot under `key` and returns what it held;
/// every other slot is left as it was. The slab panics on a vacant key, which
/// the precondition rules out.
#[verifier::external_body]
fn slab_remove(s: &mut slab::Slab<Link>, key: usize) -> (link: Link)
    requires
        slab_links(*old(s)).dom().contains(key),
    ensures
        link == slab_links(*old(s))[key],
        slab_links(*final(s)) == slab_links(*old(s)).remove(key),
{
    s.remove(key)
}

/// `IndexMut::index_mut` of `Slab`: overwrites the value under an occupied
/// key. The slab panics on a vacant key, which the precondition rules out.
#[verifier::external_body]
fn slab_set(s: &mut slab::Slab<Link>, key: usize, link: Link)
    requires
        slab_links(*old(s)).dom().contains(key),
    ensures
        slab_links(*final(s)) == slab_links(*old(s)).insert(key, link),
{
    s[key] = link;
}

/// `Slab::iter`: the occupied keys, in ascending order.
#[verifier::external_body]
fn slab_keys(s: &slab::Slab<Link>) -> (keys: Vec<usize>)
    ensures
        forall|i: int, j: int| 0 <= i < j < keys@.len() ==> keys@[i] < keys@[j],
        forall|k: usize| keys@.contains(k) <==> slab_links(*s).dom().contains(k),
{
    s.iter().map(|(key, _)| key).collect()
}

/// Fixed-capacity storage: each stored value keeps the key it was given until
/// it is removed, and removing one value never moves another.
pub struct Arena<T> {
    slots: slab::Slab<Link>,
    values: Vec<Option<T>>,
    limit: usize,
}

impl<T> View for Arena<T> {
    type V = Map<usize, T>;

    /// The stored values by key.
    closed spec fn view(&self) -> Map<usize, T> {
        Map::new(
            |k: usize| slab_links(self.slots).dom().contains(k),
            |k: usize| self.values@[k as int]->Some_0,
        )
    }
}

impl<T> Arena<T> {
    /// The list links stored in the occupied slots.
    pub closed spec fn links(&self) -> Map<usize, Link> {
        slab_links(self.slots)
    }

    /// The configured maximum number of stored values.
    pub closed spec fn limit(&self) -> nat {
        self.limit as nat
    }

    /// Well-formedness: finitely many slots, no more than the limit, each
    /// with its value.
    pub closed spec fn wf(&self) -> bool {
        &&& slab_links(self.slots).dom().finite()
        &&& slab_links(self.slots).dom().len() <= self.limit
        &&& forall|k: usize| #[trigger]
            slab_links(self.slots).dom().contains(k) ==> k < self.values@.len()
                && self.values@[k as int] is Some
    }

    /// The links and the values are stored under the same keys.
    pub proof fn lemma_same_keys(&self)
        ensures
            self.links().dom() == self@.dom(),
    {
        assert(self.links().dom() =~= self@.dom());
    }

    /// A well-formed arena holds finitely many values, at most its limit.
    pub proof fn lemma_bounded(&self)
        requires
            self.wf(),
        ensures
            self@.dom().finite(),
            self@.dom().len() <= self.limit(),
    {
        self.lemma_same_keys();
    }

    /// Every key in use is below the largest `usize`.
    pub proof fn lemma_key_bound(&self, key: usize)
        requires
            self.wf(),
            self@.dom().contains(key),
        ensures
            key < usize::MAX,
    {
        assert(self.values@.len() == self.values.len());
    }

    /// An empty arena that can hold up to `limit` values.
    pub fn new(limit: usize) -> (a: Self)
        ensures
            a.wf(),
            a@ == Map::<usize, T>::empty(),
            a.links() == Map::<usize, Link>::empty(),
            a.limit() == limit,
    {
        let reserve = if limit < RESERVE_MAX {
            limit
        } else {
            RESERVE_MAX
        };
        let a = Arena { slots: slab_with_capacity(reserve), values: Vec::new(), limit };
        assert(a@ =~= Map::<usize, T>::empty());
        assert(a.links() =~= Map::<usize, Link>::empty());
        a
    }

    /// An empty arena without a limit of its own, which grows as it fills:
    /// its limit is the largest `usize`. Room for `reserve` values is taken
    /// at once, as far as `RESERVE_MAX` allows.
    pub fn growing(reserve: usize) -> (a: Self)
        ensures
            a.wf(),
            a@ == Map::<usize, T>::empty(),
            a.links() == Map::<usize, Link>::empty(),
            a.limit() == usize::MAX,
    {
        let reserve = if reserve < RESERVE_MAX {
            reserve
        } else {
            RESERVE_MAX
        };
        let a = Arena { slots: slab_with_capacity(reserve), values: Vec::new(), limit: usize::MAX };
        assert(a@ =~= Map::<usize, T>::empty());
        assert(a.links() =~= Map::<usize, Link>::empty());
        a
    }

    /// Stores `value` in an arena that grows, under a key that was free, and
    /// returns the key.
    pub fn push(&mut self, value: T) -> (key: usize)
        requires
            old(self).wf(),
            old(self).limit() == usize::MAX,
        ensures
            final(self).wf(),
            final(self).limit() == old(self).limit(),
            !old(self)@.dom().contains(key),
            final(self)@ == old(self)@.insert(key, value),
            final(self).links() == old(self).links().insert(key, Link::unlinked()),
    {
        proof {
            self.lemma_same_keys();
        }
        let ghost before = self.values@;
        let key = slab_insert(&mut self.slots, Link { prev: None, next: None });
        let ghost slots = self.slots;
        while self.values.len() <= key
            invariant
                self.slots == slots,
                self.limit == old(self).limit,
                before.len() <= self.values@.len(),
                forall|i: int| 0 <= i < before.len() ==> self.values@[i] == before[i],
            decreases key + 1 - self.values.len(),
        {
            self.values.push(None);
        }
        self.values.set(key, Some(value));
        let _ = slab_len(&self.slots);
        proof {
            assert(self@ =~= old(self)@.insert(key, value));
        }
        key
    }

    /// The number of stored values.
    pub fn len(&self) -> (n: usize)
        requires
            self.wf(),
        ensures
            n == self@.dom().len(),
            n <= self.limit(),
    {
        proof {
            self.lemma_same_keys();
        }
        slab_len(&self.slots)
    }

    /// Whether nothing is stored.
    pub fn is_empty(&self) -> (b: bool)
        requires
            self.wf(),
        ensures
            b == (self@ == Map::<usize, T>::empty()),
    {
        proof {
            self.lemma_same_keys();
            if self@.dom().len() == 0 {
                assert(self@ =~= Map::<usize, T>::empty());
            }
        }
        slab_len(&self.slots) == 0
    }

    /// The configured maximum.
    pub fn capacity(&self) -> (n: usize)
        ensures
            n == self.limit(),
    {
        self.limit
    }

    /// Whether a value is stored under `key`.
    pub fn contains(&self, key: usize) -> (b: bool)
        ensures
            b == self@.dom().contains(key),
    {
        slab_contains(&self.slots, key)
    }

    /// Stores `value` under a key that was free and returns the key. At the
    /// configured maximum nothing is stored and the arena is left unchanged.
    pub fn insert(&mut self, value: T) -> (r: Result<usize, CapacityExceeded>)
        requires
            old(self).wf(),
        ensures
            final(self).wf(),
            final(self).limit() == old(self).limit(),
            r is Err <==> old(self)@.dom().len() == old(self).limit(),
            r is Err ==> final(self)@ == old(self)@ && final(self).links() == old(self).links(),
            r matches Ok(key) ==> {
                &&& !old(self)@.dom().contains(key)
                &&& final(self)@ == old(self)@.insert(key, value)
                &&& final(self).links() == old(self).links().insert(key, Link::unlinked())
            },
    {
        proof {
            self.lemma_same_keys();
        }
        if slab_len(&self.slots) == self.limit {
            return Err(CapacityExceeded);
        }
        let ghost before = self.values@;
        let key = slab_insert(&mut self.slots, Link { prev: None, next: None });
        let ghost slots = self.slots;
        while self.values.len() <= key
            invariant
                self.slots == slots,
                self.limit == old(self).limit,
                before.len() <= self.values@.len(),
                forall|i: int| 0 <= i < before.len() ==> self.values@[i] == before[i],
            decreases key + 1 - self.values.len(),
        {
            self.values.push(None);
        }
        self.values.set(key, Some(value));
        proof {
            assert(self@ =~= old(self)@.insert(key, value));
        }
        Ok(key)
    }

    /// The value stored under `key`, if any.
    pub fn get(&self, key: usize) -> (r: Option<&T>)
        requires
            self.wf(),
        ensures
            r matches Some(v) ==> self@.dom().contains(key) && *v == self@[key],
            r is None <==> !self@.dom().contains(key),
    {
        if slab_contains(&self.slots, key) {
            self.values[key].as_ref()
        } else {
            None
        }
    }

    /// Mutable access to the value stored under `key`.
    pub fn get_mut(&mut self, key: usize) -> (value: &mut T)
        requires
            old(self).wf(),
            old(self)@.dom().contains(key),
        ensures
            *value == old(self)@[key],
            final(self).wf(),
            final(self).limit() == old(self).limit(),
            final(self).links() == old(self).links(),
            final(self)@ =~= old(self)@.insert(key, *final(value)),
    {
        let slot = &mut self.values[key];
        match slot {
            Some(value) => value,
            None => vstd::pervasive::unreached(),
        }
    }

    /// Replaces the value stored under `key` and returns the old one.
    pub fn replace(&mut self, key: usize, value: T) -> (prior: T)
        requires
            old(self).wf(),
            old(self)@.dom().contains(key),
        ensures
            final(self).wf(),
            final(self).limit() == old(self).limit(),
            final(self).links() == old(self).links(),
            final(self)@ == old(self)@.insert(key, value),
            prior == old(self)@[key],
    {
        let mut slot = Some(value);
        std::mem::swap(&mut slot, &mut self.values[key]);
        proof {
            assert(self@ =~= old(self)@.insert(key, value));
        }
        slot.unwrap()
    }

    /// Removes the value stored under `key`, freeing the key for reuse. No
    /// other value changes its key.
    pub fn remove(&mut self, key: usize) -> (value: T)
        requires
            old(self).wf(),
            old(self)@.dom().contains(key),
        ensures
            final(self).wf(),
            final(self).limit() == old(self).limit(),
            final(self)@ == old(self)@.remove(key),
            final(self).links() == old(self).links().remove(key),
            value == old(self)@[key],
    {
        let _ = slab_remove(&mut self.slots, key);
        let mut slot = None;
        std::mem::swap(&mut slot, &mut self.values[key]);
        proof {
            assert(self@ =~= old(self)@.remove(key));
        }
        slot.unwrap()
    }

    /// The list link stored in the slot under `key`.
    pub fn link(&self, key: usize) -> (l: Link)
        requires
            self@.dom().contains(key),
        ensures
            l == self.links()[key],
    {
        slab_get(&self.slots, key).unwrap()
    }

    /// Overwrites the list link stored in the slot under `key`.
    pub fn set_link(&mut self, key: usize, link: Link)
        requires
            old(self).wf(),
            old(self)@.dom().contains(key),
        ensures
            final(self).wf(),
            final(self).limit() == old(self).limit(),
            final(self)@ == old(self)@,
            final(self).links() == old(self).links().insert(key, link),
    {
        slab_set(&mut self.slots, key, link);
        proof {
            assert(slab_links(self.slots).dom() =~= slab_links(old(self).slots).dom());
            assert(self@ =~= old(self)@);
        }
    }

    /// The keys in use, in ascending order.
    pub fn keys(&self) -> (keys: Vec<usize>)
        ensures
            forall|i: int, j: int| 0 <= i < j < keys@.len() ==> keys@[i] < keys@[j],
            forall|k: usize| keys@.contains(k) <==> self@.dom().contains(k),
    {
        slab_keys(&self.slots)
    }
}

} // verus!
