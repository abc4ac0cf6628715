//! An intrusive first-in-first-out queue of arena keys. The links are stored
//! in the arena's slots, so that queueing a key allocates nothing and a key
//! can be taken out of the middle of the queue in constant time.

use crate::arena::{Arena, Link};
use vstd::prelude::*;

verus! {

/// Whether `links` threads the keys of `order` into a doubly linked chain, in
/// that order, and leaves every other slot unlinked.
pub open spec fn threads(order: Seq<usize>, links: Map<usize, Link>) -> bool {
    &&& order.no_duplicates()
    &&& forall|i: int| 0 <= i < order.len() ==> links.dom().contains(#[trigger] order[i])
    &&& forall|i: int|
        0 <= i < order.len() ==> (#[trigger] links[order[i]]).prev == (if i == 0 {
            None
        } else {
            Some(order[i - 1])
        })
    &&& forall|i: int|
        0 <= i < order.len() ==> (#[trigger] links[order[i]]).next == (if i == order.len() - 1 {
            None
        } else {
            Some(order[i + 1])
        })
    &&& forall|k: usize|
        links.dom().contains(k) && !order.contains(k) ==> #[trigger] links[k] == Link::unlinked()
}

/// A slot that is in no queue can be added to or taken from the arena without
/// disturbing the queue.
pub proof fn lemma_threads_frame(order: Seq<usize>, links: Map<usize, Link>, key: usize)
    requires
        threads(order, links),
        !order.contains(key),
    ensures
        threads(order, links.insert(key, Link::unlinked())),
        threads(order, links.remove(key)),
{
    let added = links.insert(key, Link::unlinked());
    let taken = links.remove(key);
    assert forall|i: int| 0 <= i < order.len() implies order[i] != key by {
        assert(order.contains(order[i]));
    }
    assert forall|k: usize| added.dom().contains(k) && !order.contains(k) implies #[trigger] added[k]
        == Link::unlinked() by {
        if k != key {
            assert(links.dom().contains(k));
        }
    }
}

/// The queue's two ends. Its order is the view.
pub struct List {
    head: Option<usize>,
    tail: Option<usize>,
    order: Ghost<Seq<usize>>,
}

impl View for List {
    type V = Seq<usize>;

    /// The queued keys, front first.
    closed spec fn view(&self) -> Seq<usize> {
        self.order@
    }
}

impl List {
    /// The two ends are those of the order.
    pub closed spec fn ends_ok(&self) -> bool {
        &&& self.head == (if self.order@.len() == 0 {
            None
        } else {
            Some(self.order@[0])
        })
        &&& self.tail == (if self.order@.len() == 0 {
            None
        } else {
            Some(self.order@[self.order@.len() - 1])
        })
    }

    /// Well-formedness against the links of the arena that the queue runs
    /// through.
    pub open spec fn wf(&self, links: Map<usize, Link>) -> bool {
        self.ends_ok() && threads(self@, links)
    }

    /// A slot that is not queued can be added to or taken from the arena
    /// without disturbing the queue.
    pub proof fn lemma_wf_frame(&self, links: Map<usize, Link>, key: usize)
        requires
            self.wf(links),
            !self@.contains(key),
        ensures
            self.wf(links.insert(key, Link::unlinked())),
            self.wf(links.remove(key)),
    {
        lemma_threads_frame(self.order@, links, key);
    }

    /// An empty queue. It is well-formed against an arena without slots.
    pub fn new() -> (l: Self)
        ensures
            l@ == Seq::<usize>::empty(),
            l.wf(Map::<usize, Link>::empty()),
    {
        List { head: None, tail: None, order: Ghost(Seq::empty()) }
    }

    /// Whether no key is queued.
    pub fn is_empty(&self) -> (b: bool)
        requires
            self.ends_ok(),
        ensures
            b == (self@.len() == 0),
    {
        self.head.is_none()
    }

    /// The key at the front, if any.
    pub fn front(&self) -> (r: Option<usize>)
        requires
            self.ends_ok(),
        ensures
            r == (if self@.len() == 0 {
                None
            } else {
                Some(self@[0])
            }),
    {
        self.head
    }

    /// Queues `key` at the back.
    pub fn push_back<T>(&mut self, nodes: &mut Arena<T>, key: usize)
        requires
            old(nodes).wf(),
            old(self).wf(old(nodes).links()),
            old(nodes)@.dom().contains(key),
            !old(self)@.contains(key),
        ensures
            final(nodes).wf(),
            final(nodes).limit() == old(nodes).limit(),
            final(nodes)@ == old(nodes)@,
            final(self).wf(final(nodes).links()),
            final(self)@ == old(self)@.push(key),
            forall|k: usize|
                #[trigger] final(self)@.contains(k) <==> old(self)@.contains(k) || k == key,
    {
        let ghost order = self.order@;
        let ghost links = nodes.links();
        proof {
            nodes.lemma_same_keys();
            assert forall|i: int| 0 <= i < order.len() implies order[i] != key by {
                assert(order.contains(order[i]));
            }
        }
        match self.tail {
            Some(last) => {
                assert(last == order[order.len() - 1]);
                let mut l = nodes.link(last);
                l.next = Some(key);
                nodes.set_link(last, l);
                nodes.set_link(key, Link { prev: Some(last), next: None });
            },
            None => {
                nodes.set_link(key, Link { prev: None, next: None });
                self.head = Some(key);
            },
        }
        self.tail = Some(key);
        self.order = Ghost(order.push(key));
        proof {
            let after = order.push(key);
            let now = nodes.links();
            assert(after.no_duplicates());
            assert forall|i: int| 0 <= i < after.len() implies now.dom().contains(
                #[trigger] after[i],
            ) by {
                if i < order.len() {
                    assert(links.dom().contains(order[i]));
                }
            }
            assert forall|i: int| 0 <= i < after.len() implies (#[trigger] now[after[i]]).prev == (
            if i == 0 {
                None
            } else {
                Some(after[i - 1])
            }) by {
                if i < order.len() {
                    assert(links[order[i]].prev == (if i == 0 {
                        None
                    } else {
                        Some(order[i - 1])
                    }));
                }
            }
            assert forall|i: int| 0 <= i < after.len() implies (#[trigger] now[after[i]]).next == (
            if i == after.len() - 1 {
                None
            } else {
                Some(after[i + 1])
            }) by {
                if i < order.len() {
                    assert(links[order[i]].next == (if i == order.len() - 1 {
                        None
                    } else {
                        Some(order[i + 1])
                    }));
                }
            }
            assert forall|k: usize| now.dom().contains(k) && !after.contains(k) implies #[trigger] now[k]
                == Link::unlinked() by {
                assert(after[order.len() as int] == key);
                assert(k != key);
                if order.contains(k) {
                    let i = choose|i: int| 0 <= i < order.len() && order[i] == k;
                    assert(after[i] == k);
                }
                assert(links.dom().contains(k));
            }
            assert forall|k: usize| #[trigger] after.contains(k) <==> order.contains(k) || k
                == key by {
                if order.contains(k) {
                    let i = choose|i: int| 0 <= i < order.len() && order[i] == k;
                    assert(after[i] == k);
                }
                if k == key {
                    assert(after[order.len() as int] == key);
                }
                if after.contains(k) {
                    let i = choose|i: int| 0 <= i < after.len() && after[i] == k;
                    if i < order.len() {
                        assert(order[i] == k);
                    }
                }
            }
        }
    }

    /// Takes `key` out of the queue, wherever it stands. A key that is not
    /// queued leaves the queue as it is.
    pub fn remove<T>(&mut self, nodes: &mut Arena<T>, key: usize)
        requires
            old(nodes).wf(),
            old(self).wf(old(nodes).links()),
            old(nodes)@.dom().contains(key),
        ensures
            final(nodes).wf(),
            final(nodes).limit() == old(nodes).limit(),
            final(nodes)@ == old(nodes)@,
            final(self).wf(final(nodes).links()),
            !final(self)@.contains(key),
            !old(self)@.contains(key) ==> final(self)@ == old(self)@,
            old(self)@.contains(key) ==> final(self)@ == old(self)@.remove(
                old(self)@.index_of(key),
            ),
            forall|k: usize|
                #[trigger] final(self)@.contains(k) <==> old(self)@.contains(k) && k != key,
    {
        let ghost order = self.order@;
        let ghost links = nodes.links();
        proof {
            nodes.lemma_same_keys();
        }
        let l = nodes.link(key);
        let ghost at = order.index_of(key);
        proof {
            if !order.contains(key) {
                assert(l == Link::unlinked());
                if order.len() > 0 {
                    assert(order.contains(order[0]));
                    assert(order.contains(order[order.len() - 1]));
                }
            } else {
                assert(0 <= at < order.len() && order[at] == key);
                assert(links[order[at]].prev == l.prev);
                assert(links[order[at]].next == l.next);
            }
        }
        nodes.set_link(key, Link { prev: None, next: None });
        if let Some(p) = l.prev {
            assert(order.contains(key) && at > 0 && p == order[at - 1]);
            let mut pl = nodes.link(p);
            pl.next = l.next;
            nodes.set_link(p, pl);
        }
        if let Some(n) = l.next {
            assert(order.contains(key) && at < order.len() - 1 && n == order[at + 1]);
            let mut nl = nodes.link(n);
            nl.prev = l.prev;
            nodes.set_link(n, nl);
        }
        if let Some(h) = self.head {
            if h == key {
                self.head = l.next;
            }
        }
        if let Some(t) = self.tail {
            if t == key {
                self.tail = l.prev;
            }
        }
        proof {
            if order.contains(key) {
                let after = order.remove(at);
                let now = nodes.links();
                self.order@ = after;
                assert forall|i: int| 0 <= i < after.len() implies after[i] == (if i < at {
                    order[i]
                } else {
                    order[i + 1]
                }) by {}
                assert forall|i: int, j: int|
                    0 <= i < after.len() && 0 <= j < after.len() && i != j implies after[i]
                    != after[j] by {}
                assert(!after.contains(key));
                assert forall|i: int| 0 <= i < after.len() implies now.dom().contains(
                    #[trigger] after[i],
                ) by {
                    let src = if i < at {
                        i
                    } else {
                        i + 1
                    };
                    assert(links.dom().contains(order[src]));
                }
                assert forall|i: int| 0 <= i < after.len() implies (#[trigger] now[after[i]]).prev
                    == (if i == 0 {
                    None
                } else {
                    Some(after[i - 1])
                }) by {
                    let src = if i < at {
                        i
                    } else {
                        i + 1
                    };
                    assert(links[order[src]].prev == (if src == 0 {
                        None
                    } else {
                        Some(order[src - 1])
                    }));
                }
                assert forall|i: int| 0 <= i < after.len() implies (#[trigger] now[after[i]]).next
                    == (if i == after.len() - 1 {
                    None
                } else {
                    Some(after[i + 1])
                }) by {
                    let src = if i < at {
                        i
                    } else {
                        i + 1
                    };
                    assert(links[order[src]].next == (if src == order.len() - 1 {
                        None
                    } else {
                        Some(order[src + 1])
                    }));
                }
                assert forall|k: usize|
                    now.dom().contains(k) && !after.contains(k) implies #[trigger] now[k]
                    == Link::unlinked() by {
                    if k != key {
                        if order.contains(k) {
                            let i = choose|i: int| 0 <= i < order.len() && order[i] == k;
                            if i < at {
                                assert(after[i] == k);
                            } else {
                                assert(after[i - 1] == k);
                            }
                        }
                        assert(links.dom().contains(k));
                        assert(links[k] == Link::unlinked());
                    }
                }
                assert forall|k: usize| #[trigger] after.contains(k) <==> order.contains(k) && k
                    != key by {
                    if order.contains(k) && k != key {
                        let i = choose|i: int| 0 <= i < order.len() && order[i] == k;
                        if i < at {
                            assert(after[i] == k);
                        } else {
                            assert(after[i - 1] == k);
                        }
                    }
                    if after.contains(k) {
                        let i = choose|i: int| 0 <= i < after.len() && after[i] == k;
                        let src = if i < at {
                            i
                        } else {
                            i + 1
                        };
                        assert(order[src] == k);
                    }
                }
            } else {
                assert(nodes.links() =~= links);
            }
        }
    }

    /// Takes the key at the front out of the queue and returns it.
    pub fn pop_front<T>(&mut self, nodes: &mut Arena<T>) -> (r: Option<usize>)
        requires
            old(nodes).wf(),
            old(self).wf(old(nodes).links()),
        ensures
            final(nodes).wf(),
            final(nodes).limit() == old(nodes).limit(),
            final(nodes)@ == old(nodes)@,
            final(self).wf(final(nodes).links()),
            old(self)@.len() == 0 ==> r is None && final(self)@ == old(self)@,
            old(self)@.len() > 0 ==> r == Some(old(self)@[0]) && final(self)@ == old(self)@.drop_first(),
            forall|k: usize|
                #[trigger] final(self)@.contains(k) <==> old(self)@.contains(k) && r != Some(k),
    {
        match self.head {
            Some(key) => {
                proof {
                    nodes.lemma_same_keys();
                    assert(self.order@.contains(self.order@[0]));
                    let at = self.order@.index_of(key);
                    assert(at == 0);
                    assert(self.order@.remove(0) =~= self.order@.drop_first());
                }
                self.remove(nodes, key);
                Some(key)
            },
            None => None,
        }
    }
}

} // verus!
