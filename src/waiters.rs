use vstd::prelude::*;

verus! {

/// Index that links to no slot.
pub const NONE: usize = usize::MAX;

/// A linked waiter: its item and its neighbours in the queue.
pub struct Node<T> {
    pub item: T,
    pub prev: usize,
    pub next: usize,
}

/// One slot of the list. A `Consumed` slot was taken off the queue but still belongs to
/// the caller that registered it; a `Vacant` slot links to the next free one.
pub enum Entry<T> {
    Vacant(usize),
    Consumed,
    Occupied(Node<T>),
}

/// What a slot holds, without its links.
pub enum SlotState<T> {
    Vacant,
    Consumed,
    Waiting(T),
}

pub open spec fn slot_state<T>(e: Entry<T>) -> SlotState<T> {
    match e {
        Entry::Vacant(_) => SlotState::Vacant,
        Entry::Consumed => SlotState::Consumed,
        Entry::Occupied(n) => SlotState::Waiting(n.item),
    }
}

pub open spec fn node_of<T>(e: Entry<T>) -> Node<T> {
    match e {
        Entry::Occupied(n) => n,
        _ => arbitrary(),
    }
}

/// A slotted list of waiters: the occupied slots form a FIFO queue, linked both ways from
/// `root` to `tail`, and the vacant slots a free list from `free`.
pub struct Waiters<T> {
    entries: Vec<Entry<T>>,
    root: usize,
    tail: usize,
    free: usize,
    len: usize,
    occupied_len: usize,
    queue: Ghost<Seq<usize>>,
    free_list: Ghost<Seq<usize>>,
}

impl<T> Waiters<T> {
    /// Slot indices of the waiting items, first to be woken first.
    pub closed spec fn queue(&self) -> Seq<usize> {
        self.queue@
    }

    /// Vacant slot indices, in the order in which `append` will reuse them.
    pub closed spec fn free_list(&self) -> Seq<usize> {
        self.free_list@
    }

    pub closed spec fn slots(&self) -> Seq<SlotState<T>> {
        self.entries@.map_values(|e: Entry<T>| slot_state(e))
    }

    /// Number of slots that are not vacant.
    pub closed spec fn spec_len(&self) -> nat {
        self.len as nat
    }

    closed spec fn queue_links(&self) -> bool {
        links_ok(self.entries@, self.queue@)
    }

    closed spec fn free_links(&self) -> bool {
        free_ok(self.entries@, self.free_list@)
    }

    pub closed spec fn wf(&self) -> bool {
        let q = self.queue@;
        let f = self.free_list@;
        let e = self.entries@;
        &&& e.len() < NONE
        &&& self.occupied_len == q.len()
        &&& self.len + f.len() == e.len()
        &&& self.root == (if q.len() == 0 {
            NONE
        } else {
            q[0]
        })
        &&& self.tail == (if q.len() == 0 {
            NONE
        } else {
            q.last()
        })
        &&& self.free == (if f.len() == 0 {
            e.len() as usize
        } else {
            f[0]
        })
        &&& q.no_duplicates()
        &&& f.no_duplicates()
        &&& self.queue_links()
        &&& self.free_links()
        &&& covered(e, q, f)
    }

    pub fn new() -> (r: Waiters<T>)
        ensures
            r.wf(),
            r.queue() == Seq::<usize>::empty(),
            r.slots() == Seq::<SlotState<T>>::empty(),
            r.spec_len() == 0,
    {
        proof {
            reveal(links_ok);
            reveal(free_ok);
            reveal(covered);
        }
        let r = Waiters {
            entries: Vec::new(),
            root: NONE,
            tail: NONE,
            free: 0,
            len: 0,
            occupied_len: 0,
            queue: Ghost(Seq::empty()),
            free_list: Ghost(Seq::empty()),
        };
        assert(r.slots() =~= Seq::<SlotState<T>>::empty());
        r
    }

    /// Number of slots that are not vacant: waiting or consumed.
    pub fn len(&self) -> (r: usize)
        ensures
            r == self.spec_len(),
    {
        self.len
    }

    /// Number of waiting items.
    pub fn occupied_len(&self) -> (r: usize)
        requires
            self.wf(),
        ensures
            r == self.queue().len(),
    {
        self.occupied_len
    }

    /// Whether `idx` is a slot that holds a waiting item.
    pub fn is_waiting(&self, idx: usize) -> (r: bool)
        ensures
            r == (idx < self.slots().len() && self.slots()[idx as int] is Waiting),
    {
        if idx < self.entries.len() {
            match &self.entries[idx] {
                Entry::Occupied(_) => true,
                _ => false,
            }
        } else {
            false
        }
    }

    pub open spec fn is_held_spec(&self, idx: usize) -> bool {
        idx != NONE && idx < self.slots().len() && !(self.slots()[idx as int] is Vacant)
    }

    /// Whether `idx` is a slot that is not vacant, waiting or consumed.
    pub fn is_held(&self, idx: usize) -> (r: bool)
        ensures
            r == (idx < self.slots().len() && !(self.slots()[idx as int] is Vacant)),
    {
        if idx < self.entries.len() {
            match &self.entries[idx] {
                Entry::Vacant(_) => false,
                _ => true,
            }
        } else {
            false
        }
    }

    /// Sets one link of the occupied slot `key`.
    fn relink(entries: &mut Vec<Entry<T>>, key: usize, set_prev: bool, v: usize)
        requires
            key < old(entries)@.len(),
            old(entries)@[key as int] is Occupied,
        ensures
            final(entries)@ == old(entries)@.update(
                key as int,
                Entry::Occupied(
                    (Node {
                        item: node_of(old(entries)@[key as int]).item,
                        prev: if set_prev {
                            v
                        } else {
                            node_of(old(entries)@[key as int]).prev
                        },
                        next: if set_prev {
                            node_of(old(entries)@[key as int]).next
                        } else {
                            v
                        },
                    }),
                ),
            ),
    {
        let mut e = Entry::Consumed;
        entries.set_and_swap(key, &mut e);
        let mut e2 = match e {
            Entry::Occupied(node) => {
                if set_prev {
                    Entry::Occupied(Node { item: node.item, prev: v, next: node.next })
                } else {
                    Entry::Occupied(Node { item: node.item, prev: node.prev, next: v })
                }
            },
            other => other,
        };
        entries.set_and_swap(key, &mut e2);
    }

    /// Takes the first waiting item off the queue; its slot stays with its owner, consumed.
    pub fn consume(&mut self) -> (r: Option<T>)
        requires
            old(self).wf(),
        ensures
            final(self).wf(),
            final(self).spec_len() == old(self).spec_len(),
            final(self).free_list() == old(self).free_list(),
            old(self).queue().len() == 0 ==> r.is_none() && final(self).queue() == old(
                self,
            ).queue() && final(self).slots() == old(self).slots(),
            old(self).queue().len() > 0 ==> {
                let k = old(self).queue()[0] as int;
                &&& r == Some(old(self).slots()[k]->Waiting_0)
                &&& final(self).queue() == old(self).queue().drop_first()
                &&& final(self).slots() == old(self).slots().update(k, SlotState::Consumed)
            },
    {
        proof {
            reveal(links_ok);
            reveal(free_ok);
            reveal(covered);
        }
        if self.root == NONE {
            return None;
        }
        let ghost q = self.queue@;
        let ghost e0 = self.entries@;
        let key = self.root;
        assert(q[0] == key);
        self.occupied_len = self.occupied_len - 1;
        let mut entry = Entry::Consumed;
        self.entries.set_and_swap(key, &mut entry);
        let item = match entry {
            Entry::Occupied(node) => {
                if self.tail == key {
                    assert(q.len() == 1) by {
                        if q.len() > 1 {
                            assert(q[q.len() - 1] == q[0]);
                        }
                    }
                    self.tail = NONE;
                    self.root = NONE;
                } else {
                    assert(q.len() > 1);
                    self.root = node.next;
                    assert(self.root == q[1]);
                    assert(q[1] != key);
                    Self::relink(&mut self.entries, self.root, true, NONE);
                }
                node.item
            },
            _ => {
                assert(false);
                return None;
            },
        };
        self.queue = Ghost(q.drop_first());
        proof {
            let nq = q.drop_first();
            let e = self.entries@;
            assert(e.len() == e0.len());
            assert forall|i: int| 0 <= i < nq.len() implies {
                &&& #[trigger] nq[i] < e.len()
                &&& e[nq[i] as int] is Occupied
                &&& node_of(e[nq[i] as int]).prev == (if i == 0 {
                    NONE
                } else {
                    nq[i - 1]
                })
                &&& node_of(e[nq[i] as int]).next == (if i + 1 == nq.len() {
                    NONE
                } else {
                    nq[i + 1]
                })
            } by {
                assert(nq[i] == q[i + 1]);
                assert(q[i + 1] != q[0]);
            }
            assert forall|i: int| 0 <= i < self.free_list@.len() implies #[trigger] self.free_list@[i]
                < e.len() && e[self.free_list@[i] as int] == Entry::<T>::Vacant(
                if i + 1 == self.free_list@.len() {
                    e.len() as usize
                } else {
                    self.free_list@[i + 1]
                },
            ) by {
                assert(e0[self.free_list@[i] as int] is Vacant);
            }
            assert forall|j: int| 0 <= j < e.len() && #[trigger] e[j] is Occupied implies nq.contains(
                j as usize,
            ) by {
                assert(e0[j] is Occupied);
                let p = choose|p: int| 0 <= p < q.len() && q[p] == j as usize;
                assert(p != 0);
                assert(nq[p - 1] == j as usize);
            }
            assert forall|j: int| 0 <= j < e.len() && #[trigger] e[j] is Vacant implies self.free_list@.contains(
                j as usize,
            ) by {
                assert(e0[j] is Vacant);
            }
            assert(nq.no_duplicates()) by {
                assert forall|a: int, b: int| 0 <= a < b < nq.len() implies nq[a] != nq[b] by {
                    assert(nq[a] == q[a + 1] && nq[b] == q[b + 1]);
                }
            }
            assert(self.slots() =~= old(self).slots().update(key as int, SlotState::Consumed));
        }
        Some(item)
    }

    /// Puts `val` at the tail of the queue, in the first free slot, or in a new one.
    pub fn append(&mut self, val: T) -> (idx: usize)
        requires
            old(self).wf(),
            old(self).spec_len() + 1 < NONE,
        ensures
            final(self).wf(),
            final(self).spec_len() == old(self).spec_len() + 1,
            final(self).queue() == old(self).queue().push(idx),
            old(self).free_list().len() == 0 ==> {
                &&& idx == old(self).slots().len()
                &&& final(self).slots() == old(self).slots().push(SlotState::Waiting(val))
                &&& final(self).free_list() == old(self).free_list()
            },
            old(self).free_list().len() > 0 ==> {
                &&& idx == old(self).free_list()[0]
                &&& final(self).slots() == old(self).slots().update(
                    idx as int,
                    SlotState::Waiting(val),
                )
                &&& final(self).free_list() == old(self).free_list().drop_first()
            },
    {
        proof {
            reveal(links_ok);
            reveal(free_ok);
            reveal(covered);
        }
        let ghost q = self.queue@;
        let ghost f = self.free_list@;
        let ghost e0 = self.entries@;
        proof {
            lemma_nodup_len(q, e0.len());
        }
        let idx = self.free;
        self.len = self.len + 1;
        self.occupied_len = self.occupied_len + 1;
        if self.root == NONE {
            self.root = idx;
        }
        let prev = self.tail;
        if prev != NONE {
            assert(q.last() == q[q.len() - 1]);
            Self::relink(&mut self.entries, prev, false, idx);
        }
        if idx == self.entries.len() {
            self.entries.push(Entry::Occupied(Node { item: val, prev, next: NONE }));
            self.free = idx + 1;
        } else {
            assert(f.len() > 0 && f[0] == idx);
            let mut e = Entry::Occupied(Node { item: val, prev, next: NONE });
            self.entries.set_and_swap(idx, &mut e);
            match e {
                Entry::Vacant(next) => {
                    self.free = next;
                },
                _ => {
                    assert(false);
                },
            }
            self.free_list = Ghost(f.drop_first());
        }
        self.tail = idx;
        let ghost nq = q.push(idx);
        self.queue = Ghost(nq);
        proof {
            let e = self.entries@;
            let nf = self.free_list@;
            assert(!q.contains(idx)) by {
                if q.contains(idx) {
                    let p = choose|p: int| 0 <= p < q.len() && q[p] == idx;
                    assert(e0[idx as int] is Occupied);
                }
            }
            assert forall|i: int| 0 <= i < nq.len() implies {
                &&& #[trigger] nq[i] < e.len()
                &&& e[nq[i] as int] is Occupied
                &&& node_of(e[nq[i] as int]).prev == (if i == 0 {
                    NONE
                } else {
                    nq[i - 1]
                })
                &&& node_of(e[nq[i] as int]).next == (if i + 1 == nq.len() {
                    NONE
                } else {
                    nq[i + 1]
                })
            } by {
                if i < q.len() {
                    assert(nq[i] == q[i]);
                    assert(q[i] != idx);
                }
            }
            assert forall|i: int| 0 <= i < nf.len() implies #[trigger] nf[i] < e.len() && e[nf[i]
                as int] == Entry::<T>::Vacant(
                if i + 1 == nf.len() {
                    e.len() as usize
                } else {
                    nf[i + 1]
                },
            ) by {
                assert(nf[i] == f[i + 1]);
                assert(f[i + 1] != f[0]);
                assert(e0[f[i + 1] as int] is Vacant);
            }
            assert forall|j: int| 0 <= j < e.len() && #[trigger] e[j] is Occupied implies nq.contains(
                j as usize,
            ) by {
                if j != idx as int {
                    assert(e0[j] is Occupied);
                    let p = choose|p: int| 0 <= p < q.len() && q[p] == j as usize;
                    assert(nq[p] == j as usize);
                } else {
                    assert(nq[q.len() as int] == idx);
                }
            }
            assert forall|j: int| 0 <= j < e.len() && #[trigger] e[j] is Vacant implies nf.contains(
                j as usize,
            ) by {
                assert(e0[j] is Vacant);
                let p = choose|p: int| 0 <= p < f.len() && f[p] == j as usize;
                assert(p != 0);
                assert(nf[p - 1] == j as usize);
            }
            assert(nq.no_duplicates());
            assert(nf.no_duplicates()) by {
                assert forall|a: int, b: int| 0 <= a < b < nf.len() implies nf[a] != nf[b] by {
                    assert(nf[a] == f[a + 1] && nf[b] == f[b + 1]);
                }
            }
            if f.len() == 0 {
                assert(self.slots() =~= old(self).slots().push(SlotState::Waiting(val)));
            } else {
                assert(self.slots() =~= old(self).slots().update(idx as int, SlotState::Waiting(val)));
            }
        }
        idx
    }

    /// Gives the slot `idx` a new item. A waiting slot keeps its place in the queue and
    /// `false` comes back; a consumed one joins the tail again and `true` comes back.
    pub fn update(&mut self, idx: usize, val: T) -> (r: bool)
        requires
            old(self).wf(),
            idx < old(self).slots().len(),
            !(old(self).slots()[idx as int] is Vacant),
        ensures
            final(self).wf(),
            final(self).spec_len() == old(self).spec_len(),
            final(self).free_list() == old(self).free_list(),
            final(self).slots() == old(self).slots().update(idx as int, SlotState::Waiting(val)),
            r == (old(self).slots()[idx as int] is Consumed),
            r ==> final(self).queue() == old(self).queue().push(idx),
            !r ==> final(self).queue() == old(self).queue(),
    {
        proof {
            reveal(links_ok);
            reveal(free_ok);
            reveal(covered);
        }
        let ghost q = self.queue@;
        let ghost f = self.free_list@;
        let ghost e0 = self.entries@;
        proof {
            lemma_nodup_len(q, e0.len());
        }
        let mut e = Entry::Consumed;
        self.entries.set_and_swap(idx, &mut e);
        match e {
            Entry::Occupied(node) => {
                let mut ne = Entry::Occupied(Node { item: val, prev: node.prev, next: node.next });
                self.entries.set_and_swap(idx, &mut ne);
                proof {
                    let e = self.entries@;
                    assert forall|i: int| 0 <= i < q.len() implies {
                        &&& #[trigger] q[i] < e.len()
                        &&& e[q[i] as int] is Occupied
                        &&& node_of(e[q[i] as int]).prev == (if i == 0 {
                            NONE
                        } else {
                            q[i - 1]
                        })
                        &&& node_of(e[q[i] as int]).next == (if i + 1 == q.len() {
                            NONE
                        } else {
                            q[i + 1]
                        })
                    } by {}
                    assert forall|i: int| 0 <= i < f.len() implies #[trigger] f[i] < e.len() && e[f[i]
                        as int] == Entry::<T>::Vacant(
                        if i + 1 == f.len() {
                            e.len() as usize
                        } else {
                            f[i + 1]
                        },
                    ) by {
                        assert(e0[f[i] as int] is Vacant);
                    }
                    assert forall|j: int| 0 <= j < e.len() && #[trigger] e[j] is Occupied implies q.contains(
                        j as usize,
                    ) by {
                        assert(e0[j] is Occupied);
                    }
                    assert forall|j: int| 0 <= j < e.len() && #[trigger] e[j] is Vacant implies f.contains(
                        j as usize,
                    ) by {
                        assert(e0[j] is Vacant);
                    }
                    assert(self.slots() =~= old(self).slots().update(idx as int, SlotState::Waiting(val)));
                }
                false
            },
            Entry::Consumed => {
                assert(!q.contains(idx)) by {
                    if q.contains(idx) {
                        let p = choose|p: int| 0 <= p < q.len() && q[p] == idx;
                    }
                }
                self.occupied_len = self.occupied_len + 1;
                if self.root == NONE {
                    self.root = idx;
                }
                let prev = self.tail;
                if prev != NONE {
                    assert(q.last() == q[q.len() - 1]);
                    Self::relink(&mut self.entries, prev, false, idx);
                }
                self.entries.set(idx, Entry::Occupied(Node { item: val, prev, next: NONE }));
                self.tail = idx;
                let ghost nq = q.push(idx);
                self.queue = Ghost(nq);
                proof {
                    let e = self.entries@;
                    assert forall|i: int| 0 <= i < nq.len() implies {
                        &&& #[trigger] nq[i] < e.len()
                        &&& e[nq[i] as int] is Occupied
                        &&& node_of(e[nq[i] as int]).prev == (if i == 0 {
                            NONE
                        } else {
                            nq[i - 1]
                        })
                        &&& node_of(e[nq[i] as int]).next == (if i + 1 == nq.len() {
                            NONE
                        } else {
                            nq[i + 1]
                        })
                    } by {
                        if i < q.len() {
                            assert(nq[i] == q[i]);
                            assert(q[i] != idx);
                        }
                    }
                    assert forall|i: int| 0 <= i < f.len() implies #[trigger] f[i] < e.len() && e[f[i]
                        as int] == Entry::<T>::Vacant(
                        if i + 1 == f.len() {
                            e.len() as usize
                        } else {
                            f[i + 1]
                        },
                    ) by {
                        assert(e0[f[i] as int] is Vacant);
                    }
                    assert forall|j: int| 0 <= j < e.len() && #[trigger] e[j] is Occupied implies nq.contains(
                        j as usize,
                    ) by {
                        if j != idx as int {
                            assert(e0[j] is Occupied);
                            let p = choose|p: int| 0 <= p < q.len() && q[p] == j as usize;
                            assert(nq[p] == j as usize);
                        } else {
                            assert(nq[q.len() as int] == idx);
                        }
                    }
                    assert forall|j: int| 0 <= j < e.len() && #[trigger] e[j] is Vacant implies f.contains(
                        j as usize,
                    ) by {
                        assert(e0[j] is Vacant);
                    }
                    assert(nq.no_duplicates());
                    assert(self.slots() =~= old(self).slots().update(idx as int, SlotState::Waiting(val)));
                }
                true
            },
            Entry::Vacant(_) => {
                assert(false);
                false
            },
        }
    }

    /// What well-formedness gives a caller: the queue holds exactly the waiting slots, once each.
    pub proof fn lemma_queue_facts(&self)
        requires
            self.wf(),
        ensures
            self.queue().no_duplicates(),
            self.queue().len() <= self.spec_len(),
            self.spec_len() < NONE,
            self.slots().len() < NONE,
            forall|i: int|
                0 <= i < self.queue().len() ==> #[trigger] self.queue()[i] < self.slots().len()
                    && self.slots()[self.queue()[i] as int] is Waiting,
            forall|j: int|
                0 <= j < self.slots().len() && #[trigger] self.slots()[j] is Waiting
                    ==> self.queue().contains(j as usize),
            forall|j: int|
                0 <= j < self.free_list().len() ==> #[trigger] self.free_list()[j]
                    < self.slots().len() && self.slots()[self.free_list()[j] as int] is Vacant,
    {
        reveal(links_ok);
        reveal(free_ok);
        reveal(covered);
        let q = self.queue@;
        let f = self.free_list@;
        let e = self.entries@;
        assert forall|j: int|
            0 <= j < self.slots().len() && #[trigger] self.slots()[j] is Waiting implies q.contains(
            j as usize,
        ) by {
            assert(e[j] is Occupied);
        }
        assert forall|j: int| 0 <= j < f.len() implies #[trigger] f[j] < self.slots().len()
            && self.slots()[f[j] as int] is Vacant by {
            assert(e[f[j] as int] is Vacant);
        }
        self.lemma_counts();
    }

    proof fn lemma_counts(&self)
        requires
            self.wf(),
        ensures
            self.queue@.len() + self.free_list@.len() <= self.entries@.len(),
    {
        reveal(links_ok);
        reveal(free_ok);
        reveal(covered);
        let q = self.queue@;
        let f = self.free_list@;
        let e = self.entries@;
        let qf = q + f;
        assert forall|i: int| 0 <= i < qf.len() implies #[trigger] qf[i] < e.len() by {
            if i < q.len() {
                assert(qf[i] == q[i]);
            } else {
                assert(qf[i] == f[i - q.len()]);
            }
        }
        assert(qf.no_duplicates()) by {
            assert forall|a: int, b: int| 0 <= a < b < qf.len() implies qf[a] != qf[b] by {
                if a < q.len() && b >= q.len() {
                    assert(qf[a] == q[a]);
                    assert(qf[b] == f[b - q.len()]);
                    assert(e[q[a] as int] is Occupied);
                    assert(e[f[b - q.len()] as int] is Vacant);
                } else if a < q.len() {
                    assert(qf[a] == q[a] && qf[b] == q[b]);
                } else {
                    assert(qf[a] == f[a - q.len()] && qf[b] == f[b - q.len()]);
                }
            }
        }
        lemma_nodup_len(qf, e.len());
    }

    /// Gives the slot `key` up: it leaves the queue if it was waiting, and becomes the head
    /// of the free list. Once no slot is held, storage beyond 128 slots is let go.
    pub fn remove(&mut self, key: usize)
        requires
            old(self).wf(),
            key < old(self).slots().len() ==> !(old(self).slots()[key as int] is Vacant),
        ensures
            final(self).wf(),
            key >= old(self).slots().len() ==> {
                &&& final(self).queue() == old(self).queue()
                &&& final(self).slots() == old(self).slots()
                &&& final(self).free_list() == old(self).free_list()
                &&& final(self).spec_len() == old(self).spec_len()
            },
            key < old(self).slots().len() ==> slot_given_up(*old(self), *final(self), key),
    {
        if key >= self.entries.len() {
            return;
        }
        self.vacate(key);
        proof {
            self.lemma_queue_facts();
        }
        if self.len == 0 && self.entries.len() > 128 {
            let ghost q = old(self).queue();
            self.shrink();
            proof {
                if q.contains(key) {
                    let p = choose|p: int|
                        0 <= p < q.len() && q[p] == key && self.queue() == q.remove(p);
                    assert(self.queue() =~= q.remove(p));
                }
            }
        }
    }

    #[verifier::spinoff_prover]
    #[verifier::rlimit(100)]
    fn vacate(&mut self, key: usize)
        requires
            old(self).wf(),
            key < old(self).slots().len(),
            !(old(self).slots()[key as int] is Vacant),
        ensures
            final(self).wf(),
            final(self).spec_len() + 1 == old(self).spec_len(),
            !old(self).queue().contains(key) ==> final(self).queue() == old(self).queue(),
            old(self).queue().contains(key) ==> exists|p: int|
                0 <= p < old(self).queue().len() && old(self).queue()[p] == key
                    && final(self).queue() == old(self).queue().remove(p),
            final(self).slots() == old(self).slots().update(key as int, SlotState::Vacant),
            final(self).free_list() == seq![key] + old(self).free_list(),
    {
        let ghost q = self.queue@;
        let ghost f = self.free_list@;
        let ghost e0 = self.entries@;
        proof {
            reveal(free_ok);
            self.lemma_counts();
            assert(!f.contains(key)) by {
                if f.contains(key) {
                    let p = choose|p: int| 0 <= p < f.len() && f[p] == key;
                    assert(e0[key as int] is Vacant);
                    assert(old(self).slots()[key as int] is Vacant);
                }
            }
            let fk = f.push(key);
            assert forall|i: int| 0 <= i < fk.len() implies #[trigger] fk[i] < e0.len() by {
                if i < f.len() {
                    assert(fk[i] == f[i]);
                }
            }
            lemma_nodup_len(fk, e0.len());
        }
        let mut entry = Entry::Vacant(self.free);
        self.entries.set_and_swap(key, &mut entry);
        self.len = self.len - 1;
        self.free = key;
        let ghost nf = seq![key] + f;
        self.free_list = Ghost(nf);
        let ghost mut nq = q;
        match entry {
            Entry::Occupied(node) => {
                let ghost p = lemma_position(e0, q, f, key);
                self.occupied_len = self.occupied_len - 1;
                if node.prev != NONE {
                    assert(p > 0 && q[p - 1] == node.prev);
                    assert(q[p - 1] != key);
                    Self::relink(&mut self.entries, node.prev, false, node.next);
                } else {
                    assert(p == 0);
                    self.root = node.next;
                }
                if node.next != NONE {
                    assert(p + 1 < q.len() && q[p + 1] == node.next);
                    assert(q[p + 1] != key);
                    assert(p > 0 ==> q[p + 1] != q[p - 1]);
                    Self::relink(&mut self.entries, node.next, true, node.prev);
                } else {
                    assert(p + 1 == q.len());
                    self.tail = node.prev;
                }
                proof {
                    nq = q.remove(p);
                    lemma_unlinked(e0, self.entries@, q, f, p, key);
                }
                self.queue = Ghost(nq);
            },
            Entry::Consumed => {
                proof {
                    lemma_vacated(e0, self.entries@, q, f, key);
                }
            },
            Entry::Vacant(_) => {
                assert(false);
            },
        }
        proof {
            assert(nf.no_duplicates());
            assert(self.slots() =~= old(self).slots().update(key as int, SlotState::Vacant));
            self.lemma_counts();
        }
    }

    /// Lets storage beyond 128 slots go once no slot is held, and links the 128 kept slots
    /// as the free list in order.
    fn shrink(&mut self)
        requires
            old(self).wf(),
            old(self).spec_len() == 0,
            old(self).slots().len() > 128,
        ensures
            final(self).wf(),
            final(self).spec_len() == 0,
            final(self).queue().len() == 0,
            final(self).slots() == Seq::new(128, |i: int| SlotState::<T>::Vacant),
            final(self).free_list() == Seq::new(128, |i: int| i as usize),
            final(self).queue() == old(self).queue(),
    {
        proof {
            self.lemma_counts();
            assert(self.queue@.len() == 0);
        }
        self.entries.truncate(128);
        let mut i: usize = 0;
        while i < 128
            invariant
                0 <= i <= 128,
                self.entries@.len() == 128,
                self.queue@.len() == 0,
                self.len == 0,
                self.occupied_len == 0,
                self.root == NONE,
                self.tail == NONE,
                forall|j: int| 0 <= j < i ==> #[trigger] self.entries@[j] == Entry::<T>::Vacant(
                    (j + 1) as usize,
                ),
            decreases 128 - i,
        {
            self.entries.set(i, Entry::Vacant(i + 1));
            i = i + 1;
        }
        self.free = 0;
        self.free_list = Ghost(Seq::new(128, |i: int| i as usize));
        proof {
            lemma_fresh_free(self.entries@, self.queue@);
            assert(self.slots() =~= Seq::new(128, |i: int| SlotState::<T>::Vacant));
        }
    }
}

/// Slots that each link to the next, all vacant, form a free list in index order.
proof fn lemma_fresh_free<T>(e: Seq<Entry<T>>, q: Seq<usize>)
    requires
        e.len() == 128,
        q.len() == 0,
        forall|j: int| 0 <= j < 128 ==> #[trigger] e[j] == Entry::<T>::Vacant((j + 1) as usize),
    ensures
        links_ok(e, q),
        free_ok(e, Seq::new(128, |i: int| i as usize)),
        covered(e, q, Seq::new(128, |i: int| i as usize)),
        Seq::new(128, |i: int| i as usize).no_duplicates(),
{
    reveal(links_ok);
    reveal(free_ok);
    reveal(covered);
    let nf2 = Seq::new(128, |i: int| i as usize);
    assert forall|j: int| 0 <= j < e.len() && #[trigger] e[j] is Vacant implies nf2.contains(
        j as usize,
    ) by {
        assert(nf2[j] == j as usize);
    }
}

/// What giving up the held slot `key` does: the slot leaves the queue if it was waiting and
/// becomes vacant at the head of the free list; once no slot is held, storage beyond 128
/// slots goes and the 128 kept slots form the free list in order.
pub open spec fn slot_given_up<T>(before: Waiters<T>, after: Waiters<T>, key: usize) -> bool {
    &&& after.spec_len() + 1 == before.spec_len()
    &&& !before.queue().contains(key) ==> after.queue() == before.queue()
    &&& before.queue().contains(key) ==> exists|p: int|
        0 <= p < before.queue().len() && before.queue()[p] == key && after.queue()
            == before.queue().remove(p)
    &&& (after.spec_len() > 0 || before.slots().len() <= 128) ==> {
        &&& after.slots() == before.slots().update(key as int, SlotState::Vacant)
        &&& after.free_list() == seq![key] + before.free_list()
    }
    &&& (after.spec_len() == 0 && before.slots().len() > 128) ==> {
        &&& after.queue().len() == 0
        &&& after.slots() == Seq::new(128, |i: int| SlotState::<T>::Vacant)
        &&& after.free_list() == Seq::new(128, |i: int| i as usize)
    }
}

/// The queue links that a well-formed list keeps, over plain values.
#[verifier::opaque]
pub open spec fn links_ok<T>(e: Seq<Entry<T>>, q: Seq<usize>) -> bool {
    forall|i: int|
        0 <= i < q.len() ==> {
            &&& #[trigger] q[i] < e.len()
            &&& e[q[i] as int] is Occupied
            &&& node_of(e[q[i] as int]).prev == (if i == 0 {
                NONE
            } else {
                q[i - 1]
            })
            &&& node_of(e[q[i] as int]).next == (if i + 1 == q.len() {
                NONE
            } else {
                q[i + 1]
            })
        }
}

#[verifier::opaque]
pub open spec fn free_ok<T>(e: Seq<Entry<T>>, f: Seq<usize>) -> bool {
    forall|i: int|
        0 <= i < f.len() ==> {
            &&& #[trigger] f[i] < e.len()
            &&& e[f[i] as int] == Entry::<T>::Vacant(
                if i + 1 == f.len() {
                    e.len() as usize
                } else {
                    f[i + 1]
                },
            )
        }
}

#[verifier::opaque]
pub open spec fn covered<T>(e: Seq<Entry<T>>, q: Seq<usize>, f: Seq<usize>) -> bool {
    &&& forall|j: int| 0 <= j < e.len() && #[trigger] e[j] is Occupied ==> q.contains(j as usize)
    &&& forall|j: int| 0 <= j < e.len() && #[trigger] e[j] is Vacant ==> f.contains(j as usize)
}

/// Removing the waiting slot at queue position `p`, with its neighbours linked to each other
/// and the slot pushed on the free list, keeps the links of what remains.
proof fn lemma_unlinked<T>(
    e0: Seq<Entry<T>>,
    e: Seq<Entry<T>>,
    q: Seq<usize>,
    f: Seq<usize>,
    p: int,
    key: usize,
)
    requires
        links_ok(e0, q),
        free_ok(e0, f),
        covered(e0, q, f),
        q.no_duplicates(),
        f.no_duplicates(),
        0 <= p < q.len(),
        q[p] == key,
        e.len() == e0.len(),
        e0.len() < NONE,
        e[key as int] == Entry::<T>::Vacant(
            if f.len() == 0 {
                e0.len() as usize
            } else {
                f[0]
            },
        ),
        forall|j: int|
            0 <= j < e.len() && j != key && (p == 0 || j != q[p - 1]) && (p + 1 == q.len() || j
                != q[p + 1]) ==> #[trigger] e[j] == e0[j],
        p > 0 ==> e[q[p - 1] as int] == Entry::Occupied(
            (Node {
                item: node_of(e0[q[p - 1] as int]).item,
                prev: node_of(e0[q[p - 1] as int]).prev,
                next: if p + 1 == q.len() {
                    NONE
                } else {
                    q[p + 1]
                },
            }),
        ),
        p + 1 < q.len() ==> e[q[p + 1] as int] == Entry::Occupied(
            (Node {
                item: node_of(e0[q[p + 1] as int]).item,
                prev: if p == 0 {
                    NONE
                } else {
                    q[p - 1]
                },
                next: node_of(e0[q[p + 1] as int]).next,
            }),
        ),
    ensures
        links_ok(e, q.remove(p)),
        free_ok(e, seq![key] + f),
        covered(e, q.remove(p), seq![key] + f),
        q.remove(p).no_duplicates(),
        (seq![key] + f).no_duplicates(),
{
    reveal(links_ok);
    reveal(covered);
    lemma_unlinked_links(e0, e, q, f, p, key);
    lemma_unlinked_cover(e0, e, q, f, p, key);
    assert forall|j: int| 0 <= j < e.len() && j != key && #[trigger] e0[j] is Vacant implies e[j]
        == e0[j] by {
        if p > 0 {
            assert(e0[q[p - 1] as int] is Occupied);
        }
        if p + 1 < q.len() {
            assert(e0[q[p + 1] as int] is Occupied);
        }
    }
    assert forall|j: int| 0 <= j < e.len() && j != key && #[trigger] e[j] is Vacant implies e0[j] is Vacant by {
        if p > 0 && j == q[p - 1] {
        } else if p + 1 < q.len() && j == q[p + 1] {
        } else {
            assert(e[j] == e0[j]);
        }
    }
    lemma_pushed_free(e0, e, f, key);
}

#[verifier::spinoff_prover]
#[verifier::rlimit(100)]
proof fn lemma_unlinked_links<T>(
    e0: Seq<Entry<T>>,
    e: Seq<Entry<T>>,
    q: Seq<usize>,
    f: Seq<usize>,
    p: int,
    key: usize,
)
    requires
        links_ok(e0, q),
        free_ok(e0, f),
        covered(e0, q, f),
        q.no_duplicates(),
        0 <= p < q.len(),
        q[p] == key,
        e.len() == e0.len(),
        e0.len() < NONE,
        e[key as int] == Entry::<T>::Vacant(
            if f.len() == 0 {
                e0.len() as usize
            } else {
                f[0]
            },
        ),
        forall|j: int|
            0 <= j < e.len() && j != key && (p == 0 || j != q[p - 1]) && (p + 1 == q.len() || j
                != q[p + 1]) ==> #[trigger] e[j] == e0[j],
        p > 0 ==> e[q[p - 1] as int] == Entry::Occupied(
            (Node {
                item: node_of(e0[q[p - 1] as int]).item,
                prev: node_of(e0[q[p - 1] as int]).prev,
                next: if p + 1 == q.len() {
                    NONE
                } else {
                    q[p + 1]
                },
            }),
        ),
        p + 1 < q.len() ==> e[q[p + 1] as int] == Entry::Occupied(
            (Node {
                item: node_of(e0[q[p + 1] as int]).item,
                prev: if p == 0 {
                    NONE
                } else {
                    q[p - 1]
                },
                next: node_of(e0[q[p + 1] as int]).next,
            }),
        ),
    ensures
        links_ok(e, q.remove(p)),
        q.remove(p).no_duplicates(),
{
    reveal(links_ok);
    reveal(free_ok);
    reveal(covered);
    let nq = q.remove(p);
    assert forall|i: int| 0 <= i < nq.len() implies {
        &&& #[trigger] nq[i] < e.len()
        &&& e[nq[i] as int] is Occupied
        &&& node_of(e[nq[i] as int]).prev == (if i == 0 {
            NONE
        } else {
            nq[i - 1]
        })
        &&& node_of(e[nq[i] as int]).next == (if i + 1 == nq.len() {
            NONE
        } else {
            nq[i + 1]
        })
    } by {
        if i < p {
            assert(nq[i] == q[i]);
            assert(q[i] != key);
            if i + 1 < p {
                assert(nq[i + 1] == q[i + 1]);
                if p + 1 < q.len() {
                    assert(q[i] != q[p + 1]);
                }
            } else if p + 1 < q.len() {
                assert(nq[i + 1] == q[p + 1]);
                assert(q[i] != q[p + 1]);
            }
            if i > 0 {
                assert(nq[i - 1] == q[i - 1]);
            }
            if i + 1 < p {
                assert(q[i] != q[p - 1]);
            }
        } else {
            assert(nq[i] == q[i + 1]);
            assert(q[i + 1] != key);
            if i + 1 < nq.len() {
                assert(nq[i + 1] == q[i + 2]);
            }
            if i == p {
                if p > 0 {
                    assert(nq[i - 1] == q[p - 1]);
                    assert(q[i + 1] != q[p - 1]);
                }
            } else {
                assert(nq[i - 1] == q[i]);
                if p > 0 {
                    assert(q[i + 1] != q[p - 1]);
                }
                assert(q[i + 1] != q[p + 1]);
            }
        }
    }
    assert(nq.no_duplicates()) by {
        assert forall|a: int, b: int| 0 <= a < b < nq.len() implies nq[a] != nq[b] by {
            let qa = if a < p {
                a
            } else {
                a + 1
            };
            let qb = if b < p {
                b
            } else {
                b + 1
            };
            assert(nq[a] == q[qa] && nq[b] == q[qb]);
        }
    }
}

proof fn lemma_pushed_free<T>(e0: Seq<Entry<T>>, e: Seq<Entry<T>>, f: Seq<usize>, key: usize)
    requires
        free_ok(e0, f),
        e.len() == e0.len(),
        e0.len() < NONE,
        key < e0.len(),
        !(e0[key as int] is Vacant),
        f.no_duplicates(),
        e[key as int] == Entry::<T>::Vacant(
            if f.len() == 0 {
                e0.len() as usize
            } else {
                f[0]
            },
        ),
        forall|j: int| 0 <= j < e0.len() && #[trigger] e0[j] is Vacant ==> f.contains(j as usize),
        forall|j: int|
            0 <= j < e.len() && j != key && #[trigger] e0[j] is Vacant ==> e[j] == e0[j],
        forall|j: int|
            0 <= j < e.len() && j != key && #[trigger] e[j] is Vacant ==> e0[j] is Vacant,
    ensures
        free_ok(e, seq![key] + f),
        forall|j: int| 0 <= j < e.len() && #[trigger] e[j] is Vacant ==> (seq![key] + f).contains(
            j as usize,
        ),
        (seq![key] + f).no_duplicates(),
{
    reveal(free_ok);
    let nf = seq![key] + f;
    assert(!f.contains(key)) by {
        if f.contains(key) {
            let r = choose|r: int| 0 <= r < f.len() && f[r] == key;
        }
    }
    assert forall|i: int| 0 <= i < nf.len() implies #[trigger] nf[i] < e.len() && e[nf[i] as int]
        == Entry::<T>::Vacant(
        if i + 1 == nf.len() {
            e.len() as usize
        } else {
            nf[i + 1]
        },
    ) by {
        if i > 0 {
            assert(nf[i] == f[i - 1]);
            assert(e0[f[i - 1] as int] is Vacant);
        }
    }
    assert forall|j: int| 0 <= j < e.len() && #[trigger] e[j] is Vacant implies nf.contains(
        j as usize,
    ) by {
        if j != key as int {
            assert(e0[j] is Vacant);
            let r = choose|r: int| 0 <= r < f.len() && f[r] == j as usize;
            assert(nf[r + 1] == j as usize);
        } else {
            assert(nf[0] == key);
        }
    }
    assert forall|a: int, b: int| 0 <= a < b < nf.len() implies nf[a] != nf[b] by {
        if a == 0 {
            assert(nf[b] == f[b - 1]);
        } else {
            assert(nf[a] == f[a - 1] && nf[b] == f[b - 1]);
        }
    }
}

#[verifier::spinoff_prover]
#[verifier::rlimit(100)]
proof fn lemma_unlinked_cover<T>(
    e0: Seq<Entry<T>>,
    e: Seq<Entry<T>>,
    q: Seq<usize>,
    f: Seq<usize>,
    p: int,
    key: usize,
)
    requires
        links_ok(e0, q),
        free_ok(e0, f),
        covered(e0, q, f),
        q.no_duplicates(),
        0 <= p < q.len(),
        q[p] == key,
        e.len() == e0.len(),
        e0.len() < NONE,
        e[key as int] == Entry::<T>::Vacant(
            if f.len() == 0 {
                e0.len() as usize
            } else {
                f[0]
            },
        ),
        forall|j: int|
            0 <= j < e.len() && j != key && (p == 0 || j != q[p - 1]) && (p + 1 == q.len() || j
                != q[p + 1]) ==> #[trigger] e[j] == e0[j],
        p > 0 ==> e[q[p - 1] as int] == Entry::Occupied(
            (Node {
                item: node_of(e0[q[p - 1] as int]).item,
                prev: node_of(e0[q[p - 1] as int]).prev,
                next: if p + 1 == q.len() {
                    NONE
                } else {
                    q[p + 1]
                },
            }),
        ),
        p + 1 < q.len() ==> e[q[p + 1] as int] == Entry::Occupied(
            (Node {
                item: node_of(e0[q[p + 1] as int]).item,
                prev: if p == 0 {
                    NONE
                } else {
                    q[p - 1]
                },
                next: node_of(e0[q[p + 1] as int]).next,
            }),
        ),
    ensures
        forall|j: int| 0 <= j < e.len() && #[trigger] e[j] is Occupied ==> q.remove(p).contains(
            j as usize,
        ),
{
    reveal(links_ok);
    reveal(covered);
    let nq = q.remove(p);
    assert forall|j: int| 0 <= j < e.len() && #[trigger] e[j] is Occupied implies nq.contains(
        j as usize,
    ) by {
        assert(e0[j] is Occupied);
        let r = choose|r: int| 0 <= r < q.len() && q[r] == j as usize;
        assert(e[key as int] is Vacant);
        assert(j != key as int);
        if r < p {
            assert(nq[r] == j as usize);
        } else if r == p {
            assert(q[p] == key);
            assert(false);
        } else {
            assert(nq[r - 1] == j as usize);
        }
    }
}

/// Vacating a consumed slot and pushing it on the free list keeps the list well linked.
proof fn lemma_vacated<T>(e0: Seq<Entry<T>>, e: Seq<Entry<T>>, q: Seq<usize>, f: Seq<usize>, key: usize)
    requires
        links_ok(e0, q),
        free_ok(e0, f),
        covered(e0, q, f),
        key < e0.len(),
        e0.len() < NONE,
        e0[key as int] is Consumed,
        e == e0.update(
            key as int,
            Entry::<T>::Vacant(
                if f.len() == 0 {
                    e0.len() as usize
                } else {
                    f[0]
                },
            ),
        ),
    ensures
        links_ok(e, q),
        free_ok(e, seq![key] + f),
        covered(e, q, seq![key] + f),
        !q.contains(key),
        !f.contains(key),
{
    reveal(links_ok);
    reveal(free_ok);
    reveal(covered);
    let nf = seq![key] + f;
    assert(!q.contains(key)) by {
        if q.contains(key) {
            let r = choose|r: int| 0 <= r < q.len() && q[r] == key;
        }
    }
    assert(!f.contains(key)) by {
        if f.contains(key) {
            let r = choose|r: int| 0 <= r < f.len() && f[r] == key;
        }
    }
    assert forall|i: int| 0 <= i < q.len() implies {
        &&& #[trigger] q[i] < e.len()
        &&& e[q[i] as int] is Occupied
        &&& node_of(e[q[i] as int]).prev == (if i == 0 {
            NONE
        } else {
            q[i - 1]
        })
        &&& node_of(e[q[i] as int]).next == (if i + 1 == q.len() {
            NONE
        } else {
            q[i + 1]
        })
    } by {
        assert(q[i] != key);
    }
    assert forall|j: int| 0 <= j < e.len() && #[trigger] e[j] is Occupied implies q.contains(
        j as usize,
    ) by {
        assert(e0[j] is Occupied);
    }
    assert forall|i: int| 0 <= i < nf.len() implies #[trigger] nf[i] < e.len() && e[nf[i] as int]
        == Entry::<T>::Vacant(
        if i + 1 == nf.len() {
            e.len() as usize
        } else {
            nf[i + 1]
        },
    ) by {
        if i > 0 {
            assert(nf[i] == f[i - 1]);
        }
    }
    assert forall|j: int| 0 <= j < e.len() && #[trigger] e[j] is Vacant implies nf.contains(
        j as usize,
    ) by {
        if j != key as int {
            assert(e0[j] is Vacant);
            let r = choose|r: int| 0 <= r < f.len() && f[r] == j as usize;
            assert(nf[r + 1] == j as usize);
        } else {
            assert(nf[0] == key);
        }
    }
}

/// Where a waiting slot stands in the queue, and what its neighbours are.
proof fn lemma_position<T>(e0: Seq<Entry<T>>, q: Seq<usize>, f: Seq<usize>, key: usize) -> (p: int)
    requires
        links_ok(e0, q),
        covered(e0, q, f),
        q.no_duplicates(),
        key < e0.len(),
        e0.len() < NONE,
        e0[key as int] is Occupied,
    ensures
        0 <= p < q.len(),
        q[p] == key,
        node_of(e0[key as int]).prev == (if p == 0 {
            NONE
        } else {
            q[p - 1]
        }),
        node_of(e0[key as int]).next == (if p + 1 == q.len() {
            NONE
        } else {
            q[p + 1]
        }),
        p > 0 ==> q[p - 1] < e0.len() && q[p - 1] != key && e0[q[p - 1] as int] is Occupied,
        p + 1 < q.len() ==> q[p + 1] < e0.len() && q[p + 1] != key && e0[q[p + 1] as int] is Occupied,
        p > 0 && p + 1 < q.len() ==> q[p - 1] != q[p + 1],
{
    reveal(links_ok);
    reveal(covered);
    assert(q.contains(key));
    let p = choose|p: int| 0 <= p < q.len() && q[p] == key;
    if p > 0 {
        assert(q[p - 1] < e0.len());
    }
    if p + 1 < q.len() {
        assert(q[p + 1] < e0.len());
    }
    p
}

/// A sequence of distinct indices below `n` has at most `n` entries.
proof fn lemma_nodup_len(q: Seq<usize>, n: nat)
    requires
        q.no_duplicates(),
        forall|i: int| 0 <= i < q.len() ==> #[trigger] q[i] < n,
    ensures
        q.len() <= n,
    decreases n,
{
    if n == 0 {
        if q.len() > 0 {
            assert(q[0] < 0);
        }
    } else if q.contains((n - 1) as usize) {
        let p = choose|p: int| 0 <= p < q.len() && q[p] == (n - 1) as usize;
        let r = q.remove(p);
        assert forall|i: int| 0 <= i < r.len() implies #[trigger] r[i] < n - 1 by {
            if i < p {
                assert(r[i] == q[i]);
            } else {
                assert(r[i] == q[i + 1]);
            }
        }
        assert(r.no_duplicates()) by {
            assert forall|a: int, b: int| 0 <= a < b < r.len() implies r[a] != r[b] by {
                let qa = if a < p {
                    a
                } else {
                    a + 1
                };
                let qb = if b < p {
                    b
                } else {
                    b + 1
                };
                assert(r[a] == q[qa] && r[b] == q[qb]);
            }
        }
        lemma_nodup_len(r, (n - 1) as nat);
    } else {
        assert forall|i: int| 0 <= i < q.len() implies #[trigger] q[i] < n - 1 by {
            assert(q[i] != (n - 1) as usize);
        }
        lemma_nodup_len(q, (n - 1) as nat);
    }
}

} // verus!
