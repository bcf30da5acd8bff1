use vstd::prelude::*;

use crate::waiters::{slot_given_up, SlotState, Waiters, NONE};

verus! {

/// Most buffers that each cache keeps.
pub const CACHE_SIZE: usize = 16;

/// Number of pools in a bank.
pub const POOLS: usize = 16;

/// Number of allocation windows.
pub const WINDOWS: usize = 10;

/// Names one of the sixteen pools of a bank; `DEFAULT` is the last.
#[allow(non_camel_case_types)]
#[derive(Clone, Copy, Debug, PartialEq, Eq, Hash, PartialOrd, Ord, Structural)]
pub enum PoolId {
    P0,
    P1,
    P2,
    P3,
    P4,
    P5,
    P6,
    P7,
    P8,
    P9,
    P10,
    P11,
    P12,
    P13,
    P14,
    DEFAULT,
}

impl PoolId {
    pub open spec fn index(self) -> int {
        match self {
            PoolId::P0 => 0,
            PoolId::P1 => 1,
            PoolId::P2 => 2,
            PoolId::P3 => 3,
            PoolId::P4 => 4,
            PoolId::P5 => 5,
            PoolId::P6 => 6,
            PoolId::P7 => 7,
            PoolId::P8 => 8,
            PoolId::P9 => 9,
            PoolId::P10 => 10,
            PoolId::P11 => 11,
            PoolId::P12 => 12,
            PoolId::P13 => 13,
            PoolId::P14 => 14,
            PoolId::DEFAULT => 15,
        }
    }

    /// Position of the pool in its bank.
    pub fn idx(self) -> (r: usize)
        ensures
            r == self.index(),
            r < POOLS,
    {
        match self {
            PoolId::P0 => 0,
            PoolId::P1 => 1,
            PoolId::P2 => 2,
            PoolId::P3 => 3,
            PoolId::P4 => 4,
            PoolId::P5 => 5,
            PoolId::P6 => 6,
            PoolId::P7 => 7,
            PoolId::P8 => 8,
            PoolId::P9 => 9,
            PoolId::P10 => 10,
            PoolId::P11 => 11,
            PoolId::P12 => 12,
            PoolId::P13 => 13,
            PoolId::P14 => 14,
            PoolId::DEFAULT => 15,
        }
    }

    /// The pool at a position of the bank.
    pub fn from_index(i: usize) -> (r: PoolId)
        requires
            i < POOLS,
        ensures
            r.index() == i,
    {
        match i {
            0 => PoolId::P0,
            1 => PoolId::P1,
            2 => PoolId::P2,
            3 => PoolId::P3,
            4 => PoolId::P4,
            5 => PoolId::P5,
            6 => PoolId::P6,
            7 => PoolId::P7,
            8 => PoolId::P8,
            9 => PoolId::P9,
            10 => PoolId::P10,
            11 => PoolId::P11,
            12 => PoolId::P12,
            13 => PoolId::P13,
            14 => PoolId::P14,
            _ => PoolId::DEFAULT,
        }
    }
}

/// High and low water marks for sizing I/O buffers.
#[derive(Clone, Copy, Debug, PartialEq, Eq, Structural)]
pub struct BufParams {
    pub high: u32,
    pub low: u32,
}

impl BufParams {
    pub fn unpack(self) -> (r: (usize, usize))
        ensures
            r == (self.high as usize, self.low as usize),
    {
        (self.high as usize, self.low as usize)
    }
}

/// State bits of a pool: its driver runs; allocation has grown since the window last moved.
#[derive(Clone, Copy, Debug, PartialEq, Eq, Structural)]
pub struct Flags {
    pub spawned: bool,
    pub increased: bool,
}

/// Lower bound of window `i` for a pool of `max` bytes: one percent less per step.
pub open spec fn window_low(max: nat, i: nat) -> nat {
    (max - (max / 100) * i) as nat
}

/// Window `i` as `(low, high)`; the first one is open above.
pub open spec fn window_of(max: usize, i: int) -> (usize, usize) {
    if i == 0 {
        (max, usize::MAX)
    } else {
        (window_low(max as nat, i as nat) as usize, window_low(max as nat, (i - 1) as nat) as usize)
    }
}

pub open spec fn window_table(max: usize) -> Seq<(usize, usize)> {
    Seq::new(WINDOWS as nat, |i: int| window_of(max, i))
}

proof fn lemma_step(max: nat, i: nat)
    requires
        i <= 10,
    ensures
        (max / 100) * i <= max,
{
    assert((max / 100) * i <= max) by (nonlinear_arith)
        requires
            i <= 10,
    ;
}

/// Each window's upper bound is the lower bound of the one before it; the first is open
/// above; and the lower bound of window `i` is `max` less `i` hundredths of `max`.
pub proof fn lemma_windows(max: usize)
    ensures
        window_table(max).len() == WINDOWS,
        window_table(max)[0] == (max, usize::MAX),
        forall|i: int| 1 <= i < WINDOWS ==> #[trigger] window_table(max)[i].1 == window_table(max)[i - 1].0,
        forall|i: int|
            0 <= i < WINDOWS ==> #[trigger] window_table(max)[i].0 == window_low(max as nat, i as nat),
{
    assert forall|i: int| 0 <= i < WINDOWS implies #[trigger] window_table(max)[i].0 == window_low(
        max as nat,
        i as nat,
    ) by {
        lemma_step(max as nat, i as nat);
        assert(window_table(max)[i] == window_of(max, i));
        if i > 0 {
            let v = window_low(max as nat, i as nat);
            assert(v == max - (max / 100) * i);
            assert(v <= max);
            assert(window_of(max, i).0 == v as usize);
            assert(v as usize == v);
        } else {
            assert((max as nat / 100) * 0 == 0);
            assert(window_low(max as nat, 0) == max);
        }
    }
    assert forall|i: int| 1 <= i < WINDOWS implies #[trigger] window_table(max)[i].1 == window_table(
        max,
    )[i - 1].0 by {
        lemma_step(max as nat, (i - 1) as nat);
        lemma_step(max as nat, i as nat);
        assert(window_table(max)[i] == window_of(max, i));
        assert(window_table(max)[i - 1] == window_of(max, i - 1));
    }
}

/// The items waiting in a list, in the order in which they will be woken.
pub open spec fn waiting_items<W>(w: Waiters<W>) -> Seq<W> {
    w.queue().map_values(|k: usize| w.slots()[k as int]->Waiting_0)
}

/// What `poll_ready` tells its caller: whether it may go on, a waiter to wake now, and
/// whether the driver must be started.
pub struct Readiness<W> {
    pub ready: bool,
    pub wake: Option<W>,
    pub spawn_driver: bool,
}

/// One pool: its byte accounting, admission windows, waiters and buffer caches.
pub struct MemoryPool<W, B> {
    pub id: PoolId,
    pub waiters: Waiters<W>,
    pub waker_alive: bool,
    pub flags: Flags,
    pub size: usize,
    pub max_size: usize,
    pub window_h: usize,
    pub window_l: usize,
    pub window_idx: usize,
    pub window_waiters: usize,
    pub windows: Vec<(usize, usize)>,
    pub read_wm: BufParams,
    pub read_cache: Vec<B>,
    pub write_wm: BufParams,
    pub write_cache: Vec<B>,
    pub spawn: bool,
}

/// Computes the window table for a pool of `size` bytes.
pub fn window_table_of(size: usize) -> (r: Vec<(usize, usize)>)
    ensures
        r@ == window_table(size),
{
    let mut windows: Vec<(usize, usize)> = Vec::new();
    windows.push((size, usize::MAX));
    let step = size / 100;
    let mut idx: usize = 1;
    while idx < WINDOWS
        invariant
            1 <= idx <= WINDOWS,
            step == size / 100,
            windows@.len() == idx,
            forall|j: int| 0 <= j < idx ==> #[trigger] windows@[j] == window_of(size, j),
        decreases WINDOWS - idx,
    {
        proof {
            lemma_step(size as nat, idx as nat);
            lemma_step(size as nat, (idx - 1) as nat);
        }
        let h = size - step * (idx - 1);
        let l = size - step * idx;
        windows.push((l, h));
        idx = idx + 1;
    }
    assert(windows@ =~= window_table(size));
    windows
}

impl<W, B> MemoryPool<W, B> {
    pub open spec fn wf(&self) -> bool {
        &&& self.windows@ == window_table(self.max_size)
        &&& self.window_idx < WINDOWS
        &&& self.window_l == self.windows@[self.window_idx as int].0
        &&& self.window_h == self.windows@[self.window_idx as int].1
        &&& self.waiters.wf()
        &&& self.read_cache@.len() <= CACHE_SIZE
        &&& self.write_cache@.len() <= CACHE_SIZE
        &&& self.read_wm.low < self.read_wm.high
        &&& self.write_wm.low < self.write_wm.high
    }

    /// A pool with no limit, nothing allocated, default water marks and no spawner.
    pub fn create(id: PoolId) -> (r: Self)
        ensures
            r.wf(),
            r.id == id,
            r.size == 0,
            r.max_size == 0,
            r.window_idx == 0,
            r.window_waiters == 0,
            r.flags == (Flags { spawned: false, increased: false }),
            !r.waker_alive,
            !r.spawn,
            r.read_wm == (BufParams { high: 4096, low: 1024 }),
            r.write_wm == (BufParams { high: 4096, low: 1024 }),
            r.read_cache@.len() == 0,
            r.write_cache@.len() == 0,
            r.waiters.queue().len() == 0,
            r.waiters.spec_len() == 0,
            r.waiters.slots().len() == 0,
    {
        let windows = window_table_of(0);
        MemoryPool {
            id,
            waiters: Waiters::new(),
            waker_alive: false,
            flags: Flags { spawned: false, increased: false },
            size: 0,
            max_size: 0,
            window_h: usize::MAX,
            window_l: 0,
            window_idx: 0,
            window_waiters: 0,
            windows,
            read_wm: BufParams { high: 4096, low: 1024 },
            read_cache: Vec::new(),
            write_wm: BufParams { high: 4096, low: 1024 },
            write_cache: Vec::new(),
            spawn: false,
        }
    }
}


/// `after` is `before` with `val` queued at the tail in slot `idx`, which was not waiting
/// (what `append` does, and `update` of a consumed slot).
pub open spec fn queued_at_tail<W>(before: Waiters<W>, after: Waiters<W>, idx: usize, val: W) -> bool {
    &&& !before.queue().contains(idx)
    &&& after.queue() == before.queue().push(idx)
    &&& idx < after.slots().len()
    &&& after.slots()[idx as int] == SlotState::Waiting(val)
    &&& forall|k: int|
        0 <= k < before.slots().len() && k != idx ==> #[trigger] after.slots()[k]
            == before.slots()[k]
}

/// `after` is `before` with the head of the queue taken and its slot consumed (what
/// `consume` does on a non-empty queue).
pub open spec fn took_head<W>(before: Waiters<W>, after: Waiters<W>) -> bool {
    &&& before.queue().len() > 0
    &&& after.queue() == before.queue().drop_first()
    &&& after.slots() == before.slots().update(before.queue()[0] as int, SlotState::Consumed)
}

/// Waiters are woken in the order in which they registered. Starting from an empty queue,
/// if each state comes from the one before by queueing `vals[i]` at the tail, the waiting
/// items are exactly `vals`, first registered first.
pub proof fn lemma_fifo_registration<W>(states: Seq<Waiters<W>>, slots: Seq<usize>, vals: Seq<W>)
    requires
        states.len() == vals.len() + 1,
        slots.len() == vals.len(),
        states[0].queue().len() == 0,
        forall|i: int| 0 <= i <= vals.len() ==> (#[trigger] states[i]).wf(),
        forall|i: int| 0 <= i < vals.len() ==> #[trigger] tail_step(states, slots, vals, i),
    ensures
        waiting_items(states[vals.len() as int]) == vals,
    decreases vals.len(),
{
    if vals.len() == 0 {
        assert(waiting_items(states[0]) =~= vals);
    } else {
        let n = vals.len() - 1;
        let s2 = states.take(n + 1);
        assert forall|i: int| 0 <= i <= n implies (#[trigger] s2[i]).wf() by {
            assert(s2[i] == states[i]);
        }
        assert forall|i: int| 0 <= i < n implies #[trigger] tail_step(
            s2,
            slots.take(n),
            vals.take(n),
            i,
        ) by {
            assert(s2[i] == states[i] && s2[i + 1] == states[i + 1]);
            assert(tail_step(states, slots, vals, i));
        }
        lemma_fifo_registration(s2, slots.take(n), vals.take(n));
        assert(tail_step(states, slots, vals, n));
        lemma_push_items(states[n], states[n + 1], slots[n], vals[n]);
        assert(vals.take(n).push(vals[n]) =~= vals);
    }
}

/// Step `j` of a run of states takes the head of the queue.
pub open spec fn head_step<W>(states: Seq<Waiters<W>>, j: int) -> bool {
    took_head(states[j], states[j + 1])
}

/// Step `j` of a run of states queues `vals[j]` at the tail in slot `slots[j]`.
pub open spec fn tail_step<W>(states: Seq<Waiters<W>>, slots: Seq<usize>, vals: Seq<W>, j: int) -> bool {
    queued_at_tail(states[j], states[j + 1], slots[j], vals[j])
}

/// Successive heads taken from a queue are its waiting items in order: the item taken at
/// step `i` is the `i`-th item that was waiting at the start.
pub proof fn lemma_fifo_wakeup<W>(states: Seq<Waiters<W>>)
    requires
        states.len() > 0,
        forall|i: int| 0 <= i < states.len() ==> (#[trigger] states[i]).wf(),
        forall|i: int| 0 <= i < states.len() - 1 ==> #[trigger] head_step(states, i),
    ensures
        forall|i: int|
            0 <= i < states.len() - 1 ==> waiting_items(#[trigger] states[i])[0] == waiting_items(
                states[0],
            )[i],
        waiting_items(states[states.len() - 1]) == waiting_items(states[0]).skip(
            states.len() - 1,
        ),
{
    assert forall|i: int| 0 <= i < states.len() - 1 implies waiting_items(#[trigger] states[i])[0]
        == waiting_items(states[0])[i] by {
        lemma_items_after(states, i);
        assert(head_step(states, i));
        assert(waiting_items(states[i]).len() == states[i].queue().len());
        assert(waiting_items(states[i]).len() > 0);
        assert(waiting_items(states[i])[0] == waiting_items(states[0]).skip(i)[0]);
    }
    lemma_items_after(states, states.len() - 1);
}

proof fn lemma_items_after<W>(states: Seq<Waiters<W>>, i: int)
    requires
        0 <= i < states.len(),
        forall|j: int| 0 <= j < states.len() ==> (#[trigger] states[j]).wf(),
        forall|j: int| 0 <= j < states.len() - 1 ==> #[trigger] head_step(states, j),
    ensures
        i <= waiting_items(states[0]).len(),
        waiting_items(states[i]) == waiting_items(states[0]).skip(i),
    decreases i,
{
    if i == 0 {
        assert(waiting_items(states[0]).skip(0) =~= waiting_items(states[0]));
    } else {
        lemma_items_after(states, i - 1);
        assert(head_step(states, i - 1));
        assert(waiting_items(states[i - 1]).len() == states[i - 1].queue().len());
        assert(waiting_items(states[i - 1]).len() > 0);
        lemma_consume_items(states[i - 1], states[i]);
        assert(waiting_items(states[0]).skip(i - 1).drop_first() =~= waiting_items(states[0]).skip(
            i,
        ));
    }
}

/// Waiters leave in the order in which they were queued: taking the head of the queue (as
/// `consume` does) takes the first waiting item and leaves the others in order.
pub proof fn lemma_consume_items<W>(before: Waiters<W>, after: Waiters<W>)
    requires
        before.wf(),
        took_head(before, after),
    ensures
        waiting_items(after) == waiting_items(before).drop_first(),
{
    before.lemma_queue_facts();
    let q = before.queue();
    assert forall|i: int| 0 <= i < after.queue().len() implies waiting_items(after)[i]
        == waiting_items(before).drop_first()[i] by {
        assert(after.queue()[i] == q[i + 1]);
        assert(q[i + 1] != q[0]);
    }
    assert(waiting_items(after) =~= waiting_items(before).drop_first());
}

/// Wakes up to `limit` waiters from the head of the queue, appending them to `woken`.
fn wake_up<W>(waiters: &mut Waiters<W>, limit: usize, woken: &mut Vec<W>)
    requires
        old(waiters).wf(),
    ensures
        final(waiters).wf(),
        final(waiters).spec_len() == old(waiters).spec_len(),
        ({
            let k = if (limit as nat) < old(waiters).queue().len() {
                limit as int
            } else {
                old(waiters).queue().len() as int
            };
            &&& final(woken)@ == old(woken)@ + waiting_items(*old(waiters)).take(k)
            &&& final(waiters).queue() == old(waiters).queue().skip(k)
            &&& waiting_items(*final(waiters)) == waiting_items(*old(waiters)).skip(k)
            &&& consumed_prefix(*old(waiters), *final(waiters), k)
        }),
        final(waiters).free_list() == old(waiters).free_list(),
{
    let ghost items0 = waiting_items(*waiters);
    let ghost q0 = waiters.queue();
    let ghost w0 = woken@;
    let ghost w_init = *waiters;
    let mut count: usize = 0;
    let mut drained = false;
    while count < limit && !drained
        invariant
            drained ==> waiters.queue().len() == 0,
            waiters.wf(),
            waiters.spec_len() == old(waiters).spec_len(),
            0 <= count <= limit,
            count <= q0.len(),
            items0 == waiting_items(*old(waiters)),
            q0 == old(waiters).queue(),
            woken@ == w0 + items0.take(count as int),
            waiters.queue() == q0.skip(count as int),
            waiting_items(*waiters) == items0.skip(count as int),
            w0 == old(woken)@,
            waiters.free_list() == old(waiters).free_list(),
            consumed_prefix(*old(waiters), *waiters, count as int),
            w_init == *old(waiters),
            w_init.wf(),
        decreases limit - count + if drained {
            0int
        } else {
            1int
        },
    {
        let ghost before = *waiters;
        match waiters.consume() {
            Some(item) => {
                proof {
                    assert(waiting_items(before)[0] == items0[count as int]);
                    assert(item == waiting_items(before)[0]);
                    lemma_consume_items(before, *waiters);
                    assert(woken@.push(item) =~= w0 + items0.take(count + 1));
                    assert(waiters.queue() =~= q0.skip(count + 1));
                    assert(waiting_items(*waiters) =~= items0.skip(count + 1));
                    assert(q0.skip(count as int)[0] == q0[count as int]);
                    let qc = q0.take(count + 1);
                    before.lemma_queue_facts();
                    assert(qc[count as int] == q0[count as int]);
                    w_init.lemma_queue_facts();
                    assert forall|i: int| 0 <= i < count + 1 implies (#[trigger] waiters.slots()[q0[i] as int]) is Consumed by {
                        assert(q0[i] < w_init.slots().len());
                        if i < count {
                            assert(before.slots()[q0[i] as int] is Consumed);
                        }
                    }
                    assert forall|j: int|
                        0 <= j < waiters.slots().len() && !qc.contains(j as usize) implies #[trigger] waiters.slots()[j]
                        == old(waiters).slots()[j] by {
                        if j == q0[count as int] {
                            assert(qc.contains(j as usize));
                        }
                        if q0.take(count as int).contains(j as usize) {
                            let r = choose|r: int| 0 <= r < count && q0.take(count as int)[r] == j as usize;
                            assert(qc[r] == j as usize);
                        }
                    }
                }
                woken.push(item);
                count = count + 1;
            },
            None => {
                drained = true;
            },
        }
    }
    proof {
        if count < limit {
            assert(waiters.queue().len() == 0);
            assert(count == q0.len());
        }
    }
}

/// The first `k` slots of the old queue are now consumed; every other slot is as it was.
pub open spec fn consumed_prefix<W>(before: Waiters<W>, after: Waiters<W>, k: int) -> bool {
    &&& after.slots().len() == before.slots().len()
    &&& forall|i: int| 0 <= i < k ==> (#[trigger] after.slots()[before.queue()[i] as int]) is Consumed
    &&& forall|j: int|
        0 <= j < before.slots().len() && !before.queue().take(k).contains(j as usize)
            ==> #[trigger] after.slots()[j] == before.slots()[j]
}

/// Number of waiters the driver releases while it moves down from window `idx` with
/// `queued` waiters in the queue and `credit` newly registered ones: each step releases
/// `release_count` of them (or all there are), until the allocation exceeds a window's lower
/// bound; past the last window, all that remain.
pub open spec fn fall_released(
    windows: Seq<(usize, usize)>,
    allocated: nat,
    idx: nat,
    credit: nat,
    queued: nat,
) -> nat
    decreases WINDOWS - idx,
{
    if idx >= WINDOWS {
        queued
    } else {
        let n = release_count(queued, credit);
        let k = if n < queued {
            n
        } else {
            queued
        };
        if allocated > windows[idx as int].0 {
            k
        } else {
            k + fall_released(windows, allocated, idx + 1, 0, (queued - k) as nat)
        }
    }
}

/// What resetting a pool to `size` bytes does: the first window with allocation seen as
/// growing, every queued waiter handed back in order with its slot kept as consumed, and
/// the rest of the pool as it was.
pub open spec fn pool_reset<W, B>(
    before: MemoryPool<W, B>,
    after: MemoryPool<W, B>,
    size: usize,
    woken: Seq<W>,
) -> bool {
    &&& after.max_size == size
    &&& after.windows@ == window_table(size)
    &&& after.window_l == size
    &&& after.window_h == usize::MAX
    &&& after.window_idx == 0
    &&& after.window_waiters == 0
    &&& after.flags == (Flags { spawned: before.flags.spawned, increased: true })
    &&& woken == waiting_items(before.waiters)
    &&& after.waiters.queue().len() == 0
    &&& after.waiters.spec_len() == before.waiters.spec_len()
    &&& after.waiters.free_list() == before.waiters.free_list()
    &&& consumed_prefix(before.waiters, after.waiters, before.waiters.queue().len() as int)
    &&& after.id == before.id
    &&& after.size == before.size
    &&& after.spawn == before.spawn
    &&& after.waker_alive == before.waker_alive
    &&& after.read_wm == before.read_wm
    &&& after.write_wm == before.write_wm
    &&& after.read_cache == before.read_cache
    &&& after.write_cache == before.write_cache
}

/// Number of waiters that one driver step releases: a sixteenth of those queued, and all
/// or half of the ones newly registered in the window, whichever is smaller credit.
pub open spec fn release_count(occupied: nat, waiters_num: nat) -> nat {
    let base = occupied / 16;
    if waiters_num > base {
        base + waiters_num / 2
    } else {
        base + waiters_num
    }
}

impl<W, B> MemoryPool<W, B> {
    /// Sets the pool's limit, resets the windows to the first one with allocation seen as
    /// growing, and hands back every queued waiter, to be woken.
    pub fn set_pool_size(&mut self, size: usize) -> (woken: Vec<W>)
        requires
            old(self).wf(),
        ensures
            final(self).wf(),
            pool_reset(*old(self), *final(self), size, woken@),
    {
        self.max_size = size;
        self.window_waiters = 0;
        self.window_l = size;
        self.window_h = usize::MAX;
        self.window_idx = 0;
        self.flags = Flags { spawned: self.flags.spawned, increased: true };
        self.windows = window_table_of(size);
        let mut woken: Vec<W> = Vec::new();
        proof {
            self.waiters.lemma_queue_facts();
        }
        wake_up(&mut self.waiters, usize::MAX, &mut woken);
        proof {
            assert(waiting_items(old(self).waiters).take(old(self).waiters.queue().len() as int)
                =~= waiting_items(old(self).waiters));
            assert(Seq::<W>::empty() + waiting_items(old(self).waiters) =~= waiting_items(
                old(self).waiters,
            ));
        }
        woken
    }

    /// Sets the read buffer water marks; `low` must be below `high`.
    pub fn set_read_params(&mut self, high: u32, low: u32)
        requires
            low < high,
        ensures
            *final(self) == (MemoryPool { read_wm: BufParams { high, low }, ..*old(self) }),
    {
        self.read_wm = BufParams { high, low };
    }

    /// Sets the write buffer water marks; `low` must be below `high`.
    pub fn set_write_params(&mut self, high: u32, low: u32)
        requires
            low < high,
        ensures
            *final(self) == (MemoryPool { write_wm: BufParams { high, low }, ..*old(self) }),
    {
        self.write_wm = BufParams { high, low };
    }

    /// Whether the driver must be woken for an allocation total of `allocated`: it has left
    /// the current window.
    fn outside_window(&self, allocated: usize) -> (r: bool)
        ensures
            r == (allocated < self.window_l || allocated > self.window_h),
    {
        allocated < self.window_l || allocated > self.window_h
    }

    /// Counts `n` more bytes as allocated. Returns whether the driver must be woken, which
    /// is then no longer armed.
    pub fn acquire(&mut self, n: usize) -> (wake_driver: bool)
        requires
            old(self).size + n <= usize::MAX,
        ensures
            final(self).size == old(self).size + n,
            wake_driver == (old(self).waker_alive && (final(self).size < old(self).window_l
                || final(self).size > old(self).window_h)),
            final(self).waker_alive == (old(self).waker_alive && !wake_driver),
            *final(self) == (MemoryPool {
                size: final(self).size,
                waker_alive: final(self).waker_alive,
                ..*old(self)
            }),
    {
        self.size = self.size + n;
        let wake = self.waker_alive && self.outside_window(self.size);
        if wake {
            self.waker_alive = false;
        }
        wake
    }

    /// Counts `n` bytes as given back. Returns whether the driver must be woken, which is
    /// then no longer armed.
    pub fn release(&mut self, n: usize) -> (wake_driver: bool)
        requires
            n <= old(self).size,
        ensures
            final(self).size == old(self).size - n,
            wake_driver == (old(self).waker_alive && (final(self).size < old(self).window_l
                || final(self).size > old(self).window_h)),
            final(self).waker_alive == (old(self).waker_alive && !wake_driver),
            *final(self) == (MemoryPool {
                size: final(self).size,
                waker_alive: final(self).waker_alive,
                ..*old(self)
            }),
    {
        self.size = self.size - n;
        let wake = self.waker_alive && self.outside_window(self.size);
        if wake {
            self.waker_alive = false;
        }
        wake
    }

    /// A cached read buffer, to be cleared before use; `None` when the cache is empty and a
    /// buffer of `read_wm.high` bytes is to be allocated.
    pub fn get_read_buf(&mut self) -> (r: Option<B>)
        ensures
            old(self).read_cache@.len() == 0 ==> r.is_none() && *final(self) == *old(self),
            old(self).read_cache@.len() > 0 ==> r == Some(old(self).read_cache@.last())
                && *final(self) == (MemoryPool {
                read_cache: final(self).read_cache,
                ..*old(self)
            }) && final(self).read_cache@ == old(self).read_cache@.drop_last(),
    {
        if self.read_cache.len() == 0 {
            None
        } else {
            self.read_cache.pop()
        }
    }

    /// A cached write buffer, to be cleared before use; `None` when the cache is empty and a
    /// buffer of `write_wm.high` bytes is to be allocated.
    pub fn get_write_buf(&mut self) -> (r: Option<B>)
        ensures
            old(self).write_cache@.len() == 0 ==> r.is_none() && *final(self) == *old(self),
            old(self).write_cache@.len() > 0 ==> r == Some(old(self).write_cache@.last())
                && *final(self) == (MemoryPool {
                write_cache: final(self).write_cache,
                ..*old(self)
            }) && final(self).write_cache@ == old(self).write_cache@.drop_last(),
    {
        if self.write_cache.len() == 0 {
            None
        } else {
            self.write_cache.pop()
        }
    }

    /// Keeps a released read buffer of capacity `cap` if the capacity lies in
    /// `(low, high]` and the cache has room; otherwise hands it back, to be dropped.
    pub fn release_read_buf(&mut self, buf: B, cap: usize) -> (r: Option<B>)
        requires
            old(self).wf(),
        ensures
            final(self).wf(),
            ({
                let keep = old(self).read_wm.low < cap <= old(self).read_wm.high
                    && old(self).read_cache@.len() < CACHE_SIZE;
                &&& keep ==> r.is_none() && final(self).read_cache@ == old(
                    self,
                ).read_cache@.push(buf)
                &&& !keep ==> r == Some(buf) && final(self).read_cache@ == old(self).read_cache@
            }),
            *final(self) == (MemoryPool { read_cache: final(self).read_cache, ..*old(self) }),
    {
        let (hw, lw) = self.read_wm.unpack();
        if cap > lw && cap <= hw && self.read_cache.len() < CACHE_SIZE {
            self.read_cache.push(buf);
            None
        } else {
            Some(buf)
        }
    }

    /// Keeps a released write buffer of capacity `cap` if the capacity lies in
    /// `(low, high]` and the cache has room; otherwise hands it back, to be dropped.
    pub fn release_write_buf(&mut self, buf: B, cap: usize) -> (r: Option<B>)
        requires
            old(self).wf(),
        ensures
            final(self).wf(),
            ({
                let keep = old(self).write_wm.low < cap <= old(self).write_wm.high
                    && old(self).write_cache@.len() < CACHE_SIZE;
                &&& keep ==> r.is_none() && final(self).write_cache@ == old(
                    self,
                ).write_cache@.push(buf)
                &&& !keep ==> r == Some(buf) && final(self).write_cache@ == old(self).write_cache@
            }),
            *final(self) == (MemoryPool { write_cache: final(self).write_cache, ..*old(self) }),
    {
        let (hw, lw) = self.write_wm.unpack();
        if cap > lw && cap <= hw && self.write_cache.len() < CACHE_SIZE {
            self.write_cache.push(buf);
            None
        } else {
            Some(buf)
        }
    }

    /// Bytes to reserve in a read buffer with `remaining` spare bytes: topped up to the
    /// high mark when below the low one. The marks read are the write ones, as the pool
    /// has always done.
    pub fn resize_read_buf(&self, remaining: usize) -> (r: usize)
        requires
            self.wf(),
        ensures
            remaining < self.write_wm.low ==> r == self.write_wm.high - remaining,
            remaining >= self.write_wm.low ==> r == 0,
    {
        let (hw, lw) = self.write_wm.unpack();
        if remaining < lw {
            hw - remaining
        } else {
            0
        }
    }

    /// Bytes to reserve in a write buffer with `remaining` spare bytes: topped up to the
    /// high mark when below the low one.
    pub fn resize_write_buf(&self, remaining: usize) -> (r: usize)
        requires
            self.wf(),
        ensures
            remaining < self.write_wm.low ==> r == self.write_wm.high - remaining,
            remaining >= self.write_wm.low ==> r == 0,
    {
        let (hw, lw) = self.write_wm.unpack();
        if remaining < lw {
            hw - remaining
        } else {
            0
        }
    }
}


/// Waiters join at the back: queueing `val` in a slot that was not waiting (as `append`, or
/// `update` of a consumed slot, does) puts it after every item already waiting.
pub proof fn lemma_push_items<W>(before: Waiters<W>, after: Waiters<W>, idx: usize, val: W)
    requires
        before.wf(),
        queued_at_tail(before, after, idx, val),
    ensures
        waiting_items(after) == waiting_items(before).push(val),
{
    before.lemma_queue_facts();
    let q = before.queue();
    assert forall|i: int| 0 <= i < q.len() implies waiting_items(after)[i] == waiting_items(
        before,
    )[i] by {
        assert(after.queue()[i] == q[i]);
        assert(q[i] != idx);
    }
    assert(waiting_items(after) =~= waiting_items(before).push(val));
}

impl<W, B> MemoryPool<W, B> {
    /// Whether the caller holding `slot` may go on: it is not queued as a waiter.
    pub fn is_ready(&self, slot: usize) -> (r: bool)
        ensures
            r == !(slot != NONE && slot < self.waiters.slots().len()
                && self.waiters.slots()[slot as int] is Waiting),
    {
        !(slot != NONE && self.waiters.is_waiting(slot))
    }

    /// Gives up the waiter slot of a caller that goes away.
    pub fn drop_slot(&mut self, slot: usize)
        requires
            old(self).wf(),
        ensures
            final(self).wf(),
            !old(self).waiters.is_held_spec(slot) ==> *final(self) == *old(self),
            old(self).waiters.is_held_spec(slot) ==> slot_given_up(
                old(self).waiters,
                final(self).waiters,
                slot,
            ),
            *final(self) == (MemoryPool { waiters: final(self).waiters, ..*old(self) }),
    {
        if slot != NONE && self.waiters.is_held(slot) {
            self.waiters.remove(slot);
        }
    }

    /// Decides whether the caller holding `slot` (or `NONE`) may allocate further, and
    /// registers `waker` to be woken when it may not.
    pub fn poll_ready(&mut self, slot: &mut usize, waker: W) -> (r: Readiness<W>)
        requires
            old(self).wf(),
        ensures
            final(self).wf(),
            final(self).size == old(self).size,
            final(self).max_size == old(self).max_size,
            final(self).window_idx == old(self).window_idx,
            final(self).window_l == old(self).window_l,
            final(self).window_h == old(self).window_h,
            final(self).spawn == old(self).spawn,
            final(self).waker_alive == old(self).waker_alive,
            old(self).max_size == 0 || old(self).window_l == 0 ==> {
                &&& r.ready && r.wake.is_none() && !r.spawn_driver
                &&& *final(self) == *old(self)
                &&& *final(slot) == *old(slot)
            },
            old(self).max_size > 0 && old(self).window_l > 0 && old(self).size < old(
                self,
            ).window_l ==> {
                &&& r.ready && r.wake.is_none() && !r.spawn_driver
                &&& *final(slot) == NONE
                &&& final(self).flags == old(self).flags
                &&& final(self).window_waiters == old(self).window_waiters
                &&& !old(self).waiters.is_held_spec(*old(slot)) ==> final(self).waiters == old(
                    self,
                ).waiters
                &&& old(self).waiters.is_held_spec(*old(slot)) ==> slot_given_up(
                    old(self).waiters,
                    final(self).waiters,
                    *old(slot),
                )
            },
            old(self).max_size > 0 && old(self).window_l > 0 && old(self).size >= old(
                self,
            ).window_l && !old(self).spawn ==> {
                &&& r.ready && r.wake.is_none() && !r.spawn_driver
                &&& *final(self) == *old(self)
                &&& *final(slot) == *old(slot)
            },
            old(self).max_size > 0 && old(self).window_l > 0 && old(self).size >= old(
                self,
            ).window_l && old(self).spawn && !old(self).waiters.is_held_spec(*old(slot)) && old(
                self,
            ).waiters.spec_len() >= NONE - 2 ==> {
                &&& r.ready && r.wake.is_none() && !r.spawn_driver
                &&& *final(self) == *old(self)
                &&& *final(slot) == *old(slot)
            },
            old(self).max_size > 0 && old(self).window_l > 0 && old(self).size >= old(
                self,
            ).window_l && old(self).spawn && (old(self).waiters.is_held_spec(*old(slot)) || old(
                self,
            ).waiters.spec_len() < NONE - 2) ==> {
                let held = old(self).waiters.is_held_spec(*old(slot));
                let fresh = !held || old(self).waiters.slots()[*old(slot) as int] is Consumed;
                let queued = waiting_items(old(self).waiters).push(waker);
                &&& !r.ready
                &&& *final(slot) != NONE
                &&& held ==> *final(slot) == *old(slot)
                &&& r.spawn_driver == !old(self).flags.spawned
                &&& final(self).flags == (Flags {
                    spawned: true,
                    increased: old(self).flags.increased,
                })
                &&& fresh ==> *final(slot) < final(self).waiters.slots().len()
                &&& fresh && !old(self).flags.increased ==> {
                    &&& final(self).waiters.queue() == old(self).waiters.queue().push(
                        *final(slot),
                    ).drop_first()
                    &&& old(self).waiters.queue().len() == 0 ==> final(self).waiters.slots()[
                        *final(slot) as int] is Consumed
                    &&& old(self).waiters.queue().len() > 0 ==> final(self).waiters.slots()[
                        *final(slot) as int] == SlotState::Waiting(waker)
                    &&& r.wake == Some(queued[0])
                    &&& waiting_items(final(self).waiters) == queued.drop_first()
                    &&& final(self).window_waiters == old(self).window_waiters
                }
                &&& fresh && old(self).flags.increased ==> {
                    &&& final(self).waiters.queue() == old(self).waiters.queue().push(
                        *final(slot),
                    )
                    &&& final(self).waiters.slots()[*final(slot) as int] == SlotState::Waiting(
                        waker,
                    )
                    &&& r.wake.is_none()
                    &&& waiting_items(final(self).waiters) == queued
                    &&& final(self).window_waiters == (if old(self).window_waiters < usize::MAX {
                        old(self).window_waiters + 1
                    } else {
                        old(self).window_waiters as int
                    })
                }
                &&& !fresh ==> {
                    &&& r.wake.is_none()
                    &&& final(self).waiters.queue() == old(self).waiters.queue()
                    &&& final(self).waiters.slots() == old(self).waiters.slots().update(
                        *old(slot) as int,
                        SlotState::Waiting(waker),
                    )
                    &&& final(self).window_waiters == old(self).window_waiters
                }
            },
    {
        if self.max_size == 0 || self.window_l == 0 {
            return Readiness { ready: true, wake: None, spawn_driver: false };
        }
        let allocated = self.size;
        if allocated < self.window_l {
            let idx = *slot;
            if idx != NONE && self.waiters.is_held(idx) {
                self.waiters.remove(idx);
            }
            *slot = NONE;
            return Readiness { ready: true, wake: None, spawn_driver: false };
        }
        if !self.spawn {
            return Readiness { ready: true, wake: None, spawn_driver: false };
        }
        let ghost w0 = self.waiters;
        proof {
            w0.lemma_queue_facts();
        }
        let idx = *slot;
        let held = idx != NONE && self.waiters.is_held(idx);
        if !held && self.waiters.len() >= NONE - 2 {
            return Readiness { ready: true, wake: None, spawn_driver: false };
        }
        let new = if !held {
            {
                let k = self.waiters.append(waker);
                proof {
                    if w0.free_list().len() > 0 {
                        assert(w0.free_list()[0] < w0.slots().len());
                        assert(w0.slots()[w0.free_list()[0] as int] is Vacant);
                    }
                    if w0.queue().contains(k) {
                        let p = choose|p: int| 0 <= p < w0.queue().len() && w0.queue()[p] == k;
                        assert(w0.queue()[p] < w0.slots().len());
                    }
                    lemma_push_items(w0, self.waiters, k, waker);
                }
                *slot = k;
            }
            true
        } else {
            let was_consumed = self.waiters.update(idx, waker);
            proof {
                if was_consumed {
                    if w0.queue().contains(idx) {
                        let p = choose|p: int| 0 <= p < w0.queue().len() && w0.queue()[p] == idx;
                        assert(w0.slots()[w0.queue()[p] as int] is Waiting);
                    }
                    lemma_push_items(w0, self.waiters, idx, waker);
                }
            }
            was_consumed
        };
        let mut wake: Option<W> = None;
        if new {
            if !self.flags.increased {
                let ghost w1 = self.waiters;
                proof {
                    assert(waiting_items(w1).len() > 0);
                    assert(waiting_items(w1)[0] == w1.slots()[w1.queue()[0] as int]->Waiting_0);
                }
                wake = self.waiters.consume();
                proof {
                    lemma_consume_items(w1, self.waiters);
                }
            } else if self.window_waiters < usize::MAX {
                self.window_waiters = self.window_waiters + 1;
            }
        }
        let spawn_driver = !self.flags.spawned;
        self.flags = Flags { spawned: true, increased: self.flags.increased };
        Readiness { ready: false, wake, spawn_driver }
    }
}


impl<W, B> MemoryPool<W, B> {
    /// Releases waiters for one window step: `release_count` of them, in queue order.
    fn release_step(&mut self, waiters_num: usize, woken: &mut Vec<W>)
        requires
            old(self).wf(),
        ensures
            final(self).wf(),
            *final(self) == (MemoryPool { waiters: final(self).waiters, ..*old(self) }),
            ({
                let n = release_count(old(self).waiters.queue().len(), waiters_num as nat);
                let k = if n < old(self).waiters.queue().len() {
                    n as int
                } else {
                    old(self).waiters.queue().len() as int
                };
                &&& final(woken)@ == old(woken)@ + waiting_items(old(self).waiters).take(k)
                &&& waiting_items(final(self).waiters) == waiting_items(old(self).waiters).skip(k)
            }),
    {
        let base = self.waiters.occupied_len() / 16;
        let to_release = if waiters_num > base {
            base + waiters_num / 2
        } else {
            base + waiters_num
        };
        wake_up(&mut self.waiters, to_release, woken);
    }

    /// One step of the pool's driver. Below the window, it moves down to the first window
    /// whose lower bound the allocation exceeds, releasing waiters for each step; past the
    /// last one it releases all, resets to the first window and finishes (`true`). Above the
    /// window it moves up one. The released waiters come back in queue order, to be woken.
    pub fn driver_poll(&mut self) -> (r: (bool, Vec<W>))
        requires
            old(self).wf(),
        ensures
            final(self).wf(),
            final(self).size == old(self).size,
            final(self).max_size == old(self).max_size,
            final(self).spawn == old(self).spawn,
            r.1@.len() <= waiting_items(old(self).waiters).len(),
            r.1@ == waiting_items(old(self).waiters).take(r.1@.len() as int),
            waiting_items(final(self).waiters) == waiting_items(old(self).waiters).skip(
                r.1@.len() as int,
            ),
            !r.0 ==> final(self).waker_alive,
            r.0 ==> final(self).waker_alive == old(self).waker_alive,
            old(self).size < old(self).window_l ==> {
                &&& r.1@.len() == fall_released(
                    old(self).windows@,
                    old(self).size as nat,
                    (old(self).window_idx + 1) as nat,
                    old(self).window_waiters as nat,
                    old(self).waiters.queue().len(),
                )
                &&& final(self).window_waiters == 0
                &&& r.0 ==> {
                    &&& final(self).window_idx == 0
                    &&& final(self).flags == (Flags { spawned: false, increased: true })
                    &&& final(self).waiters.queue().len() == 0
                    &&& forall|j: int|
                        old(self).window_idx < j < WINDOWS ==> old(self).size
                            <= #[trigger] old(self).windows@[j].0
                }
                &&& !r.0 ==> {
                    &&& old(self).window_idx < final(self).window_idx
                    &&& old(self).size > final(self).window_l
                    &&& final(self).flags == (Flags { spawned: true, increased: false })
                    &&& forall|j: int|
                        old(self).window_idx < j < final(self).window_idx ==> old(self).size
                            <= #[trigger] old(self).windows@[j].0
                }
            },
            old(self).window_l <= old(self).size && old(self).size > old(self).window_h ==> {
                &&& !r.0
                &&& r.1@.len() == 0
                &&& final(self).window_idx + 1 == old(self).window_idx
                &&& final(self).window_waiters == 0
                &&& final(self).flags == (Flags { spawned: true, increased: true })
            },
            old(self).window_l <= old(self).size <= old(self).window_h ==> {
                &&& !r.0
                &&& r.1@.len() == 0
                &&& final(self).window_idx == old(self).window_idx
                &&& final(self).window_waiters == old(self).window_waiters
                &&& final(self).flags == old(self).flags
            },
    {
        let allocated = self.size;
        let mut woken: Vec<W> = Vec::new();
        let ghost items0 = waiting_items(self.waiters);
        proof {
            assert(items0.take(0) =~= Seq::<W>::empty());
            assert(items0.skip(0) =~= items0);
        }
        if allocated < self.window_l {
            let ghost total = fall_released(
                self.windows@,
                allocated as nat,
                (self.window_idx + 1) as nat,
                self.window_waiters as nat,
                self.waiters.queue().len(),
            );
            let mut idx: usize = self.window_idx + 1;
            let mut credit: usize = self.window_waiters;
            let mut settled = false;
            while idx < WINDOWS && !settled
                invariant
                    old(self).wf(),
                    self.wf(),
                    *self == (MemoryPool { waiters: self.waiters, ..*old(self) }),
                    allocated == old(self).size,
                    old(self).window_idx < idx <= WINDOWS,
                    items0 == waiting_items(old(self).waiters),
                    woken@ == items0.take(woken@.len() as int),
                    woken@.len() <= items0.len(),
                    waiting_items(self.waiters) == items0.skip(woken@.len() as int),
                    settled ==> idx < WINDOWS && allocated > self.windows@[idx as int].0,
                    total == fall_released(
                        old(self).windows@,
                        allocated as nat,
                        (old(self).window_idx + 1) as nat,
                        old(self).window_waiters as nat,
                        items0.len(),
                    ),
                    !settled ==> woken@.len() + fall_released(
                        self.windows@,
                        allocated as nat,
                        idx as nat,
                        credit as nat,
                        (items0.len() - woken@.len()) as nat,
                    ) == total,
                    settled ==> woken@.len() == total,
                    forall|j: int|
                        old(self).window_idx < j < idx ==> allocated
                            <= #[trigger] self.windows@[j].0,
                decreases WINDOWS - idx + if settled {
                    0int
                } else {
                    1int
                },
            {
                let ghost before_len = woken@.len();
                proof {
                    assert(self.waiters.queue().len() == waiting_items(self.waiters).len());
                    assert(waiting_items(self.waiters).len() == items0.len() - before_len);
                }
                self.release_step(credit, &mut woken);
                proof {
                    assert(woken@ =~= items0.take(woken@.len() as int));
                    assert(waiting_items(self.waiters) =~= items0.skip(woken@.len() as int));
                }
                if allocated > self.windows[idx].0 {
                    settled = true;
                } else {
                    idx = idx + 1;
                    credit = 0;
                }
            }
            if !settled {
                proof {
                    self.waiters.lemma_queue_facts();
                }
                let ghost before_len = woken@.len();
                proof {
                    assert(waiting_items(self.waiters).len() == items0.len() - before_len);
                }
                wake_up(&mut self.waiters, usize::MAX, &mut woken);
                proof {
                    assert(woken@ =~= items0.take(woken@.len() as int));
                    assert(waiting_items(self.waiters) =~= items0.skip(woken@.len() as int));
                }
                self.window_l = self.windows[0].0;
                self.window_h = self.windows[0].1;
                self.window_idx = 0;
                self.window_waiters = 0;
                self.flags = Flags { spawned: false, increased: true };
                return (true, woken);
            }
            self.window_l = self.windows[idx].0;
            self.window_h = self.windows[idx].1;
            self.window_idx = idx;
            self.window_waiters = 0;
            self.flags = Flags { spawned: true, increased: false };
        } else if allocated > self.window_h {
            let idx = self.window_idx - 1;
            self.window_l = self.windows[idx].0;
            self.window_h = self.windows[idx].1;
            self.window_idx = idx;
            self.window_waiters = 0;
            self.flags = Flags { spawned: true, increased: true };
        }
        self.waker_alive = true;
        (false, woken)
    }
}


/// The sixteen pools of one thread, indexed by `PoolId`.
pub struct Pools<W, B> {
    pools: Vec<MemoryPool<W, B>>,
}

impl<W, B> Pools<W, B> {
    pub closed spec fn view(&self) -> Seq<MemoryPool<W, B>> {
        self.pools@
    }

    pub open spec fn wf(&self) -> bool {
        &&& self@.len() == POOLS
        &&& forall|i: int| 0 <= i < POOLS ==> (#[trigger] self@[i]).wf() && self@[i].id.index() == i
    }

    /// A bank of fresh pools.
    pub fn new() -> (r: Self)
        ensures
            r.wf(),
            forall|i: int|
                0 <= i < POOLS ==> (#[trigger] r@[i]).size == 0 && r@[i].max_size == 0
                    && !r@[i].spawn,
    {
        let mut pools: Vec<MemoryPool<W, B>> = Vec::new();
        let mut i: usize = 0;
        while i < POOLS
            invariant
                0 <= i <= POOLS,
                pools@.len() == i,
                forall|j: int|
                    0 <= j < i ==> (#[trigger] pools@[j]).wf() && pools@[j].id.index() == j
                        && pools@[j].size == 0 && pools@[j].max_size == 0 && !pools@[j].spawn,
            decreases POOLS - i,
        {
            let p = MemoryPool::create(PoolId::from_index(i));
            let ghost before = pools@;
            pools.push(p);
            assert(forall|j: int| 0 <= j < i ==> pools@[j] == before[j]);
            i = i + 1;
        }
        Pools { pools }
    }

    pub fn get(&self, id: PoolId) -> (r: &MemoryPool<W, B>)
        requires
            self.wf(),
        ensures
            *r == self@[id.index()],
    {
        &self.pools[id.idx()]
    }

    /// The pool `id`, to be changed in place.
    pub fn get_mut(&mut self, id: PoolId) -> (r: &mut MemoryPool<W, B>)
        requires
            old(self).wf(),
        ensures
            *r == old(self)@[id.index()],
            final(self)@ == old(self)@.update(id.index(), *final(r)),
    {
        let i = id.idx();
        &mut self.pools[i]
    }
}

/// Replacing one pool of a bank by a well-formed pool with the same id keeps the bank
/// well formed.
proof fn lemma_bank_update<W, B>(before: Pools<W, B>, after: Pools<W, B>, k: int)
    requires
        before.wf(),
        0 <= k < POOLS,
        after@.len() == POOLS,
        after@[k].wf(),
        after@[k].id == before@[k].id,
        forall|i: int| 0 <= i < POOLS && i != k ==> #[trigger] after@[i] == before@[i],
    ensures
        after.wf(),
{
    assert forall|i: int| 0 <= i < POOLS implies (#[trigger] after@[i]).wf() && after@[i].id.index()
        == i by {
        if i != k {
            assert(after@[i] == before@[i]);
        }
    }
}

impl PoolId {
    /// Sets the pool's limit and resets its windows; the queued waiters come back, to be woken.
    pub fn set_pool_size<W, B>(self, pools: &mut Pools<W, B>, size: usize) -> (woken: Vec<W>)
        requires
            old(pools).wf(),
        ensures
            final(pools).wf(),
            pool_reset(old(pools)@[self.index()], final(pools)@[self.index()], size, woken@),
            forall|i: int| 0 <= i < POOLS && i != self.index() ==> #[trigger] final(pools)@[i] == old(pools)@[i],
    {
        let pool = pools.get_mut(self);
        let woken = pool.set_pool_size(size);
        proof {
            assert forall|i: int| 0 <= i < POOLS implies (#[trigger] pools@[i]).wf()
                && pools@[i].id.index() == i by {
                if i != self.index() {
                    assert(pools@[i] == old(pools)@[i]);
                }
            }
        }
        woken
    }

    /// Sets the read buffer water marks of the pool; `low` must be below `high`.
    pub fn set_read_params<W, B>(self, pools: &mut Pools<W, B>, h: u32, l: u32) -> (r: Self)
        requires
            old(pools).wf(),
            l < h,
        ensures
            r == self,
            final(pools).wf(),
            final(pools)@ == old(pools)@.update(
                self.index(),
                (MemoryPool { read_wm: BufParams { high: h, low: l }, ..old(pools)@[self.index()] }),
            ),
    {
        let pool = pools.get_mut(self);
        pool.set_read_params(h, l);
        proof {
            lemma_bank_update(*old(pools), *pools, self.index());
        }
        self
    }

    /// Sets the write buffer water marks of the pool; `low` must be below `high`.
    pub fn set_write_params<W, B>(self, pools: &mut Pools<W, B>, h: u32, l: u32) -> (r: Self)
        requires
            old(pools).wf(),
            l < h,
        ensures
            r == self,
            final(pools).wf(),
            final(pools)@ == old(pools)@.update(
                self.index(),
                (MemoryPool { write_wm: BufParams { high: h, low: l }, ..old(pools)@[self.index()] }),
            ),
    {
        let pool = pools.get_mut(self);
        pool.set_write_params(h, l);
        proof {
            lemma_bank_update(*old(pools), *pools, self.index());
        }
        self
    }

    /// Marks the pool as having a task spawner, which turns back-pressure on.
    pub fn set_spawn_fn<W, B>(self, pools: &mut Pools<W, B>) -> (r: Self)
        requires
            old(pools).wf(),
        ensures
            r == self,
            final(pools).wf(),
            final(pools)@ == old(pools)@.update(
                self.index(),
                (MemoryPool { spawn: true, ..old(pools)@[self.index()] }),
            ),
    {
        let pool = pools.get_mut(self);
        pool.spawn = true;
        proof {
            lemma_bank_update(*old(pools), *pools, self.index());
        }
        self
    }

    /// Marks every pool as having a task spawner.
    pub fn set_spawn_fn_all<W, B>(pools: &mut Pools<W, B>)
        requires
            old(pools).wf(),
        ensures
            final(pools).wf(),
            forall|i: int|
                0 <= i < POOLS ==> #[trigger] final(pools)@[i] == (MemoryPool {
                    spawn: true,
                    ..old(pools)@[i]
                }),
    {
        let mut i: usize = 0;
        while i < POOLS
            invariant
                0 <= i <= POOLS,
                pools.wf(),
                forall|j: int|
                    0 <= j < i ==> #[trigger] pools@[j] == (MemoryPool {
                        spawn: true,
                        ..old(pools)@[j]
                    }),
                forall|j: int| i <= j < POOLS ==> #[trigger] pools@[j] == old(pools)@[j],
            decreases POOLS - i,
        {
            let id = PoolId::from_index(i);
            let ghost before = *pools;
            let pool = pools.get_mut(id);
            pool.spawn = true;
            proof {
                lemma_bank_update(before, *pools, i as int);
            }
            i = i + 1;
        }
    }
}

} // verus!
