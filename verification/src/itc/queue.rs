use vstd::prelude::*;
use crate::event::{wait_list_ok, blocked_current, woke_first_waiter, timeout_cleared, lemma_wait_list_keep, lemma_not_waiting, lemma_wait_list_other};
use crate::list::{lemma_remove_owners, lemma_insert_owners, insert_position};
use crate::itc::semaphore::wake_verdict;
use crate::itc::wait::{BlockStep, Wait};
use crate::list::{List, has_owner};
use crate::scheduler::{Kernel, IDLE_TASK};
use vstd::arithmetic::div_mod::{lemma_small_mod, lemma_mod_self_0};

verus! {

/// The slot of the `j`-th queued item of a ring of `cap` slots whose first
/// item is in slot `head`.
pub open spec fn ring_slot(head: int, j: int, cap: int) -> int {
    if head + j < cap {
        head + j
    } else {
        head + j - cap
    }
}

/// The slot before `head` in a ring of `cap` slots.
pub open spec fn prev_slot(head: int, cap: int) -> int {
    if head == 0 {
        cap - 1
    } else {
        head - 1
    }
}

/// The bytes of slot `slot` of a storage of slots of `size` bytes.
pub open spec fn slot_bytes(storage: Seq<u8>, slot: int, size: int) -> Seq<u8> {
    storage.subrange(slot * size, slot * size + size)
}

/// Slot `s` of a storage of `cap` slots of `size` bytes lies inside it, and
/// before any later slot.
pub proof fn lemma_slot_bounds(s: int, t: int, size: int, cap: int)
    by (nonlinear_arith)
    requires
        0 <= s < cap,
        0 <= size,
    ensures
        0 <= s * size,
        s * size + size <= cap * size,
        s < t ==> s * size + size <= t * size,
{
}

/// `(x + 1) % c` is the next slot of a ring of `c` slots.
pub proof fn lemma_next_slot(x: int, c: int)
    requires
        0 <= x < c,
    ensures
        (x + 1) % c == (if x + 1 < c { x + 1 } else { 0 }),
{
    if x + 1 < c {
        lemma_small_mod((x + 1) as nat, c as nat);
    } else {
        lemma_mod_self_0(c);
    }
}

/// A message queue of `CAPACITY` items of `ITEM_SIZE` bytes each, kept in a
/// ring of `STORAGE_SIZE` bytes, with the tasks blocked sending and receiving.
pub struct Queue<const ITEM_SIZE: usize, const CAPACITY: usize, const STORAGE_SIZE: usize> {
    pub storage: Vec<u8>,
    /// The slot of the first item.
    pub head: usize,
    /// The slot after the last item.
    pub tail: usize,
    pub count: usize,
    /// The tasks blocked in `send` or `send_to_front`, highest priority first.
    pub send_wait_list: List,
    /// The tasks blocked in `receive` or `peek`, highest priority first.
    pub recv_wait_list: List,
}

/// No task is in both lists.
pub open spec fn lists_apart(a: &List, b: &List) -> bool {
    forall|t: usize| has_owner(a.items@, t) ==> !has_owner(b.items@, t)
}

impl<const ITEM_SIZE: usize, const CAPACITY: usize, const STORAGE_SIZE: usize> Queue<
    ITEM_SIZE,
    CAPACITY,
    STORAGE_SIZE,
> {
    /// The ring: the storage holds every slot, the count fits, and the tail
    /// is the slot after the last item.
    pub open spec fn ring_ok(&self) -> bool {
        &&& STORAGE_SIZE == ITEM_SIZE * CAPACITY
        &&& self.storage@.len() == STORAGE_SIZE
        &&& self.count <= CAPACITY
        &&& (CAPACITY == 0 ==> self.head == 0 && self.tail == 0)
        &&& (CAPACITY > 0 ==> self.head < CAPACITY && self.tail == ring_slot(
            self.head as int,
            self.count as int,
            CAPACITY as int,
        ))
    }

    /// The ring is consistent, both wait lists are fit for the kernel, and
    /// no task waits in both.
    pub open spec fn wf(&self, k: &Kernel) -> bool {
        &&& self.ring_ok()
        &&& wait_list_ok(&self.send_wait_list, k)
        &&& wait_list_ok(&self.recv_wait_list, k)
        &&& lists_apart(&self.send_wait_list, &self.recv_wait_list)
    }

    /// The queued items, first to be received first.
    pub open spec fn items(&self) -> Seq<Seq<u8>> {
        Seq::new(
            self.count as nat,
            |j: int|
                slot_bytes(
                    self.storage@,
                    ring_slot(self.head as int, j, CAPACITY as int),
                    ITEM_SIZE as int,
                ),
        )
    }

    /// An empty queue with zeroed storage.
    pub fn new() -> (q: Self)
        requires
            STORAGE_SIZE == ITEM_SIZE * CAPACITY,
        ensures
            q.ring_ok(),
            q.items().len() == 0,
            q.storage@ == Seq::new(STORAGE_SIZE as nat, |i: int| 0u8),
            q.head == 0,
            q.send_wait_list.items@.len() == 0,
            q.recv_wait_list.items@.len() == 0,
            q.send_wait_list.index == 0,
            q.recv_wait_list.index == 0,
    {
        let mut storage: Vec<u8> = Vec::new();
        let mut i: usize = 0;
        while i < STORAGE_SIZE
            invariant
                i <= STORAGE_SIZE,
                storage@ == Seq::new(i as nat, |j: int| 0u8),
            decreases STORAGE_SIZE - i,
        {
            storage.push(0u8);
            i = i + 1;
        }
        Queue {
            storage,
            head: 0,
            tail: 0,
            count: 0,
            send_wait_list: List::new(),
            recv_wait_list: List::new(),
        }
    }

    /// Empties both wait lists.
    pub fn init(&mut self)
        ensures
            final(self).storage == old(self).storage,
            final(self).head == old(self).head,
            final(self).tail == old(self).tail,
            final(self).count == old(self).count,
            final(self).send_wait_list.items@.len() == 0,
            final(self).recv_wait_list.items@.len() == 0,
            final(self).send_wait_list.index == 0,
            final(self).recv_wait_list.index == 0,
    {
        self.send_wait_list.init();
        self.recv_wait_list.init();
    }

    pub fn len(&self) -> (r: usize)
        ensures
            r == self.count,
    {
        self.count
    }

    pub fn is_empty(&self) -> (r: bool)
        ensures
            r == (self.count == 0),
    {
        self.count == 0
    }

    pub fn is_full(&self) -> (r: bool)
        ensures
            r == (self.count == CAPACITY),
    {
        self.count == CAPACITY
    }

    /// Copies `item` into slot `slot`; the other bytes are kept.
    fn write_slot(&mut self, slot: usize, item: &[u8])
        requires
            old(self).ring_ok(),
            slot < CAPACITY,
            item@.len() == ITEM_SIZE,
        ensures
            final(self).ring_ok(),
            final(self).head == old(self).head,
            final(self).tail == old(self).tail,
            final(self).count == old(self).count,
            final(self).send_wait_list == old(self).send_wait_list,
            final(self).recv_wait_list == old(self).recv_wait_list,
            slot_bytes(final(self).storage@, slot as int, ITEM_SIZE as int) == item@,
            forall|s: int|
                0 <= s < CAPACITY && s != slot ==> #[trigger] slot_bytes(
                    final(self).storage@,
                    s,
                    ITEM_SIZE as int,
                ) == slot_bytes(old(self).storage@, s, ITEM_SIZE as int),
    {
        proof {
            lemma_slot_bounds(slot as int, 0, ITEM_SIZE as int, CAPACITY as int);
        }
        let base = slot * ITEM_SIZE;
        let ghost st0 = self.storage@;
        let mut i: usize = 0;
        while i < ITEM_SIZE
            invariant
                i <= ITEM_SIZE,
                base == slot * ITEM_SIZE,
                base + ITEM_SIZE <= STORAGE_SIZE,
                item@.len() == ITEM_SIZE,
                self.storage@.len() == st0.len(),
                st0.len() == STORAGE_SIZE,
                forall|b: int| 0 <= b < i ==> self.storage@[base + b] == item@[b],
                forall|b: int|
                    0 <= b < STORAGE_SIZE && !(base <= b < base + i) ==> self.storage@[b] == st0[b],
                self.head == old(self).head,
                self.tail == old(self).tail,
                self.count == old(self).count,
                self.send_wait_list == old(self).send_wait_list,
                self.recv_wait_list == old(self).recv_wait_list,
            decreases ITEM_SIZE - i,
        {
            self.storage[base + i] = item[i];
            i = i + 1;
        }
        proof {
            assert(slot_bytes(self.storage@, slot as int, ITEM_SIZE as int) =~= item@);
            assert forall|s: int| 0 <= s < CAPACITY && s != slot implies #[trigger] slot_bytes(
                self.storage@,
                s,
                ITEM_SIZE as int,
            ) == slot_bytes(st0, s, ITEM_SIZE as int) by {
                lemma_slot_bounds(s, slot as int, ITEM_SIZE as int, CAPACITY as int);
                lemma_slot_bounds(slot as int, s, ITEM_SIZE as int, CAPACITY as int);
                assert(slot_bytes(self.storage@, s, ITEM_SIZE as int) =~= slot_bytes(
                    st0,
                    s,
                    ITEM_SIZE as int,
                ));
            }
        }
    }

    /// Copies slot `slot` into `out`.
    fn read_slot(&self, slot: usize, out: &mut Vec<u8>)
        requires
            self.ring_ok(),
            slot < CAPACITY,
            old(out)@.len() == ITEM_SIZE,
        ensures
            final(out)@ == slot_bytes(self.storage@, slot as int, ITEM_SIZE as int),
    {
        proof {
            lemma_slot_bounds(slot as int, 0, ITEM_SIZE as int, CAPACITY as int);
        }
        let base = slot * ITEM_SIZE;
        let mut i: usize = 0;
        while i < ITEM_SIZE
            invariant
                i <= ITEM_SIZE,
                base == slot * ITEM_SIZE,
                base + ITEM_SIZE <= STORAGE_SIZE,
                self.storage@.len() == STORAGE_SIZE,
                out@.len() == ITEM_SIZE,
                forall|b: int| 0 <= b < i ==> out@[b] == self.storage@[base + b],
            decreases ITEM_SIZE - i,
        {
            out.set(i, self.storage[base + i]);
            i = i + 1;
        }
        proof {
            assert(out@ =~= slot_bytes(self.storage@, slot as int, ITEM_SIZE as int));
        }
    }
}

impl<const ITEM_SIZE: usize, const CAPACITY: usize, const STORAGE_SIZE: usize> Queue<
    ITEM_SIZE,
    CAPACITY,
    STORAGE_SIZE,
> {
    /// Appends `item` at the back (the queue is not full).
    fn push_back(&mut self, item: &[u8])
        requires
            old(self).ring_ok(),
            old(self).count < CAPACITY,
            item@.len() == ITEM_SIZE,
        ensures
            final(self).ring_ok(),
            final(self).items() == old(self).items().push(item@),
            final(self).head == old(self).head,
            final(self).count == old(self).count + 1,
            final(self).send_wait_list == old(self).send_wait_list,
            final(self).recv_wait_list == old(self).recv_wait_list,
    {
        let ghost q0 = *self;
        let slot = self.tail;
        self.write_slot(slot, item);
        proof {
            lemma_next_slot(slot as int, CAPACITY as int);
        }
        self.tail = (self.tail + 1) % CAPACITY;
        self.count = self.count + 1;
        proof {
            assert forall|j: int| 0 <= j < self.count implies #[trigger] self.items()[j] == q0.items().push(item@)[j] by {
                if j < q0.count {
                    assert(ring_slot(q0.head as int, j, CAPACITY as int) != slot);
                }
            }
            assert(self.items() =~= q0.items().push(item@));
        }
    }

    /// Puts `item` in front (the queue is not full).
    fn push_front(&mut self, item: &[u8])
        requires
            old(self).ring_ok(),
            old(self).count < CAPACITY,
            item@.len() == ITEM_SIZE,
        ensures
            final(self).ring_ok(),
            final(self).items() == seq![item@] + old(self).items(),
            final(self).tail == old(self).tail,
            final(self).head == prev_slot(old(self).head as int, CAPACITY as int),
            final(self).count == old(self).count + 1,
            final(self).send_wait_list == old(self).send_wait_list,
            final(self).recv_wait_list == old(self).recv_wait_list,
    {
        let ghost q0 = *self;
        // one slot back, wrapping: (head + CAPACITY - 1) % CAPACITY
        let slot = if self.head == 0 {
            CAPACITY - 1
        } else {
            self.head - 1
        };
        self.write_slot(slot, item);
        self.head = slot;
        self.count = self.count + 1;
        proof {
            let expected = seq![item@] + q0.items();
            assert forall|j: int| 0 <= j < self.count implies #[trigger] self.items()[j] == expected[j] by {
                if j > 0 {
                    assert(ring_slot(slot as int, j, CAPACITY as int) == ring_slot(q0.head as int, j - 1, CAPACITY as int));
                    assert(ring_slot(slot as int, j, CAPACITY as int) != slot);
                }
            }
            assert(self.items() =~= expected);
        }
    }

    /// Takes the front item out into `out` (the queue is not empty).
    fn pop_front(&mut self, out: &mut Vec<u8>)
        requires
            old(self).ring_ok(),
            old(self).count > 0,
            old(out)@.len() == ITEM_SIZE,
        ensures
            final(self).ring_ok(),
            final(out)@ == old(self).items()[0],
            final(self).items() == old(self).items().drop_first(),
            final(self).tail == old(self).tail,
            final(self).head == ring_slot(old(self).head as int, 1, CAPACITY as int),
            final(self).count == old(self).count - 1,
            final(self).send_wait_list == old(self).send_wait_list,
            final(self).recv_wait_list == old(self).recv_wait_list,
    {
        let ghost q0 = *self;
        self.read_slot(self.head, out);
        proof {
            lemma_next_slot(self.head as int, CAPACITY as int);
        }
        self.head = (self.head + 1) % CAPACITY;
        self.count = self.count - 1;
        proof {
            assert forall|j: int| 0 <= j < self.count implies #[trigger] self.items()[j] == q0.items().drop_first()[j] by {
                assert(ring_slot(self.head as int, j, CAPACITY as int) == ring_slot(q0.head as int, j + 1, CAPACITY as int));
            }
            assert(self.items() =~= q0.items().drop_first());
        }
    }

    /// A step of `send`: appends `item` when there is room (waking the
    /// receiver of highest priority, if any); otherwise fails when no time
    /// is left, or blocks the running task on the send wait list for the
    /// remaining time.
    pub fn send(&mut self, k: &mut Kernel, item: &[u8], w: &Wait) -> (r: BlockStep)
        requires
            old(k).wf(),
            old(self).wf(old(k)),
            item@.len() == ITEM_SIZE,
            old(self).count == CAPACITY && w.remaining > 0 ==> old(k).current != IDLE_TASK
                && old(k).tcbs@[old(k).current as int].event_list_item.ctner.is_none(),
        ensures
            final(k).wf(),
            final(self).wf(final(k)),
            old(self).count < CAPACITY ==> Self::sent(old(self), final(self), old(k), final(k), r, old(self).items().push(item@))
                && final(self).head == old(self).head && final(self).count == old(self).count + 1,
            old(self).count == CAPACITY ==> Self::send_blocked(old(self), final(self), old(k), final(k), r, w),
    {
        if self.count < CAPACITY {
            self.push_back(item);
            return self.wake_receiver(k);
        }
        self.block_sender(k, w)
    }

    /// A step of `send_to_front`: as `send`, but the item goes in front.
    pub fn send_to_front(&mut self, k: &mut Kernel, item: &[u8], w: &Wait) -> (r: BlockStep)
        requires
            old(k).wf(),
            old(self).wf(old(k)),
            item@.len() == ITEM_SIZE,
            old(self).count == CAPACITY && w.remaining > 0 ==> old(k).current != IDLE_TASK
                && old(k).tcbs@[old(k).current as int].event_list_item.ctner.is_none(),
        ensures
            final(k).wf(),
            final(self).wf(final(k)),
            old(self).count < CAPACITY ==> Self::sent(old(self), final(self), old(k), final(k), r, seq![item@] + old(self).items())
                && final(self).head == prev_slot(old(self).head as int, CAPACITY as int)
                && final(self).count == old(self).count + 1,
            old(self).count == CAPACITY ==> Self::send_blocked(old(self), final(self), old(k), final(k), r, w),
    {
        if self.count < CAPACITY {
            self.push_front(item);
            return self.wake_receiver(k);
        }
        self.block_sender(k, w)
    }

    /// A step of `receive`: takes the front item into `out` when there is
    /// one (waking the sender of highest priority, if any); otherwise fails
    /// when no time is left, or blocks the running task on the receive wait
    /// list for the remaining time.
    pub fn receive(&mut self, k: &mut Kernel, out: &mut Vec<u8>, w: &Wait) -> (r: BlockStep)
        requires
            old(k).wf(),
            old(self).wf(old(k)),
            old(out)@.len() == ITEM_SIZE,
            old(self).count == 0 && w.remaining > 0 ==> old(k).current != IDLE_TASK
                && old(k).tcbs@[old(k).current as int].event_list_item.ctner.is_none(),
        ensures
            final(k).wf(),
            final(self).wf(final(k)),
            old(self).count > 0 ==> {
                &&& final(out)@ == old(self).items()[0]
                &&& final(self).items() == old(self).items().drop_first()
                &&& final(self).head == ring_slot(old(self).head as int, 1, CAPACITY as int)
                &&& final(self).count == old(self).count - 1
                &&& final(self).recv_wait_list == old(self).recv_wait_list
                &&& (old(self).send_wait_list.items@.len() == 0 ==> r == BlockStep::Done(true, false)
                    && final(self).send_wait_list == old(self).send_wait_list && *final(k) == *old(k))
                &&& (old(self).send_wait_list.items@.len() > 0 ==> exists|y: bool|
                    r == BlockStep::Done(true, y) && woke_first_waiter(
                        old(k),
                        final(k),
                        &old(self).send_wait_list,
                        &final(self).send_wait_list,
                        old(self).send_wait_list.items@[0].owner.unwrap(),
                        y,
                    ))
            },
            old(self).count == 0 ==> Self::receive_blocked(old(self), final(self), old(k), final(k), r, w)
                && final(out)@ == old(out)@,
    {
        if self.count > 0 {
            self.pop_front(out);
            if self.send_wait_list.items.len() > 0 {
                let ghost k0 = *k;
                let ghost s0 = self.send_wait_list;
                let (t, y) = k.wake_waiter(&mut self.send_wait_list);
                proof {
                    assert(has_owner(s0.items@, t));
                    lemma_wait_list_other(&self.recv_wait_list, &k0, k, t as int);
                    lemma_remove_owners(s0.items@, 0);
                    assert(woke_first_waiter(&k0, k, &s0, &self.send_wait_list, s0.items@[0].owner.unwrap(), y));
                }
                return BlockStep::Done(true, y);
            }
            return BlockStep::Done(true, false);
        }
        self.block_receiver(k, w)
    }

    /// A step of `peek`: copies the front item into `out`, leaving it queued,
    /// when there is one; otherwise as `receive`.
    pub fn peek(&mut self, k: &mut Kernel, out: &mut Vec<u8>, w: &Wait) -> (r: BlockStep)
        requires
            old(k).wf(),
            old(self).wf(old(k)),
            old(out)@.len() == ITEM_SIZE,
            old(self).count == 0 && w.remaining > 0 ==> old(k).current != IDLE_TASK
                && old(k).tcbs@[old(k).current as int].event_list_item.ctner.is_none(),
        ensures
            final(k).wf(),
            final(self).wf(final(k)),
            old(self).count > 0 ==> r == BlockStep::Done(true, false) && final(out)@ == old(self).items()[0]
                && *final(self) == *old(self) && *final(k) == *old(k),
            old(self).count == 0 ==> Self::receive_blocked(old(self), final(self), old(k), final(k), r, w)
                && final(out)@ == old(out)@,
    {
        if self.count > 0 {
            proof {
                assert(ring_slot(self.head as int, 0, CAPACITY as int) == self.head);
            }
            self.read_slot(self.head, out);
            return BlockStep::Done(true, false);
        }
        self.block_receiver(k, w)
    }

    /// An item went in: the queue holds `items`, and the receiver of highest
    /// priority, if any, was woken.
    pub open spec fn sent(
        q0: &Self,
        q1: &Self,
        k0: &Kernel,
        k1: &Kernel,
        r: BlockStep,
        items: Seq<Seq<u8>>,
    ) -> bool {
        &&& q1.items() == items
        &&& q1.send_wait_list == q0.send_wait_list
        &&& (q0.recv_wait_list.items@.len() == 0 ==> r == BlockStep::Done(true, false)
            && q1.recv_wait_list == q0.recv_wait_list && *k1 == *k0)
        &&& (q0.recv_wait_list.items@.len() > 0 ==> exists|y: bool|
            r == BlockStep::Done(true, y) && woke_first_waiter(
                k0,
                k1,
                &q0.recv_wait_list,
                &q1.recv_wait_list,
                q0.recv_wait_list.items@[0].owner.unwrap(),
                y,
            ))
    }

    /// A full queue: the call fails with no time left, or the running task
    /// blocks on the send wait list.
    pub open spec fn send_blocked(q0: &Self, q1: &Self, k0: &Kernel, k1: &Kernel, r: BlockStep, w: &Wait) -> bool {
        &&& q1.items() == q0.items()
        &&& q1.storage == q0.storage
        &&& q1.head == q0.head
        &&& q1.tail == q0.tail
        &&& q1.count == q0.count
        &&& q1.recv_wait_list == q0.recv_wait_list
        &&& (w.remaining == 0 ==> r == BlockStep::Done(false, false) && q1.send_wait_list
            == q0.send_wait_list && *k1 == *k0)
        &&& (w.remaining > 0 ==> r == BlockStep::Yield && blocked_current(
            k0,
            k1,
            &q0.send_wait_list,
            &q1.send_wait_list,
            w.remaining,
        ))
    }

    /// An empty queue: the call fails with no time left, or the running task
    /// blocks on the receive wait list.
    pub open spec fn receive_blocked(q0: &Self, q1: &Self, k0: &Kernel, k1: &Kernel, r: BlockStep, w: &Wait) -> bool {
        &&& q1.items() == q0.items()
        &&& q1.storage == q0.storage
        &&& q1.head == q0.head
        &&& q1.tail == q0.tail
        &&& q1.count == q0.count
        &&& q1.send_wait_list == q0.send_wait_list
        &&& (w.remaining == 0 ==> r == BlockStep::Done(false, false) && q1.recv_wait_list
            == q0.recv_wait_list && *k1 == *k0)
        &&& (w.remaining > 0 ==> r == BlockStep::Yield && blocked_current(
            k0,
            k1,
            &q0.recv_wait_list,
            &q1.recv_wait_list,
            w.remaining,
        ))
    }

    /// After an item went in: wakes the receiver of highest priority, if any.
    fn wake_receiver(&mut self, k: &mut Kernel) -> (r: BlockStep)
        requires
            old(k).wf(),
            old(self).ring_ok(),
            wait_list_ok(&old(self).send_wait_list, old(k)),
            wait_list_ok(&old(self).recv_wait_list, old(k)),
            lists_apart(&old(self).send_wait_list, &old(self).recv_wait_list),
        ensures
            final(k).wf(),
            final(self).wf(final(k)),
            Self::sent(old(self), final(self), old(k), final(k), r, old(self).items()),
            final(self).head == old(self).head,
            final(self).tail == old(self).tail,
            final(self).count == old(self).count,
    {
        let ghost k0 = *k;
        let ghost q0 = *self;
        if self.recv_wait_list.items.len() > 0 {
            let (t, y) = k.wake_waiter(&mut self.recv_wait_list);
            proof {
                assert(has_owner(q0.recv_wait_list.items@, t));
                lemma_wait_list_other(&self.send_wait_list, &k0, k, t as int);
                lemma_remove_owners(q0.recv_wait_list.items@, 0);
                assert(self.items() =~= q0.items());
                assert(woke_first_waiter(
                    &k0,
                    k,
                    &q0.recv_wait_list,
                    &self.recv_wait_list,
                    q0.recv_wait_list.items@[0].owner.unwrap(),
                    y,
                ));
            }
            return BlockStep::Done(true, y);
        }
        BlockStep::Done(true, false)
    }

    fn block_sender(&mut self, k: &mut Kernel, w: &Wait) -> (r: BlockStep)
        requires
            old(k).wf(),
            old(self).wf(old(k)),
            old(self).count == CAPACITY,
            w.remaining > 0 ==> old(k).current != IDLE_TASK
                && old(k).tcbs@[old(k).current as int].event_list_item.ctner.is_none(),
        ensures
            final(k).wf(),
            final(self).wf(final(k)),
            Self::send_blocked(old(self), final(self), old(k), final(k), r, w),
    {
        if w.remaining == 0 {
            return BlockStep::Done(false, false);
        }
        let ghost k0 = *k;
        let ghost l0 = self.send_wait_list;
        proof {
            lemma_not_waiting(&self.recv_wait_list, &k0, k0.current);
        }
        k.place_on_event_list(&mut self.send_wait_list, w.remaining);
        proof {
            lemma_wait_list_other(&self.recv_wait_list, &k0, k, k0.current as int);
            let prio = k0.tcbs@[k0.current as int].priority;
            crate::list::lemma_insert_position(l0.items@, crate::event::wait_value(prio));
            lemma_insert_owners(l0.items@, insert_position(l0.items@, crate::event::wait_value(prio)), crate::event::wait_item(k0.current, prio));
        }
        BlockStep::Yield
    }

    fn block_receiver(&mut self, k: &mut Kernel, w: &Wait) -> (r: BlockStep)
        requires
            old(k).wf(),
            old(self).wf(old(k)),
            old(self).count == 0,
            w.remaining > 0 ==> old(k).current != IDLE_TASK
                && old(k).tcbs@[old(k).current as int].event_list_item.ctner.is_none(),
        ensures
            final(k).wf(),
            final(self).wf(final(k)),
            Self::receive_blocked(old(self), final(self), old(k), final(k), r, w),
    {
        if w.remaining == 0 {
            return BlockStep::Done(false, false);
        }
        let ghost k0 = *k;
        let ghost l0 = self.recv_wait_list;
        proof {
            lemma_not_waiting(&self.send_wait_list, &k0, k0.current);
        }
        k.place_on_event_list(&mut self.recv_wait_list, w.remaining);
        proof {
            lemma_wait_list_other(&self.send_wait_list, &k0, k, k0.current as int);
            let prio = k0.tcbs@[k0.current as int].priority;
            crate::list::lemma_insert_position(l0.items@, crate::event::wait_value(prio));
            lemma_insert_owners(l0.items@, insert_position(l0.items@, crate::event::wait_value(prio)), crate::event::wait_item(k0.current, prio));
        }
        BlockStep::Yield
    }

    /// The step after a blocked `send` or `send_to_front` runs again:
    /// `Some(false)` when the wait timed out (the task leaves the send wait
    /// list) or when the whole timeout has passed; `None` when the call is
    /// to be tried again.
    pub fn send_after_wake(&mut self, k: &mut Kernel, w: &mut Wait) -> (r: Option<bool>)
        requires
            old(k).wf(),
            old(self).wf(old(k)),
            !has_owner(old(self).recv_wait_list.items@, old(k).current),
        ensures
            final(k).wf(),
            final(self).wf(final(k)),
            final(self).items() == old(self).items(),
            final(self).head == old(self).head,
            final(self).count == old(self).count,
            final(self).recv_wait_list == old(self).recv_wait_list,
            old(k).tcbs@[old(k).current as int].event_list_item.ctner.is_some() ==> r == Some(false)
                && *final(w) == *old(w) && timeout_cleared(
                old(k),
                final(k),
                &old(self).send_wait_list,
                &final(self).send_wait_list,
            ),
            old(k).tcbs@[old(k).current as int].event_list_item.ctner.is_none() ==> *final(k) == *old(
                k,
            ) && final(self).send_wait_list == old(self).send_wait_list && wake_verdict(
                *old(w),
                *final(w),
                old(k).tick_count,
                r,
            ),
    {
        let ghost k0 = *k;
        let ghost l0 = self.send_wait_list;
        if k.check_timed_out(&mut self.send_wait_list) {
            proof {
                lemma_wait_list_other(&self.recv_wait_list, &k0, k, k0.current as int);
                if has_owner(l0.items@, k0.current) {
                    let p = choose|p: int|
                        0 <= p < l0.items@.len() && l0.items@[p].owner == Some(k0.current)
                            && (forall|j: int| 0 <= j < p ==> l0.items@[j].owner != Some(k0.current))
                            && self.send_wait_list.items@ == l0.items@.remove(p);
                    lemma_remove_owners(l0.items@, p);
                }
            }
            return Some(false);
        }
        if w.still_waiting(k.tick_count) {
            None
        } else {
            Some(false)
        }
    }

    /// The step after a blocked `receive` or `peek` runs again, as
    /// `send_after_wake` with the receive wait list.
    pub fn receive_after_wake(&mut self, k: &mut Kernel, w: &mut Wait) -> (r: Option<bool>)
        requires
            old(k).wf(),
            old(self).wf(old(k)),
            !has_owner(old(self).send_wait_list.items@, old(k).current),
        ensures
            final(k).wf(),
            final(self).wf(final(k)),
            final(self).items() == old(self).items(),
            final(self).head == old(self).head,
            final(self).count == old(self).count,
            final(self).send_wait_list == old(self).send_wait_list,
            old(k).tcbs@[old(k).current as int].event_list_item.ctner.is_some() ==> r == Some(false)
                && *final(w) == *old(w) && timeout_cleared(
                old(k),
                final(k),
                &old(self).recv_wait_list,
                &final(self).recv_wait_list,
            ),
            old(k).tcbs@[old(k).current as int].event_list_item.ctner.is_none() ==> *final(k) == *old(
                k,
            ) && final(self).recv_wait_list == old(self).recv_wait_list && wake_verdict(
                *old(w),
                *final(w),
                old(k).tick_count,
                r,
            ),
    {
        let ghost k0 = *k;
        let ghost l0 = self.recv_wait_list;
        if k.check_timed_out(&mut self.recv_wait_list) {
            proof {
                lemma_wait_list_other(&self.send_wait_list, &k0, k, k0.current as int);
                if has_owner(l0.items@, k0.current) {
                    let p = choose|p: int|
                        0 <= p < l0.items@.len() && l0.items@[p].owner == Some(k0.current)
                            && (forall|j: int| 0 <= j < p ==> l0.items@[j].owner != Some(k0.current))
                            && self.recv_wait_list.items@ == l0.items@.remove(p);
                    lemma_remove_owners(l0.items@, p);
                }
            }
            return Some(false);
        }
        if w.still_waiting(k.tick_count) {
            None
        } else {
            Some(false)
        }
    }
}

/// A queue of `CAPACITY` values of type `T`, with the same ring and wait
/// lists as `Queue`; the values themselves are kept typed.
pub struct QueueHandle<T: Copy, const ITEM_SIZE: usize, const CAPACITY: usize, const STORAGE_SIZE: usize> {
    /// The ring and the wait lists.
    pub inner: Queue<0, CAPACITY, 0>,
    /// The value in each slot, if any.
    pub values: Vec<Option<T>>,
}

impl<T: Copy, const ITEM_SIZE: usize, const CAPACITY: usize, const STORAGE_SIZE: usize> QueueHandle<
    T,
    ITEM_SIZE,
    CAPACITY,
    STORAGE_SIZE,
> {
    pub open spec fn wf(&self, k: &Kernel) -> bool {
        &&& self.inner.wf(k)
        &&& self.values@.len() == CAPACITY
        &&& forall|j: int|
            0 <= j < self.inner.count ==> (#[trigger] self.values@[ring_slot(
                self.inner.head as int,
                j,
                CAPACITY as int,
            )]).is_some()
    }

    /// The queued values, first to be received first.
    pub open spec fn items(&self) -> Seq<T> {
        Seq::new(
            self.inner.count as nat,
            |j: int| self.values@[ring_slot(self.inner.head as int, j, CAPACITY as int)].unwrap(),
        )
    }

    /// An empty queue.
    pub fn new() -> (q: Self)
        ensures
            q.inner.ring_ok(),
            q.values@.len() == CAPACITY,
            q.items().len() == 0,
            q.inner.send_wait_list.items@.len() == 0,
            q.inner.recv_wait_list.items@.len() == 0,
            q.inner.send_wait_list.index == 0,
            q.inner.recv_wait_list.index == 0,
            q.inner.head == 0,
            q.inner.storage@.len() == 0,
    {
        let mut values: Vec<Option<T>> = Vec::new();
        let mut i: usize = 0;
        while i < CAPACITY
            invariant
                i <= CAPACITY,
                values@.len() == i,
            decreases CAPACITY - i,
        {
            values.push(None);
            i = i + 1;
        }
        QueueHandle { inner: Queue::new(), values }
    }

    /// Empties both wait lists.
    pub fn init(&mut self)
        ensures
            final(self).items() == old(self).items(),
            final(self).inner.head == old(self).inner.head,
            final(self).inner.tail == old(self).inner.tail,
            final(self).inner.count == old(self).inner.count,
            final(self).inner.storage == old(self).inner.storage,
            final(self).values == old(self).values,
            final(self).inner.send_wait_list.items@.len() == 0,
            final(self).inner.recv_wait_list.items@.len() == 0,
            final(self).inner.send_wait_list.index == 0,
            final(self).inner.recv_wait_list.index == 0,
    {
        self.inner.init();
    }

    pub fn len(&self) -> (r: usize)
        ensures
            r == self.items().len(),
    {
        self.inner.len()
    }

    pub fn is_empty(&self) -> (r: bool)
        ensures
            r == (self.items().len() == 0),
    {
        self.inner.is_empty()
    }

    pub fn is_full(&self) -> (r: bool)
        ensures
            r == (self.items().len() == CAPACITY),
    {
        self.inner.is_full()
    }

    /// A step of `send` with a typed value.
    pub fn send_t(&mut self, k: &mut Kernel, item: T, w: &Wait) -> (r: BlockStep)
        requires
            old(k).wf(),
            old(self).wf(old(k)),
            old(self).inner.count == CAPACITY && w.remaining > 0 ==> old(k).current != IDLE_TASK
                && old(k).tcbs@[old(k).current as int].event_list_item.ctner.is_none(),
        ensures
            final(k).wf(),
            final(self).wf(final(k)),
            old(self).inner.count < CAPACITY ==> final(self).items() == old(self).items().push(item)
                && Queue::<0, CAPACITY, 0>::sent(
                &old(self).inner,
                &final(self).inner,
                old(k),
                final(k),
                r,
                old(self).inner.items().push(Seq::empty()),
            ),
            old(self).inner.count == CAPACITY ==> final(self).values == old(self).values && final(self).items() == old(self).items()
                && Queue::<0, CAPACITY, 0>::send_blocked(
                &old(self).inner,
                &final(self).inner,
                old(k),
                final(k),
                r,
                w,
            ),
    {
        let ghost q0 = *self;
        let empty: Vec<u8> = Vec::new();
        if self.inner.count < CAPACITY {
            let slot = self.inner.tail;
            self.values.set(slot, Some(item));
            proof {
                assert forall|j: int| 0 <= j < q0.inner.count implies #[trigger] ring_slot(q0.inner.head as int, j, CAPACITY as int) != slot by {}
            }
        }
        let r = self.inner.send(k, empty.as_slice(), w);
        proof {
            let q1 = *self;
            if q0.inner.count < CAPACITY {
                assert forall|j: int| 0 <= j < q1.inner.count implies (#[trigger] q1.values@[ring_slot(
                    q1.inner.head as int,
                    j,
                    CAPACITY as int,
                )]).is_some() && q1.values@[ring_slot(q1.inner.head as int, j, CAPACITY as int)].unwrap()
                    == q0.items().push(item)[j] by {
                    if j < q0.inner.count {
                        assert(ring_slot(q0.inner.head as int, j, CAPACITY as int) != q0.inner.tail);
                    }
                }
                assert(q1.items() =~= q0.items().push(item));
            } else {
                assert(q1.items() =~= q0.items());
            }
        }
        r
    }

    /// A step of `send_to_front` with a typed value.
    pub fn send_to_front_t(&mut self, k: &mut Kernel, item: T, w: &Wait) -> (r: BlockStep)
        requires
            old(k).wf(),
            old(self).wf(old(k)),
            old(self).inner.count == CAPACITY && w.remaining > 0 ==> old(k).current != IDLE_TASK
                && old(k).tcbs@[old(k).current as int].event_list_item.ctner.is_none(),
        ensures
            final(k).wf(),
            final(self).wf(final(k)),
            old(self).inner.count < CAPACITY ==> final(self).items() == seq![item] + old(self).items()
                && Queue::<0, CAPACITY, 0>::sent(
                &old(self).inner,
                &final(self).inner,
                old(k),
                final(k),
                r,
                seq![Seq::empty()] + old(self).inner.items(),
            ),
            old(self).inner.count == CAPACITY ==> final(self).values == old(self).values && final(self).items() == old(self).items()
                && Queue::<0, CAPACITY, 0>::send_blocked(
                &old(self).inner,
                &final(self).inner,
                old(k),
                final(k),
                r,
                w,
            ),
    {
        let ghost q0 = *self;
        let empty: Vec<u8> = Vec::new();
        if self.inner.count < CAPACITY {
            let slot = if self.inner.head == 0 {
                CAPACITY - 1
            } else {
                self.inner.head - 1
            };
            self.values.set(slot, Some(item));
        }
        let r = self.inner.send_to_front(k, empty.as_slice(), w);
        proof {
            let q1 = *self;
            if q0.inner.count < CAPACITY {
                let slot = prev_slot(q0.inner.head as int, CAPACITY as int);
                assert forall|j: int| 0 <= j < q1.inner.count implies (#[trigger] q1.values@[ring_slot(
                    q1.inner.head as int,
                    j,
                    CAPACITY as int,
                )]).is_some() && q1.values@[ring_slot(q1.inner.head as int, j, CAPACITY as int)].unwrap()
                    == (seq![item] + q0.items())[j] by {
                    if j > 0 {
                        assert(ring_slot(slot, j, CAPACITY as int) == ring_slot(q0.inner.head as int, j - 1, CAPACITY as int));
                        assert(ring_slot(slot, j, CAPACITY as int) != slot);
                    }
                }
                assert(q1.items() =~= seq![item] + q0.items());
            } else {
                assert(q1.items() =~= q0.items());
            }
        }
        r
    }

    /// A step of `receive` into a typed value.
    pub fn receive_t(&mut self, k: &mut Kernel, out: &mut T, w: &Wait) -> (r: BlockStep)
        requires
            old(k).wf(),
            old(self).wf(old(k)),
            old(self).inner.count == 0 && w.remaining > 0 ==> old(k).current != IDLE_TASK
                && old(k).tcbs@[old(k).current as int].event_list_item.ctner.is_none(),
        ensures
            final(k).wf(),
            final(self).wf(final(k)),
            old(self).inner.count > 0 ==> {
                &&& *final(out) == old(self).items()[0]
                &&& final(self).items() == old(self).items().drop_first()
                &&& final(self).inner.recv_wait_list == old(self).inner.recv_wait_list
                &&& (old(self).inner.send_wait_list.items@.len() == 0 ==> r == BlockStep::Done(
                    true,
                    false,
                ) && final(self).inner.send_wait_list == old(self).inner.send_wait_list && *final(k)
                    == *old(k))
                &&& (old(self).inner.send_wait_list.items@.len() > 0 ==> exists|y: bool|
                    r == BlockStep::Done(true, y) && woke_first_waiter(
                        old(k),
                        final(k),
                        &old(self).inner.send_wait_list,
                        &final(self).inner.send_wait_list,
                        old(self).inner.send_wait_list.items@[0].owner.unwrap(),
                        y,
                    ))
            },
            old(self).inner.count == 0 ==> *final(out) == *old(out) && final(self).values == old(self).values && final(self).items() == old(
                self,
            ).items() && Queue::<0, CAPACITY, 0>::receive_blocked(
                &old(self).inner,
                &final(self).inner,
                old(k),
                final(k),
                r,
                w,
            ),
    {
        let ghost q0 = *self;
        if self.inner.count > 0 {
            proof {
                assert(ring_slot(q0.inner.head as int, 0, CAPACITY as int) == q0.inner.head);
                assert(self.values@[ring_slot(q0.inner.head as int, 0, CAPACITY as int)].is_some());
            }
            *out = self.values[self.inner.head].unwrap();
        }
        let mut empty: Vec<u8> = Vec::new();
        let r = self.inner.receive(k, &mut empty, w);
        proof {
            let q1 = *self;
            if q0.inner.count > 0 {
                assert forall|j: int| 0 <= j < q1.inner.count implies #[trigger] ring_slot(
                    q1.inner.head as int,
                    j,
                    CAPACITY as int,
                ) == ring_slot(q0.inner.head as int, j + 1, CAPACITY as int) by {}
                assert(q1.items() =~= q0.items().drop_first());
            } else {
                assert(q1.items() =~= q0.items());
            }
        }
        r
    }

    /// A step of `peek` into a typed value.
    pub fn peek_t(&mut self, k: &mut Kernel, out: &mut T, w: &Wait) -> (r: BlockStep)
        requires
            old(k).wf(),
            old(self).wf(old(k)),
            old(self).inner.count == 0 && w.remaining > 0 ==> old(k).current != IDLE_TASK
                && old(k).tcbs@[old(k).current as int].event_list_item.ctner.is_none(),
        ensures
            final(k).wf(),
            final(self).wf(final(k)),
            old(self).inner.count > 0 ==> r == BlockStep::Done(true, false) && *final(out) == old(
                self,
            ).items()[0] && final(self).items() == old(self).items() && *final(k) == *old(k),
            old(self).inner.count == 0 ==> *final(out) == *old(out) && final(self).values == old(self).values && final(self).items() == old(
                self,
            ).items() && Queue::<0, CAPACITY, 0>::receive_blocked(
                &old(self).inner,
                &final(self).inner,
                old(k),
                final(k),
                r,
                w,
            ),
    {
        let ghost q0 = *self;
        if self.inner.count > 0 {
            proof {
                assert(ring_slot(q0.inner.head as int, 0, CAPACITY as int) == q0.inner.head);
                assert(self.values@[ring_slot(q0.inner.head as int, 0, CAPACITY as int)].is_some());
            }
            *out = self.values[self.inner.head].unwrap();
        }
        let mut empty: Vec<u8> = Vec::new();
        let r = self.inner.peek(k, &mut empty, w);
        proof {
            let q1 = *self;
            assert(q1.items() =~= q0.items());
        }
        r
    }

    /// As `Queue::send_after_wake`.
    pub fn send_after_wake(&mut self, k: &mut Kernel, w: &mut Wait) -> (r: Option<bool>)
        requires
            old(k).wf(),
            old(self).wf(old(k)),
            !has_owner(old(self).inner.recv_wait_list.items@, old(k).current),
        ensures
            final(k).wf(),
            final(self).wf(final(k)),
            final(self).items() == old(self).items(),
            old(k).tcbs@[old(k).current as int].event_list_item.ctner.is_some() ==> r == Some(false)
                && *final(w) == *old(w) && timeout_cleared(
                old(k),
                final(k),
                &old(self).inner.send_wait_list,
                &final(self).inner.send_wait_list,
            ),
            old(k).tcbs@[old(k).current as int].event_list_item.ctner.is_none() ==> *final(k) == *old(
                k,
            ) && wake_verdict(*old(w), *final(w), old(k).tick_count, r),
    {
        let ghost q0 = *self;
        let r = self.inner.send_after_wake(k, w);
        proof {
            assert(self.items() =~= q0.items());
        }
        r
    }

    /// As `Queue::receive_after_wake`.
    pub fn receive_after_wake(&mut self, k: &mut Kernel, w: &mut Wait) -> (r: Option<bool>)
        requires
            old(k).wf(),
            old(self).wf(old(k)),
            !has_owner(old(self).inner.send_wait_list.items@, old(k).current),
        ensures
            final(k).wf(),
            final(self).wf(final(k)),
            final(self).items() == old(self).items(),
            old(k).tcbs@[old(k).current as int].event_list_item.ctner.is_some() ==> r == Some(false)
                && *final(w) == *old(w) && timeout_cleared(
                old(k),
                final(k),
                &old(self).inner.recv_wait_list,
                &final(self).inner.recv_wait_list,
            ),
            old(k).tcbs@[old(k).current as int].event_list_item.ctner.is_none() ==> *final(k) == *old(
                k,
            ) && wake_verdict(*old(w), *final(w), old(k).tick_count, r),
    {
        let ghost q0 = *self;
        let r = self.inner.receive_after_wake(k, w);
        proof {
            assert(self.items() =~= q0.items());
        }
        r
    }
}

/// First in, first out: an item sent to the back comes out after every item
/// already queued, which keep their order; an item sent to the front comes
/// out first, and the others keep their order behind it.
pub proof fn lemma_fifo(s: Seq<Seq<u8>>, x: Seq<u8>)
    ensures
        s.push(x)[s.len() as int] == x,
        s.push(x).take(s.len() as int) == s,
        (seq![x] + s)[0] == x,
        (seq![x] + s).drop_first() == s,
{
    assert(s.push(x).take(s.len() as int) =~= s);
    assert((seq![x] + s).drop_first() =~= s);
}

/// The items of a queue holding `s` once `xs` have been sent to the back,
/// one after the other.
pub open spec fn after_sends(s: Seq<Seq<u8>>, xs: Seq<Seq<u8>>) -> Seq<Seq<u8>>
    decreases xs.len(),
{
    if xs.len() == 0 {
        s
    } else {
        after_sends(s.push(xs[0]), xs.drop_first())
    }
}

/// The items received, in order, by `n` receives from a queue holding `s`.
pub open spec fn received(s: Seq<Seq<u8>>, n: nat) -> Seq<Seq<u8>>
    decreases n,
{
    if n == 0 || s.len() == 0 {
        Seq::empty()
    } else {
        seq![s[0]] + received(s.drop_first(), (n - 1) as nat)
    }
}

/// The items left after `n` receives from a queue holding `s`.
pub open spec fn after_receives(s: Seq<Seq<u8>>, n: nat) -> Seq<Seq<u8>>
    decreases n,
{
    if n == 0 || s.len() == 0 {
        s
    } else {
        after_receives(s.drop_first(), (n - 1) as nat)
    }
}

/// Sending then receiving: after items `xs` are sent to a queue holding `s`,
/// as many receives as there are items then give back `s` followed by `xs`,
/// in that order, and leave the queue empty; in particular `k` sends to an
/// empty queue followed by `k` receives leave it empty.
pub proof fn lemma_fill_then_drain(s: Seq<Seq<u8>>, xs: Seq<Seq<u8>>)
    ensures
        after_sends(s, xs) == s + xs,
        received(s + xs, (s.len() + xs.len()) as nat) == s + xs,
        after_receives(s + xs, (s.len() + xs.len()) as nat).len() == 0,
    decreases xs.len(),
{
    lemma_sends_append(s, xs);
    lemma_drain_all(s + xs);
}

proof fn lemma_sends_append(s: Seq<Seq<u8>>, xs: Seq<Seq<u8>>)
    ensures
        after_sends(s, xs) == s + xs,
    decreases xs.len(),
{
    if xs.len() == 0 {
        assert(s + xs =~= s);
    } else {
        lemma_sends_append(s.push(xs[0]), xs.drop_first());
        assert(s.push(xs[0]) + xs.drop_first() =~= s + xs);
    }
}

proof fn lemma_drain_all(t: Seq<Seq<u8>>)
    ensures
        received(t, t.len()) == t,
        after_receives(t, t.len()).len() == 0,
    decreases t.len(),
{
    if t.len() > 0 {
        lemma_drain_all(t.drop_first());
        assert(seq![t[0]] + t.drop_first() =~= t);
    }
}

/// A successful receive: from items `s0` the front one, `out`, was taken,
/// leaving `s1`.
pub open spec fn received_front(s0: Seq<Seq<u8>>, s1: Seq<Seq<u8>>, out: Seq<u8>) -> bool {
    &&& s0.len() > 0
    &&& out == s0[0]
    &&& s1 == s0.drop_first()
}

/// Sending and then receiving on one queue: from an empty queue (states
/// `qs`), `k` successful sends to the back of `xs[0]`, ..., `xs[k-1]`
/// followed by `k` successful receives (which give `outs`) receive exactly
/// `xs`, in order, and leave the queue empty.
pub proof fn lemma_send_then_receive<const IS: usize, const CAP: usize, const SS: usize>(
    qs: Seq<Queue<IS, CAP, SS>>,
    xs: Seq<Seq<u8>>,
    outs: Seq<Seq<u8>>,
)
    requires
        qs.len() == 2 * xs.len() + 1,
        outs.len() == xs.len(),
        qs[0].items().len() == 0,
        forall|i: int| 0 <= i < xs.len() ==> (#[trigger] qs[i + 1]).items() == qs[i].items().push(xs[i]),
        forall|j: int|
            0 <= j < xs.len() ==> #[trigger] received_front(
                qs[xs.len() + j].items(),
                qs[xs.len() + j + 1].items(),
                outs[j],
            ),
    ensures
        outs == xs,
        qs[2 * xs.len() as int].items().len() == 0,
        qs[2 * xs.len() as int].count == 0,
{
    let k = xs.len() as int;
    lemma_sends_prefix(qs, xs, k);
    assert(qs[2 * k].items().len() == qs[2 * k].count);
    assert forall|j: int| 0 <= j < k implies #[trigger] outs[j] == xs[j] by {
        lemma_receives_suffix(qs, xs, outs, j);
    }
    lemma_receives_suffix(qs, xs, outs, k);
    assert(outs =~= xs);
}

proof fn lemma_sends_prefix<const IS: usize, const CAP: usize, const SS: usize>(
    qs: Seq<Queue<IS, CAP, SS>>,
    xs: Seq<Seq<u8>>,
    m: int,
)
    requires
        qs.len() == 2 * xs.len() + 1,
        qs[0].items().len() == 0,
        forall|i: int| 0 <= i < xs.len() ==> (#[trigger] qs[i + 1]).items() == qs[i].items().push(xs[i]),
        0 <= m <= xs.len(),
    ensures
        qs[m].items() == xs.take(m),
    decreases m,
{
    if m == 0 {
        assert(qs[0].items() =~= xs.take(0));
    } else {
        lemma_sends_prefix(qs, xs, m - 1);
        assert(qs[(m - 1) + 1].items() == qs[m - 1].items().push(xs[m - 1]));
        assert(xs.take(m - 1).push(xs[m - 1]) =~= xs.take(m));
    }
}

proof fn lemma_receives_suffix<const IS: usize, const CAP: usize, const SS: usize>(
    qs: Seq<Queue<IS, CAP, SS>>,
    xs: Seq<Seq<u8>>,
    outs: Seq<Seq<u8>>,
    m: int,
)
    requires
        qs.len() == 2 * xs.len() + 1,
        outs.len() == xs.len(),
        qs[0].items().len() == 0,
        forall|i: int| 0 <= i < xs.len() ==> (#[trigger] qs[i + 1]).items() == qs[i].items().push(xs[i]),
        forall|j: int|
            0 <= j < xs.len() ==> #[trigger] received_front(
                qs[xs.len() + j].items(),
                qs[xs.len() + j + 1].items(),
                outs[j],
            ),
        0 <= m <= xs.len(),
    ensures
        qs[xs.len() + m].items() == xs.skip(m),
        m < xs.len() ==> outs[m] == xs[m],
    decreases m,
{
    let k = xs.len() as int;
    if m == 0 {
        lemma_sends_prefix(qs, xs, k);
        assert(xs.take(k) =~= xs.skip(0));
    } else {
        lemma_receives_suffix(qs, xs, outs, m - 1);
        assert(received_front(qs[k + (m - 1)].items(), qs[k + (m - 1) + 1].items(), outs[m - 1]));
        assert(xs.skip(m - 1).drop_first() =~= xs.skip(m));
    }
    if m < k {
        assert(received_front(qs[k + m].items(), qs[k + m + 1].items(), outs[m]));
    }
}

} // verus!
