//! A bounded first-in, first-out ring with power-of-two capacity.
//!
//! The two counters run freely and wrap; a slot is found by masking. A push
//! on a full ring hands the value back instead of dropping it, so the caller
//! decides what overflow means.
use vstd::prelude::*;

verus! {

/// Whether `n` is a power of two.
pub open spec fn is_pow2(n: u64) -> bool {
    n > 0 && n & ((n - 1) as u64) == 0
}

/// Counter value `at + i`, wrapped to 64 bits.
pub open spec fn wrapped(at: u64, i: int) -> u64 {
    if at + i > u64::MAX {
        (at + i - u64::MAX - 1) as u64
    } else {
        (at + i) as u64
    }
}

/// The slot that counter value `at + i` names under `mask`.
pub open spec fn slot_of(at: u64, i: int, mask: u64) -> int {
    (wrapped(at, i) & mask) as int
}

/// How far `head` is ahead of `tail`, both wrapped to 64 bits.
pub open spec fn distance(head: u64, tail: u64) -> int {
    if head >= tail {
        head - tail
    } else {
        head - tail + u64::MAX + 1
    }
}

/// The slot the next push writes, or `None` when the ring is full.
pub fn push_slot(head: u64, tail: u64, mask: u64) -> (r: Option<u64>)
    ensures
        r == (if distance(head, tail) > mask {
            None
        } else {
            Some(head & mask)
        }),
{
    if head.wrapping_sub(tail) > mask {
        None
    } else {
        Some(head & mask)
    }
}

/// The slot the next pop reads, or `None` when the ring is empty.
pub fn pop_slot(head: u64, tail: u64, mask: u64) -> (r: Option<u64>)
    ensures
        r == (if head == tail {
            None
        } else {
            Some(tail & mask)
        }),
{
    if tail == head {
        None
    } else {
        Some(tail & mask)
    }
}

proof fn lemma_mask_bounds(x: u64, mask: u64)
    ensures
        x & mask <= mask,
{
    assert(x & mask <= mask) by (bit_vector);
}

proof fn lemma_wrapped_truncates(at: u64, i: u64)
    ensures
        wrapped(at, i as int) == (at + i) as u64,
{
    if at + i > u64::MAX {
        assert((at + i) as u64 == at + i - 0x1_0000_0000_0000_0000) by (bit_vector)
            requires
                at + i > 0xffff_ffff_ffff_ffff,
        ;
    }
}

proof fn lemma_slots_differ(at: u64, i: u64, j: u64, mask: u64)
    requires
        mask < u64::MAX,
        mask & ((mask + 1) as u64) == 0,
        i <= mask,
        j <= mask,
        i != j,
    ensures
        slot_of(at, i as int, mask) != slot_of(at, j as int, mask),
{
    lemma_wrapped_truncates(at, i);
    lemma_wrapped_truncates(at, j);
    assert(mask & ((mask + 1) as u64) == 0 && i <= mask && j <= mask && i != j ==> ((at
        + i) as u64) & mask != ((at + j) as u64) & mask) by (bit_vector);
}

proof fn lemma_pow2_mask(n: u64)
    requires
        is_pow2(n),
    ensures
        ((n - 1) as u64) & n == 0,
{
    assert(n > 0 && n & ((n - 1) as u64) == 0 ==> ((n - 1) as u64) & n == 0) by (bit_vector);
}

proof fn lemma_double_pow2(n: u64)
    requires
        is_pow2(n),
        n <= 0x7fff_ffff_ffff_ffff,
    ensures
        is_pow2((2 * n) as u64),
{
    assert(n > 0 && n & ((n - 1) as u64) == 0 && n <= 0x7fff_ffff_ffff_ffff ==> (2 * n) as u64
        > 0 && ((2 * n) as u64) & ((2 * n - 1) as u64) == 0) by (bit_vector);
}

/// Two threads may each work with an old reading of the other's counter. If
/// `pushed` values went in and `popped` came out since the reader stood at
/// `seen`, and the writer still believes that the reader stands there, then a
/// push that this belief allows fits in truth, and the slot it writes holds
/// none of the values that wait.
pub proof fn law_old_readings_are_safe(seen: u64, popped: int, pushed: int, mask: u64, waiting: int)
    requires
        mask < u64::MAX,
        mask & ((mask + 1) as u64) == 0,
        0 <= popped <= pushed,
        pushed <= mask,
        popped <= waiting < pushed,
    ensures
        pushed - popped <= mask,
        slot_of(seen, pushed, mask) != slot_of(seen, waiting, mask),
{
    lemma_slots_differ(seen, pushed as u64, waiting as u64, mask);
}

/// A bounded ring of values.
#[derive(Debug)]
pub struct Ring<T> {
    slots: Vec<Option<T>>,
    mask: u64,
    head: u64,
    tail: u64,
}

impl<T> View for Ring<T> {
    type V = Seq<T>;

    closed spec fn view(&self) -> Seq<T> {
        Seq::new(
            distance(self.head, self.tail) as nat,
            |i: int| self.slots@[slot_of(self.tail, i, self.mask)]->0,
        )
    }
}

impl<T> Ring<T> {
    /// How many values the ring can hold.
    pub closed spec fn capacity(&self) -> int {
        self.slots@.len() as int
    }

    /// The mask fits the slots, no more is stored than fits, and exactly the
    /// slots between the counters hold a value.
    pub closed spec fn wf(&self) -> bool {
        &&& self.slots@.len() == self.mask + 1 <= usize::MAX
        &&& self.mask < u64::MAX
        &&& self.mask & ((self.mask + 1) as u64) == 0
        &&& distance(self.head, self.tail) <= self.mask + 1
        &&& forall|i: int|
            0 <= i < distance(self.head, self.tail) ==> self.slots@[#[trigger] slot_of(self.tail, i, self.mask)] is Some
    }

    /// No more waits than fits.
    pub proof fn lemma_fits(&self)
        requires
            self.wf(),
        ensures
            self@.len() <= self.capacity(),
    {
    }

    /// A ring for at least `capacity` values: the next power of two, and
    /// never fewer than two.
    pub fn new(capacity: usize) -> (r: Self)
        requires
            capacity <= usize::MAX / 2 + 1,
        ensures
            r.wf(),
            r@ == Seq::<T>::empty(),
            is_pow2(r.capacity() as u64),
            r.capacity() >= 2,
            r.capacity() >= capacity,
            r.capacity() == 2 || r.capacity() / 2 < capacity,
    {
        let mut n: u64 = 2;
        proof {
            assert(2u64 & ((2u64 - 1) as u64) == 0) by (bit_vector);
        }
        while n < capacity as u64
            invariant
                capacity <= usize::MAX / 2 + 1,
                is_pow2(n),
                n >= 2,
                n == 2 || n / 2 < capacity,
                n <= usize::MAX,
            decreases u64::MAX - n,
        {
            proof {
                lemma_double_pow2(n);
            }
            n = 2 * n;
        }
        let mut slots: Vec<Option<T>> = Vec::with_capacity(n as usize);
        let mut i: usize = 0;
        while i < n as usize
            invariant
                i <= n <= usize::MAX,
                slots@.len() == i,
            decreases n - i,
        {
            slots.push(None);
            i += 1;
        }
        proof {
            lemma_pow2_mask(n);
        }
        let r = Ring { slots, mask: n - 1, head: 0, tail: 0 };
        proof {
            assert(r@ =~= Seq::empty());
        }
        r
    }

    /// Append a value; `Err` hands it back when the ring is full.
    pub fn push(&mut self, value: T) -> (r: Result<(), T>)
        requires
            old(self).wf(),
        ensures
            final(self).wf(),
            final(self).capacity() == old(self).capacity(),
            match r {
                Ok(()) => old(self)@.len() < old(self).capacity() && final(self)@ == old(
                    self,
                )@.push(value),
                Err(back) => old(self)@.len() == old(self).capacity() && back == value
                    && final(self)@ == old(self)@,
            },
            ring_step(
                old(self)@,
                old(self).capacity(),
                (if r is Ok {
                    RingEvent::Accepted(value)
                } else {
                    RingEvent::Refused(value)
                }),
                final(self)@,
            ),
    {
        match push_slot(self.head, self.tail, self.mask) {
            None => Err(value),
            Some(slot) => {
                proof {
                    lemma_mask_bounds(self.head, self.mask);
                    lemma_counter(self.head, self.tail);
                }
                let ghost before = *self;
                let ghost d = distance(self.head, self.tail);
                self.slots[slot as usize] = Some(value);
                self.head = self.head.wrapping_add(1);
                proof {
                    assert(slot == slot_of(before.tail, d, before.mask));
                    lemma_advance_head(before.head, before.tail);
                    assert(distance(self.head, self.tail) == d + 1);
                    assert forall|i: int| 0 <= i < d implies #[trigger] slot_of(
                        before.tail,
                        i,
                        before.mask,
                    ) != slot by {
                        lemma_slots_differ(before.tail, i as u64, d as u64, before.mask);
                    }
                    assert forall|i: int| 0 <= i < d + 1 implies self.slots@[#[trigger] slot_of(self.tail, i, self.mask)] is Some by {
                        lemma_mask_bounds(wrapped(before.tail, i), before.mask);
                    }
                    assert(self@ =~= before@.push(value)) by {
                        assert forall|i: int| 0 <= i < d implies #[trigger] self@[i]
                            == before@[i] by {
                            lemma_mask_bounds(wrapped(before.tail, i), before.mask);
                            assert(slot_of(before.tail, i, before.mask) != slot);
                        }
                    }
                }
                Ok(())
            },
        }
    }

    /// Remove the oldest value.
    pub fn pop(&mut self) -> (r: Option<T>)
        requires
            old(self).wf(),
        ensures
            final(self).wf(),
            final(self).capacity() == old(self).capacity(),
            match r {
                Some(value) => old(self)@.len() > 0 && value == old(self)@[0] && final(self)@
                    == old(self)@.drop_first(),
                None => old(self)@.len() == 0 && final(self)@ == old(self)@,
            },
            ring_step(
                old(self)@,
                old(self).capacity(),
                (match r {
                    Some(value) => RingEvent::Popped(value),
                    None => RingEvent::Empty,
                }),
                final(self)@,
            ),
    {
        match pop_slot(self.head, self.tail, self.mask) {
            None => None,
            Some(slot) => {
                let ghost before = *self;
                let ghost d = distance(self.head, self.tail);
                proof {
                    lemma_mask_bounds(self.tail, self.mask);
                    assert(slot == slot_of(self.tail, 0, self.mask));
                }
                let value = self.slots[slot as usize].take();
                self.tail = self.tail.wrapping_add(1);
                proof {
                    lemma_advance_tail(before.head, before.tail);
                    assert forall|i: int| 0 <= i < d - 1 implies #[trigger] slot_of(
                        self.tail,
                        i,
                        self.mask,
                    ) == slot_of(before.tail, i + 1, before.mask) by {
                        lemma_shift(before.tail, i);
                    }
                    assert forall|i: int| 1 <= i < d implies #[trigger] slot_of(
                        before.tail,
                        i,
                        before.mask,
                    ) != slot by {
                        lemma_slots_differ(before.tail, i as u64, 0, before.mask);
                    }
                    assert forall|i: int| 0 <= i < d - 1 implies self.slots@[#[trigger] slot_of(self.tail, i, self.mask)] is Some by {
                        lemma_mask_bounds(wrapped(before.tail, i + 1), before.mask);
                        assert(slot_of(before.tail, i + 1, before.mask) != slot);
                    }
                    assert(self@ =~= before@.drop_first()) by {
                        assert forall|i: int| 0 <= i < d - 1 implies #[trigger] self@[i]
                            == before@[i + 1] by {
                            lemma_mask_bounds(wrapped(before.tail, i + 1), before.mask);
                            assert(slot_of(self.tail, i, self.mask) == slot_of(
                                before.tail,
                                i + 1,
                                before.mask,
                            ));
                            assert(slot_of(before.tail, i + 1, before.mask) != slot);
                        }
                    }
                }
                value
            },
        }
    }

    /// The value at a position, the oldest first.
    pub fn get(&self, i: usize) -> (r: Option<&T>)
        requires
            self.wf(),
        ensures
            match r {
                Some(value) => i < self@.len() && *value == self@[i as int],
                None => i >= self@.len(),
            },
    {
        if i as u64 >= self.head.wrapping_sub(self.tail) {
            return None;
        }
        let slot: u64 = self.tail.wrapping_add(i as u64) & self.mask;
        proof {
            lemma_mask_bounds(wrapped(self.tail, i as int), self.mask);
            assert(slot == slot_of(self.tail, i as int, self.mask));
        }
        self.slots[slot as usize].as_ref()
    }
}

impl<T> Ring<T> {
    /// Put another value in the place of one that waits.
    pub fn set(&mut self, i: usize, value: T)
        requires
            old(self).wf(),
            i < old(self)@.len(),
        ensures
            final(self).wf(),
            final(self).capacity() == old(self).capacity(),
            final(self)@ == old(self)@.update(i as int, value),
    {
        let slot: u64 = self.tail.wrapping_add(i as u64) & self.mask;
        let ghost before = *self;
        proof {
            lemma_mask_bounds(wrapped(self.tail, i as int), self.mask);
            assert(slot == slot_of(self.tail, i as int, self.mask));
        }
        self.slots[slot as usize] = Some(value);
        proof {
            assert forall|k: int| 0 <= k < before@.len() && k != i implies #[trigger] slot_of(
                before.tail,
                k,
                before.mask,
            ) != slot by {
                lemma_slots_differ(before.tail, k as u64, i as u64, before.mask);
            }
            assert forall|k: int| 0 <= k < before@.len() implies self.slots@[#[trigger] slot_of(self.tail, k, self.mask)] is Some by {
                lemma_mask_bounds(wrapped(before.tail, k), before.mask);
            }
            assert(self@ =~= before@.update(i as int, value)) by {
                assert forall|k: int| 0 <= k < before@.len() implies #[trigger] self@[k]
                    == before@.update(i as int, value)[k] by {
                    lemma_mask_bounds(wrapped(before.tail, k), before.mask);
                    if k != i {
                        assert(slot_of(before.tail, k, before.mask) != slot);
                    }
                }
            }
        }
    }
}

/// Something that happens to a ring.
pub ghost enum RingEvent<T> {
    /// A push found room.
    Accepted(T),
    /// A push found the ring full.
    Refused(T),
    /// A pop gave a value.
    Popped(T),
    /// A pop found nothing.
    Empty,
}

/// What an event does to the values that wait in a ring of this capacity.
pub open spec fn ring_step<T>(
    before: Seq<T>,
    capacity: int,
    event: RingEvent<T>,
    after: Seq<T>,
) -> bool {
    match event {
        RingEvent::Accepted(v) => before.len() < capacity && after == before.push(v),
        RingEvent::Refused(v) => before.len() == capacity && after == before,
        RingEvent::Popped(v) => before.len() > 0 && v == before[0] && after == before.drop_first(),
        RingEvent::Empty => before.len() == 0 && after == before,
    }
}

/// Events happen to a new ring, one after the other, and leave these values
/// waiting.
pub open spec fn ring_run<T>(capacity: int, events: Seq<RingEvent<T>>, left: Seq<T>) -> bool
    decreases events.len(),
{
    if events.len() == 0 {
        left.len() == 0
    } else {
        exists|mid: Seq<T>|
            ring_run(capacity, events.drop_last(), mid) && #[trigger] ring_step(
                mid,
                capacity,
                events.last(),
                left,
            )
    }
}

/// The values that were accepted, in order.
pub open spec fn accepted<T>(events: Seq<RingEvent<T>>) -> Seq<T>
    decreases events.len(),
{
    if events.len() == 0 {
        Seq::empty()
    } else {
        let front = accepted(events.drop_last());
        match events.last() {
            RingEvent::Accepted(v) => front.push(v),
            _ => front,
        }
    }
}

/// The values that were popped, in order.
pub open spec fn popped<T>(events: Seq<RingEvent<T>>) -> Seq<T>
    decreases events.len(),
{
    if events.len() == 0 {
        Seq::empty()
    } else {
        let front = popped(events.drop_last());
        match events.last() {
            RingEvent::Popped(v) => front.push(v),
            _ => front,
        }
    }
}

/// Over any history of pushes and pops, the values popped are exactly the
/// first ones accepted, in order, none lost or doubled, and the others wait.
/// So a pop finds nothing exactly when as many were popped as accepted, and a
/// push is refused exactly when a whole capacity of them wait.
pub proof fn law_values_leave_in_the_order_they_came<T>(
    capacity: int,
    events: Seq<RingEvent<T>>,
    left: Seq<T>,
)
    requires
        ring_run(capacity, events, left),
        capacity >= 0,
    ensures
        popped(events).len() <= accepted(events).len() <= popped(events).len() + capacity,
        popped(events) == accepted(events).take(popped(events).len() as int),
        left == accepted(events).skip(popped(events).len() as int),
        ring_step(left, capacity, RingEvent::Empty, left) <==> accepted(events).len() == popped(
            events,
        ).len(),
        forall|v: T| #[trigger]
            ring_step(left, capacity, RingEvent::Refused(v), left) <==> accepted(events).len()
                - popped(events).len() == capacity,
    decreases events.len(),
{
    if events.len() > 0 {
        let front = events.drop_last();
        let mid = choose|mid: Seq<T>|
            ring_run(capacity, front, mid) && #[trigger] ring_step(
                mid,
                capacity,
                events.last(),
                left,
            );
        law_values_leave_in_the_order_they_came(capacity, front, mid);
        let a = accepted(front);
        let p = popped(front);
        match events.last() {
            RingEvent::Accepted(v) => {
                assert(accepted(events).take(p.len() as int) =~= a.take(p.len() as int));
                assert(accepted(events).skip(p.len() as int) =~= mid.push(v));
            },
            RingEvent::Popped(v) => {
                assert(v == a[p.len() as int]);
                assert(a.take(p.len() as int + 1) =~= p.push(v));
                assert(a.skip(p.len() as int + 1) =~= mid.drop_first());
            },
            _ => {},
        }
    }
    let a = accepted(events);
    let p = popped(events);
    assert(a.take(p.len() as int) =~= p);
    assert(a.skip(p.len() as int) =~= left);
}

proof fn lemma_counter(head: u64, tail: u64)
    ensures
        wrapped(tail, distance(head, tail)) == head,
{
}

proof fn lemma_advance_head(head: u64, tail: u64)
    requires
        distance(head, tail) < u64::MAX,
    ensures
        distance(head.wrapping_add(1), tail) == distance(head, tail) + 1,
{
}

proof fn lemma_advance_tail(head: u64, tail: u64)
    requires
        head != tail,
    ensures
        distance(head, tail.wrapping_add(1)) == distance(head, tail) - 1,
{
}

proof fn lemma_shift(tail: u64, i: int)
    requires
        0 <= i < u64::MAX,
    ensures
        wrapped(tail.wrapping_add(1), i) == wrapped(tail, i + 1),
{
}

/// Positions run on modulo the counters' width, and the distance of two of
/// them is how far the one is ahead of the other.
pub proof fn law_positions_wrap_around(at: u64, i: int, tail: u64)
    requires
        0 <= i <= u64::MAX,
    ensures
        wrapped(at, i) == (at + i) % 0x1_0000_0000_0000_0000,
        distance(at, tail) == (at - tail) % 0x1_0000_0000_0000_0000,
        distance(wrapped(at, i), at) == i,
        wrapped(tail, distance(at, tail)) == at,
{
}

/// Each position has its slot among those there are.
pub proof fn law_slots_are_in_range(at: u64, i: int, mask: u64)
    ensures
        0 <= slot_of(at, i, mask) <= mask,
{
    let p = wrapped(at, i);
    assert(p & mask <= mask) by (bit_vector);
}

/// A step of the queue: what is accepted comes last and only while there is
/// room, what is refused is refused only when there is none, what leaves is the
/// oldest, and nothing leaves only an empty queue.
pub proof fn law_steps_keep_the_queue<T>(
    before: Seq<T>,
    capacity: int,
    value: T,
    after: Seq<T>,
    k: int,
)
    ensures
        ring_step(before, capacity, RingEvent::Accepted(value), after) ==> before.len() < capacity
            && after.len() == before.len() + 1 && after[before.len() as int] == value && (0 <= k
            < before.len() ==> after[k] == before[k]),
        ring_step(before, capacity, RingEvent::Refused(value), after) ==> before.len() == capacity
            && after == before,
        ring_step(before, capacity, RingEvent::Popped(value), after) ==> before.len() > 0
            && before[0] == value && after.len() == before.len() - 1 && (0 <= k < after.len()
            ==> after[k] == before[k + 1]),
        ring_step(before, capacity, RingEvent::Empty, after) ==> before.len() == 0 && after.len()
            == 0,
{
}

/// Powers of two lie at least a doubling apart, so that no two of them can
/// serve the same wish for room.
pub proof fn law_powers_of_two_lie_apart(a: u64, b: u64)
    requires
        is_pow2(a),
        is_pow2(b),
        a < b,
    ensures
        2 * a <= b,
{
    assert(2 * a <= b) by (bit_vector)
        requires
            a > 0,
            b > 0,
            a & ((a - 1) as u64) == 0,
            b & ((b - 1) as u64) == 0,
            a < b,
    ;
}

} // verus!
