//! Pre-allocated ring buffers.
//!
//! [`RingBuffer`] is a fixed-capacity FIFO over a caller-supplied buffer.
//! The single "slack" slot scheme means a buffer of length `N` stores at
//! most `N - 1` items, so a full ring is unambiguous.
use vstd::prelude::*;

verus! {

/// Read side operations available on a [`RingBuffer`].
pub trait RingRead<F: Copy> {
    /// The buffered items, oldest first.
    spec fn items(&self) -> Seq<F>;

    /// Number of items currently buffered.
    fn len(&self) -> (n: usize)
        ensures
            n == self.items().len(),
    ;

    /// `true` when the ring is empty.
    fn is_empty(&self) -> (b: bool)
        ensures
            b <==> self.items().len() == 0,
    ;

    /// Remove and return the oldest item, or `None` if empty.
    fn pop(&mut self) -> (r: Option<F>)
        ensures
            old(self).items().len() == 0 ==> r is None && final(self).items() == old(self).items(),
            old(self).items().len() > 0 ==> r == Some(old(self).items()[0])
                && final(self).items() == old(self).items().drop_first(),
    ;

    /// Peek the oldest item without removing it.
    fn front(&self) -> (r: Option<F>)
        ensures
            self.items().len() == 0 ==> r is None,
            self.items().len() > 0 ==> r == Some(self.items()[0]),
    ;
}

/// Write side operations available on a [`RingBuffer`].
pub trait RingWrite<F> {
    /// The buffered items, oldest first.
    spec fn written(&self) -> Seq<F>;

    /// Maximum number of items that can be buffered.
    spec fn max_items(&self) -> nat;

    /// `true` when the ring has no free slots.
    fn is_full(&self) -> (b: bool)
        ensures
            b <==> self.written().len() == self.max_items(),
    ;

    /// Append an item, returning it if the ring is full.
    fn push(&mut self, value: F) -> (r: Result<(), F>)
        ensures
            final(self).max_items() == old(self).max_items(),
            old(self).written().len() == old(self).max_items() ==> r == Err::<(), F>(value)
                && final(self).written() == old(self).written(),
            old(self).written().len() < old(self).max_items() ==> r is Ok
                && final(self).written() == old(self).written().push(value),
    ;

    /// Clear all buffered items.
    fn clear(&mut self)
        ensures
            final(self).written().len() == 0,
            final(self).max_items() == old(self).max_items(),
    ;
}

/// A fixed-capacity FIFO ring buffer over caller-supplied storage.
pub struct RingBuffer<'a, F> {
    data: &'a mut [F],
    capacity: usize,
    read: usize,
    write: usize,
}

impl<'a, F> RingBuffer<'a, F> {
    /// The cursors stay inside the storage and the capacity is one less
    /// than the storage length.
    #[verifier::type_invariant]
    spec fn well_formed(self) -> bool {
        &&& self.data@.len() >= 2
        &&& self.capacity == self.data@.len() - 1
        &&& self.read < self.data@.len()
        &&& self.write < self.data@.len()
    }

    /// Number of items the storage can hold.
    pub closed spec fn spec_capacity(&self) -> nat {
        self.capacity as nat
    }

    /// Number of buffered items, computed from the cursors.
    pub closed spec fn spec_len(&self) -> nat {
        if self.write >= self.read {
            (self.write - self.read) as nat
        } else {
            (self.write + self.data@.len() - self.read) as nat
        }
    }

    /// Storage position of the `i`-th buffered item.
    closed spec fn slot(&self, i: int) -> int {
        if self.read + i < self.data@.len() {
            self.read + i
        } else {
            self.read + i - self.data@.len()
        }
    }

    /// The buffered items, oldest first.
    pub closed spec fn view(&self) -> Seq<F> {
        Seq::new(self.spec_len(), |i: int| self.data@[self.slot(i)])
    }

    /// Wrap a storage slice. Usable capacity is `storage.len() - 1`.
    pub fn new(storage: &'a mut [F]) -> (r: Self)
        requires
            old(storage)@.len() > 1,
        ensures
            r@.len() == 0,
            r.spec_capacity() == old(storage)@.len() - 1,
    {
        let capacity = storage.len() - 1;
        RingBuffer { data: storage, capacity, read: 0, write: 0 }
    }

    /// Number of items the ring can hold.
    pub fn capacity(&self) -> (c: usize)
        ensures
            c == self.spec_capacity(),
            c >= 1,
            self@.len() <= c,
    {
        proof { use_type_invariant(self); }
        self.capacity
    }

    /// Number of items currently buffered.
    pub fn len(&self) -> (n: usize)
        ensures
            n == self@.len(),
            n <= self.spec_capacity(),
    {
        proof { use_type_invariant(self); }
        let write = self.write;
        let read = self.read;
        if write >= read {
            write - read
        } else {
            self.capacity - read + 1 + write
        }
    }

    /// `true` when the ring is empty.
    pub fn is_empty(&self) -> (b: bool)
        ensures
            b <==> self@.len() == 0,
    {
        self.len() == 0
    }

    /// `true` when the ring has no free slots.
    pub fn is_full(&self) -> (b: bool)
        ensures
            b <==> self@.len() == self.spec_capacity(),
    {
        self.len() == self.capacity
    }

    /// Append an item. Returns `Err(value)` (unmodified) when full.
    pub fn push(&mut self, value: F) -> (r: Result<(), F>)
        ensures
            final(self).spec_capacity() == old(self).spec_capacity(),
            final(self)@.len() <= final(self).spec_capacity(),
            old(self)@.len() == old(self).spec_capacity() ==> r == Err::<(), F>(value)
                && final(self)@ == old(self)@,
            old(self)@.len() < old(self).spec_capacity() ==> r is Ok
                && final(self)@ == old(self)@.push(value),
    {
        proof { use_type_invariant(&*self); }
        let write = self.write;
        let read = self.read;
        let n = self.data.len();
        let next = (write + 1) % n;
        proof { lemma_wrap_once((write + 1) as int, n as int); }
        if next == read {
            return Err(value);
        }
        let ghost before = self@;
        self.data[write] = value;
        self.write = next;
        assert(self@ =~= before.push(value));
        Ok(())
    }

    /// Remove and return the oldest item, or `None` if empty.
    pub fn pop(&mut self) -> (r: Option<F>) where F: Copy
        ensures
            final(self).spec_capacity() == old(self).spec_capacity(),
            final(self)@.len() <= final(self).spec_capacity(),
            old(self)@.len() == 0 ==> r is None && final(self)@ == old(self)@,
            old(self)@.len() > 0 ==> r == Some(old(self)@[0]) && final(self)@ == old(self)@.drop_first(),
    {
        proof { use_type_invariant(&*self); }
        let read = self.read;
        let write = self.write;
        if read == write {
            return None;
        }
        let value = self.data[read];
        let n = self.data.len();
        proof { lemma_wrap_once((read + 1) as int, n as int); }
        let ghost before = self@;
        self.read = (read + 1) % n;
        assert(self@ =~= before.drop_first());
        Some(value)
    }

    /// Peek the oldest item without removing it.
    pub fn front(&self) -> (r: Option<F>) where F: Copy
        ensures
            self@.len() == 0 ==> r is None,
            self@.len() > 0 ==> r == Some(self@[0]),
    {
        proof { use_type_invariant(self); }
        let read = self.read;
        let write = self.write;
        if read == write {
            None
        } else {
            Some(self.data[read])
        }
    }

    /// Discard all buffered items.
    pub fn clear(&mut self)
        ensures
            final(self)@.len() == 0,
            final(self).spec_capacity() == old(self).spec_capacity(),
    {
        proof { use_type_invariant(&*self); }
        self.read = self.write;
    }
}

/// Advancing a cursor by one past the end wraps it to the start.
proof fn lemma_wrap_once(x: int, n: int)
    requires
        0 < x <= n,
    ensures
        x % n == (if x == n { 0 } else { x }),
{
    if x == n {
        vstd::arithmetic::div_mod::lemma_mod_self_0(n);
    } else {
        vstd::arithmetic::div_mod::lemma_small_mod(x as nat, n as nat);
    }
}

impl<'a, F: Copy> RingRead<F> for RingBuffer<'a, F> {
    open spec fn items(&self) -> Seq<F> {
        self@
    }

    fn len(&self) -> (n: usize) {
        RingBuffer::len(self)
    }

    fn is_empty(&self) -> (b: bool) {
        RingBuffer::is_empty(self)
    }

    fn pop(&mut self) -> (r: Option<F>) {
        RingBuffer::pop(self)
    }

    fn front(&self) -> (r: Option<F>) {
        RingBuffer::front(self)
    }
}

impl<'a, F> RingWrite<F> for RingBuffer<'a, F> {
    open spec fn written(&self) -> Seq<F> {
        self@
    }

    open spec fn max_items(&self) -> nat {
        self.spec_capacity()
    }

    fn is_full(&self) -> (b: bool) {
        RingBuffer::is_full(self)
    }

    fn push(&mut self, value: F) -> (r: Result<(), F>) {
        RingBuffer::push(self, value)
    }

    fn clear(&mut self) {
        RingBuffer::clear(self)
    }
}

/// A call made on a ring buffer, with what it returned.
pub enum RingCall<F> {
    /// `push(value)` and its result.
    Push(F, Result<(), F>),
    /// `pop()` and its result.
    Pop(Option<F>),
    /// `front()` and its result.
    Front(Option<F>),
    /// `clear()`.
    Clear,
}

/// `call` took a ring of capacity `cap` holding `before` to one holding
/// `after`, as the contracts of [`RingBuffer::push`], [`RingBuffer::pop`],
/// [`RingBuffer::front`] and [`RingBuffer::clear`] state.
pub open spec fn call_step<F>(cap: nat, before: Seq<F>, call: RingCall<F>, after: Seq<F>) -> bool {
    match call {
        RingCall::Push(v, r) => {
            &&& before.len() == cap ==> r == Err::<(), F>(v) && after == before
            &&& before.len() < cap ==> r is Ok && after == before.push(v)
        },
        RingCall::Pop(r) => {
            &&& before.len() == 0 ==> r is None && after == before
            &&& before.len() > 0 ==> r == Some(before[0]) && after == before.drop_first()
        },
        RingCall::Front(r) => {
            &&& after == before
            &&& before.len() == 0 ==> r is None
            &&& before.len() > 0 ==> r == Some(before[0])
        },
        RingCall::Clear => after.len() == 0,
    }
}

/// Accepted pushes minus successful pops since the last `clear` (or since
/// the start, when there is none).
pub open spec fn net_count<F>(calls: Seq<RingCall<F>>) -> int
    decreases calls.len(),
{
    if calls.len() == 0 {
        0
    } else {
        let earlier = net_count(calls.drop_last());
        match calls.last() {
            RingCall::Push(_, r) => if r is Ok {
                earlier + 1
            } else {
                earlier
            },
            RingCall::Pop(r) => if r is Some {
                earlier - 1
            } else {
                earlier
            },
            RingCall::Front(_) => earlier,
            RingCall::Clear => 0,
        }
    }
}

/// Over any sequence of calls on a ring that starts empty (as
/// [`RingBuffer::new`] leaves it), the ring holds, after each prefix of the
/// calls, as many items as that prefix accepted pushes minus successful pops
/// since the last `clear`, and never more than its capacity.
pub proof fn lemma_ring_counts_calls<F>(cap: nat, calls: Seq<RingCall<F>>, states: Seq<Seq<F>>)
    requires
        cap >= 1,
        states.len() == calls.len() + 1,
        states[0].len() == 0,
        forall|t: int|
            0 <= t < calls.len() ==> call_step(cap, #[trigger] states[t], calls[t], states[t + 1]),
    ensures
        forall|t: int|
            0 <= t < states.len() ==> #[trigger] states[t].len() == net_count(calls.take(t))
                && states[t].len() <= cap,
{
    assert forall|t: int| 0 <= t < states.len() implies #[trigger] states[t].len() == net_count(
        calls.take(t),
    ) && states[t].len() <= cap by {
        lemma_ring_counts_prefix(cap, calls, states, t);
    }
}

proof fn lemma_ring_counts_prefix<F>(cap: nat, calls: Seq<RingCall<F>>, states: Seq<Seq<F>>, t: int)
    requires
        cap >= 1,
        states.len() == calls.len() + 1,
        states[0].len() == 0,
        forall|u: int|
            0 <= u < calls.len() ==> call_step(cap, #[trigger] states[u], calls[u], states[u + 1]),
        0 <= t < states.len(),
    ensures
        states[t].len() == net_count(calls.take(t)),
        states[t].len() <= cap,
    decreases t,
{
    if t == 0 {
        assert(calls.take(0).len() == 0);
    } else {
        lemma_ring_counts_prefix(cap, calls, states, t - 1);
        assert(call_step(cap, states[t - 1], calls[t - 1], states[t]));
        assert(calls.take(t).drop_last() =~= calls.take(t - 1));
        assert(calls.take(t).last() == calls[t - 1]);
    }
}

} // verus!
