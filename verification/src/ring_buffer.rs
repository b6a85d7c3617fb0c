use vstd::prelude::*;

verus! {

/// A ring buffer of `i32` with `size` slots. `front` and `rear` count the
/// elements taken out and put in; slot `n % size` holds the element numbered `n`.
pub struct RingBuffer {
    buffer: Vec<Option<i32>>,
    rear: usize,
    front: usize,
    size: usize,
}

/// Positions that differ by less than `size` fall into different slots.
proof fn lemma_distinct_slots(a: int, b: int, size: int)
    requires
        size > 0,
        0 <= a < b < a + size,
    ensures
        a % size != b % size,
{
    vstd::arithmetic::div_mod::lemma_fundamental_div_mod(a, size);
    vstd::arithmetic::div_mod::lemma_fundamental_div_mod(b, size);
    assert(a % size != b % size) by (nonlinear_arith)
        requires
            size > 0,
            0 <= a < b < a + size,
            a == size * (a / size) + a % size,
            b == size * (b / size) + b % size,
            0 <= a % size < size,
            0 <= b % size < size,
    {
        if a % size == b % size {
            assert(size * (b / size - a / size) == b - a);
            if b / size - a / size <= 0 {
                assert(size * (b / size - a / size) <= 0);
            } else {
                assert(size * (b / size - a / size) >= size);
            }
        }
    }
}

impl View for RingBuffer {
    type V = Seq<i32>;

    /// The elements in the buffer, oldest first.
    closed spec fn view(&self) -> Seq<i32> {
        Seq::new(
            (self.rear - self.front) as nat,
            |i: int| self.buffer@[(self.front + i) % (self.size as int)].unwrap(),
        )
    }
}

impl RingBuffer {
    /// The invariant: at most `size` elements are in the buffer, and their slots are filled.
    pub closed spec fn wf(&self) -> bool {
        &&& self.buffer@.len() == self.size
        &&& self.front <= self.rear
        &&& self.rear - self.front <= self.size
        &&& forall|n: int|
            self.front <= n < self.rear ==> (#[trigger] self.buffer@[n % (self.size as int)]) is Some
    }

    /// The number of slots.
    pub closed spec fn capacity(&self) -> nat {
        self.size as nat
    }

    /// How many elements have been put in since the buffer was made.
    pub closed spec fn enqueued(&self) -> nat {
        self.rear as nat
    }

    /// A ring buffer never holds more elements than it has slots.
    pub proof fn lemma_len_within_capacity(&self)
        requires
            self.wf(),
        ensures
            self@.len() <= self.capacity(),
    {
    }

    pub fn new(size: usize) -> (r: RingBuffer)
        ensures
            r.wf(),
            r@ == Seq::<i32>::empty(),
            r.capacity() == size,
            r.enqueued() == 0,
    {
        let mut buffer: Vec<Option<i32>> = Vec::new();
        let mut i: usize = 0;
        while i < size
            invariant
                i <= size,
                buffer@.len() == i,
            decreases size - i,
        {
            buffer.push(None);
            i = i + 1;
        }
        let r = RingBuffer { buffer, rear: 0, front: 0, size };
        assert(r@ =~= Seq::<i32>::empty());
        r
    }

    /// Appends `data`, or fails with "Ring buffer is full" when all slots are taken.
    pub fn enqueue(&mut self, data: i32) -> (r: Result<(), &'static str>)
        requires
            old(self).wf(),
            old(self).enqueued() < usize::MAX,
        ensures
            final(self).wf(),
            final(self).capacity() == old(self).capacity(),
            old(self)@.len() == old(self).capacity() ==> r == Err::<(), &'static str>("Ring buffer is full"),
            old(self)@.len() == old(self).capacity() ==> *final(self) == *old(self),
            old(self)@.len() < old(self).capacity() ==> r == Ok::<(), &'static str>(()),
            old(self)@.len() < old(self).capacity() ==> final(self)@ == old(self)@.push(data),
            old(self)@.len() < old(self).capacity() ==> final(self).enqueued()
                == old(self).enqueued() + 1,
    {
        if self.rear - self.front == self.size {
            return Err("Ring buffer is full");
        } else {
            let ghost prev = self@;
            let ghost size = self.size as int;
            let slot = self.rear % self.size;
            proof {
                assert forall|n: int|
                    #![trigger self.buffer@[n % size]]
                    self.front <= n < self.rear implies n % size != slot by {
                    lemma_distinct_slots(n, self.rear as int, size);
                }
            }
            self.buffer[slot] = Some(data);
            self.rear = self.rear + 1;
            assert(self@ =~= prev.push(data));
            return Ok(());
        }
    }

    /// Removes the oldest element; `None` when the buffer is empty.
    pub fn dequeue(&mut self) -> (r: Option<i32>)
        requires
            old(self).wf(),
        ensures
            final(self).wf(),
            final(self).capacity() == old(self).capacity(),
            final(self).enqueued() == old(self).enqueued(),
            old(self)@.len() == 0 ==> r == None::<i32> && *final(self) == *old(self),
            old(self)@.len() > 0 ==> r == Some(old(self)@[0]),
            old(self)@.len() > 0 ==> final(self)@ == old(self)@.drop_first(),
    {
        if self.rear == self.front {
            return None;
        } else {
            let ghost prev = self@;
            let x: Option<i32> = self.buffer[self.front % self.size];
            self.front = self.front + 1;
            assert(self@ =~= prev.drop_first());
            return x;
        }
    }
}

} // verus!
