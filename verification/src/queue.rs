use vstd::prelude::*;

verus! {

/// A queue over a vector of slots of fixed size. Slots are used once each:
/// `rear` only grows, so the queue accepts at most `size` elements in its life.
pub struct Queue<T: Clone> {
    queue: Vec<Option<T>>,
    front: usize,
    rear: usize,
}

impl<T: Clone> View for Queue<T> {
    type V = Seq<T>;

    /// The elements waiting in the queue, oldest first.
    closed spec fn view(&self) -> Seq<T> {
        Seq::new((self.rear - self.front) as nat, |i: int| self.queue@[self.front + i].unwrap())
    }
}

/// First in, first out: an element put in at the back leaves after all the
/// elements that were in front of it, and the front element is the oldest.
pub proof fn lemma_fifo<T>(s: Seq<T>, x: T)
    ensures
        s.len() == 0 ==> s.push(x)[0] == x && s.push(x).drop_first() == s,
        s.len() > 0 ==> s.push(x)[0] == s[0] && s.push(x).drop_first() == s.drop_first().push(x),
{
    assert(s.len() == 0 ==> s.push(x).drop_first() =~= s);
    assert(s.len() > 0 ==> s.push(x).drop_first() =~= s.drop_first().push(x));
}

impl<T: Clone> Queue<T> {
    /// The invariant of the slots: the slots from `front` up to `rear` are filled.
    pub closed spec fn wf(&self) -> bool {
        &&& self.front <= self.rear <= self.queue@.len() <= usize::MAX
        &&& forall|i: int| self.front <= i < self.rear ==> (#[trigger] self.queue@[i]) is Some
    }

    /// How many more elements the queue can take.
    pub closed spec fn free_slots(&self) -> nat {
        (self.queue@.len() - self.rear) as nat
    }

    pub fn new(size: usize) -> (q: Queue<T>)
        ensures
            q.wf(),
            q@ == Seq::<T>::empty(),
            q.free_slots() == size,
    {
        let mut queue: Vec<Option<T>> = Vec::new();
        let mut i: usize = 0;
        while i < size
            invariant
                i <= size,
                queue@.len() == i,
            decreases size - i,
        {
            queue.push(None);
            i = i + 1;
        }
        let q = Queue { queue, front: 0, rear: 0 };
        assert(q@ =~= Seq::<T>::empty());
        q
    }

    /// Appends `data` at the rear. A queue with no free slot left cannot take it.
    pub fn enqueue(&mut self, data: T)
        requires
            old(self).wf(),
            old(self).free_slots() > 0,
        ensures
            final(self).wf(),
            final(self)@ == old(self)@.push(data),
            final(self).free_slots() == old(self).free_slots() - 1,
    {
        let ghost prev = self@;
        self.queue[self.rear] = Some(data);
        self.rear = self.rear + 1;
        assert(self@ =~= prev.push(data));
    }

    /// Removes the element at the front, or fails with "Queue underflow!".
    pub fn dequeue(&mut self) -> (r: Result<T, &'static str>)
        requires
            old(self).wf(),
        ensures
            final(self).wf(),
            final(self).free_slots() == old(self).free_slots(),
            old(self)@.len() == 0 ==> r == Err::<T, &'static str>("Queue underflow!"),
            old(self)@.len() == 0 ==> final(self)@ == old(self)@,
            old(self)@.len() > 0 ==> r == Ok::<T, &'static str>(old(self)@[0]),
            old(self)@.len() > 0 ==> final(self)@ == old(self)@.drop_first(),
    {
        if self.front == self.rear {
            return Err("Queue underflow!");
        }
        let ghost prev = self@;
        let x = self.queue[self.front].take().ok_or("Queue underflow!");
        self.front = self.front + 1;
        assert(self@ =~= prev.drop_first());
        x
    }
}

} // verus!
