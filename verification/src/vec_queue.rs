use vstd::prelude::*;

verus! {

/// An unbounded first-in first-out queue over a growing vector.
pub struct Queue<T> {
    arr: Vec<T>,
    front: usize,
    rear: usize,
}

impl<T> View for Queue<T> {
    type V = Seq<T>;

    /// The elements waiting in the queue, oldest first.
    closed spec fn view(&self) -> Seq<T> {
        self.arr@
    }
}

impl<T> Queue<T> {
    /// How many elements have been put in since the queue was made.
    pub closed spec fn enqueued(&self) -> nat {
        self.rear as nat
    }

    pub fn new() -> (q: Self)
        ensures
            q@ == Seq::<T>::empty(),
            q.enqueued() == 0,
    {
        Queue { arr: Vec::new(), front: 0, rear: 0 }
    }

    /// Appends `d` at the back.
    pub fn enqueue(&mut self, d: T)
        requires
            old(self).enqueued() < usize::MAX,
        ensures
            final(self)@ == old(self)@.push(d),
            final(self).enqueued() == old(self).enqueued() + 1,
    {
        self.arr.push(d);
        self.rear += 1;
    }

    /// Removes the element at the front; `None` when the queue is empty.
    pub fn dequeue(&mut self) -> (r: Option<T>)
        ensures
            final(self).enqueued() == old(self).enqueued(),
            old(self)@.len() == 0 ==> r is None && final(self)@ == old(self)@,
            old(self)@.len() > 0 ==> r == Some(old(self)@[0]),
            old(self)@.len() > 0 ==> final(self)@ == old(self)@.drop_first(),
    {
        if self.arr.is_empty() {
            None
        } else {
            let ghost prev = self@;
            let x = self.arr.remove(0);
            assert(self@ =~= prev.drop_first());
            Some(x)
        }
    }
}

} // verus!
