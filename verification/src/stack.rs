use vstd::prelude::*;

verus! {

/// A bounded stack stored in a vector of slots of fixed size.
pub struct Stack<T: Clone> {
    top: usize,
    size: usize,
    stack: Vec<Option<T>>,
}

impl<T: Clone> View for Stack<T> {
    type V = Seq<T>;

    /// The elements on the stack, bottom first.
    closed spec fn view(&self) -> Seq<T> {
        Seq::new(self.top as nat, |i: int| self.stack@[i].unwrap())
    }
}

/// Last in, first out: popping right after pushing `x` gives `x` back and
/// leaves the elements that were there before.
pub proof fn lemma_pop_after_push<T>(s: Seq<T>, x: T)
    ensures
        s.push(x).len() > 0,
        s.push(x).last() == x,
        s.push(x).drop_last() == s,
{
    assert(s.push(x).drop_last() =~= s);
}

impl<T: Clone> Stack<T> {
    /// The invariant of the slots: exactly the first `top` slots are filled.
    pub closed spec fn wf(&self) -> bool {
        &&& self.stack@.len() == self.size
        &&& self.top <= self.size
        &&& forall|i: int| 0 <= i < self.top ==> (#[trigger] self.stack@[i]) is Some
    }

    /// The number of elements the stack can hold.
    pub closed spec fn capacity(&self) -> nat {
        self.size as nat
    }

    /// A stack never holds more elements than its capacity.
    pub proof fn lemma_len_within_capacity(&self)
        requires
            self.wf(),
        ensures
            self@.len() <= self.capacity(),
    {
    }

    pub fn new(size: usize) -> (s: Stack<T>)
        ensures
            s.wf(),
            s@ == Seq::<T>::empty(),
            s.capacity() == size,
    {
        let mut stack: Vec<Option<T>> = Vec::new();
        let mut i: usize = 0;
        while i < size
            invariant
                i <= size,
                stack@.len() == i,
            decreases size - i,
        {
            stack.push(None);
            i = i + 1;
        }
        let s = Stack { top: 0, size, stack };
        assert(s@ =~= Seq::<T>::empty());
        s
    }

    /// Pushes `data` on a stack that is not full; a full stack rejects it.
    pub fn push(&mut self, data: T)
        requires
            old(self).wf(),
            old(self)@.len() < old(self).capacity(),
        ensures
            final(self).wf(),
            final(self).capacity() == old(self).capacity(),
            final(self)@ == old(self)@.push(data),
    {
        let ghost prev = self@;
        self.stack[self.top] = Some(data);
        self.top = self.top + 1;
        assert(self@ =~= prev.push(data));
    }

    /// Pops the top element, or fails with "Stack is empty".
    pub fn pop(&mut self) -> (r: Result<T, &'static str>)
        requires
            old(self).wf(),
        ensures
            final(self).wf(),
            final(self).capacity() == old(self).capacity(),
            old(self)@.len() == 0 ==> r == Err::<T, &'static str>("Stack is empty"),
            old(self)@.len() == 0 ==> final(self)@ == old(self)@,
            old(self)@.len() > 0 ==> r == Ok::<T, &'static str>(old(self)@.last()),
            old(self)@.len() > 0 ==> final(self)@ == old(self)@.drop_last(),
    {
        if self.is_empty() {
            return Err("Stack is empty");
        }
        let ghost prev = self@;
        self.top = self.top - 1;
        let x = self.stack[self.top].take();
        assert(self@ =~= prev.drop_last());
        x.ok_or("Stack is empty")
    }

    /// Whether the stack holds as many elements as it has slots.
    pub fn is_full(&self) -> (b: bool)
        requires
            self.wf(),
        ensures
            b == (self@.len() == self.capacity()),
    {
        self.top == self.size
    }

    /// Whether the stack holds no element.
    pub fn is_empty(&self) -> (b: bool)
        requires
            self.wf(),
        ensures
            b == (self@.len() == 0),
    {
        self.top == 0
    }
}

} // verus!
