use vstd::prelude::*;

verus! {

/// A singly linked list of `i32`.
#[derive(Debug)]
pub struct LinkedList {
    head: Option<Box<Cell>>,
}

/// A cell of a linked list: a value and the rest of the list after it.
#[derive(Debug)]
pub struct Cell {
    data: i32,
    next: Option<Box<Cell>>,
}

/// The values of the cells from `c` on.
pub closed spec fn chain_values(c: Option<Box<Cell>>) -> Seq<i32>
    decreases c,
{
    match c {
        Some(b) => seq![b.data].add(chain_values(b.next)),
        None => Seq::empty(),
    }
}

/// The position of the first occurrence of `d` in `s` (the length of `s` when
/// there is none).
pub open spec fn first_index(s: Seq<i32>, d: i32) -> int
    decreases s.len(),
{
    if s.len() == 0 {
        0
    } else if s[0] == d {
        0
    } else {
        1 + first_index(s.drop_first(), d)
    }
}

/// `first_index` is the position of the first occurrence.
pub proof fn lemma_first_index(s: Seq<i32>, d: i32)
    ensures
        0 <= first_index(s, d) <= s.len(),
        forall|j: int| 0 <= j < first_index(s, d) ==> s[j] != d,
        s.contains(d) <==> first_index(s, d) < s.len(),
        s.contains(d) ==> s[first_index(s, d)] == d,
    decreases s.len(),
{
    if s.len() > 0 && s[0] != d {
        lemma_first_index(s.drop_first(), d);
        assert forall|j: int| 0 <= j < first_index(s, d) implies s[j] != d by {
            if j > 0 {
                assert(s[j] == s.drop_first()[j - 1]);
            }
        }
        if s.contains(d) {
            let k = choose|k: int| 0 <= k < s.len() && s[k] == d;
            assert(s.drop_first()[k - 1] == d);
        }
        if s.drop_first().contains(d) {
            let k = choose|k: int| 0 <= k < s.drop_first().len() && s.drop_first()[k] == d;
            assert(s[k + 1] == d);
        }
    } else if s.len() > 0 {
        assert(s[0] == d);
    }
}

impl View for LinkedList {
    type V = Seq<i32>;

    /// The values of the list from the head on.
    closed spec fn view(&self) -> Seq<i32> {
        chain_values(self.head)
    }
}

impl View for Cell {
    type V = Seq<i32>;

    /// The value of this cell followed by the values of the cells after it.
    closed spec fn view(&self) -> Seq<i32> {
        seq![self.data].add(chain_values(self.next))
    }
}

fn search_chain(c: &mut Option<Box<Cell>>, d: i32) -> (r: Option<&mut Cell>)
    ensures
        match r {
            None => {
                &&& !chain_values(*old(c)).contains(d)
                &&& *final(c) == *old(c)
            },
            Some(cell) => {
                let i = first_index(chain_values(*old(c)), d);
                &&& chain_values(*old(c)).contains(d)
                &&& (*cell)@ == chain_values(*old(c)).skip(i)
                &&& chain_values(*final(c)) == chain_values(*old(c)).take(i) + (*final(cell))@
            },
        },
    decreases *old(c),
{
    match c {
        None => {
            assert(chain_values(None) =~= Seq::<i32>::empty());
            None
        },
        Some(b) => {
            let ghost rest = chain_values(b.next);
            let ghost whole = chain_values(*old(c));
            proof {
                assert(whole == seq![b.data].add(rest));
                assert(whole.drop_first() =~= rest);
            }
            if b.data == d {
                proof {
                    assert(whole[0] == d);
                    assert(whole.skip(0) =~= whole);
                    assert(whole.take(0) =~= Seq::<i32>::empty());
                }
                Some(&mut **b)
            } else {
                let r = search_chain(&mut b.next, d);
                proof {
                    lemma_first_index(rest, d);
                    if rest.contains(d) {
                        let i = first_index(rest, d);
                        assert(whole.skip(i + 1) =~= rest.skip(i));
                        assert(whole.take(i + 1) =~= seq![b.data].add(rest.take(i)));
                    }
                    if whole.contains(d) {
                        let k = choose|k: int| 0 <= k < whole.len() && whole[k] == d;
                        assert(rest[k - 1] == d);
                    }
                }
                r
            }
        },
    }
}

/// Deleting the top right after inserting at the head restores the list.
pub proof fn lemma_delete_top_after_insert_head(s: Seq<i32>, d: i32)
    ensures
        seq![d].add(s).len() > 0,
        seq![d].add(s).drop_first() == s,
{
    assert(seq![d].add(s).drop_first() =~= s);
}

/// Deleting the next cell right after inserting one after cell `c` restores
/// the values from that cell on.
pub proof fn lemma_delete_after_insert(c: Cell, d: i32)
    ensures
        c@.insert(1, d).len() > 1,
        c@.insert(1, d).remove(1) == c@,
{
    c.lemma_view_nonempty();
    assert(c@.insert(1, d).remove(1) =~= c@);
}

impl LinkedList {
    pub fn new_list() -> (l: Self)
        ensures
            l@ == Seq::<i32>::empty(),
    {
        let l = Self { head: None };
        assert(l@ =~= Seq::<i32>::empty());
        l
    }

    /// Puts `d` in front of the list.
    pub fn insert_head(&mut self, d: i32)
        ensures
            final(self)@ == seq![d].add(old(self)@),
    {
        let head_cell = Box::new(Cell { data: d, next: self.head.take() });
        self.head = Some(head_cell);
    }

    /// Removes the first cell, if there is one.
    pub fn delete_top(&mut self)
        ensures
            final(self)@ == if old(self)@.len() == 0 {
                old(self)@
            } else {
                old(self)@.drop_first()
            },
    {
        proof {
            assert(chain_values(None) =~= Seq::<i32>::empty());
        }
        if let Some(top) = self.head.take() {
            assert(old(self)@.drop_first() =~= chain_values(top.next));
            self.head = top.next;
        }
    }

    /// The first cell that holds `d`. Changes made through the returned cell
    /// replace the part of the list from that cell on.
    pub fn search_cell(&mut self, d: i32) -> (r: Option<&mut Cell>)
        ensures
            match r {
                None => {
                    &&& !old(self)@.contains(d)
                    &&& final(self)@ == old(self)@
                },
                Some(cell) => {
                    let i = first_index(old(self)@, d);
                    &&& old(self)@.contains(d)
                    &&& (*cell)@ == old(self)@.skip(i)
                    &&& final(self)@ == old(self)@.take(i) + (*final(cell))@
                },
            },
    {
        search_chain(&mut self.head, d)
    }
}

impl Cell {
    /// A cell holds at least its own value.
    pub proof fn lemma_view_nonempty(&self)
        ensures
            self@.len() > 0,
    {
    }

    /// Puts `d` right after this cell.
    pub fn insert(&mut self, d: i32)
        ensures
            final(self)@ == old(self)@.insert(1, d),
    {
        let ghost prev = self@;
        let new_cell = Box::new(Cell { data: d, next: self.next.take() });
        self.next = Some(new_cell);
        assert(self@ =~= prev.insert(1, d));
    }

    /// Removes the cell right after this one, if there is one.
    pub fn delete(&mut self)
        ensures
            final(self)@ == if old(self)@.len() > 1 {
                old(self)@.remove(1)
            } else {
                old(self)@
            },
    {
        let ghost prev = self@;
        proof {
            assert(chain_values(None) =~= Seq::<i32>::empty());
        }
        if let Some(delete_cell) = self.next.take() {
            self.next = delete_cell.next;
            assert(self@ =~= prev.remove(1));
        }
    }
}

} // verus!
