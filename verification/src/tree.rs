use vstd::prelude::*;

verus! {

/// A binary search tree of `i32` labels; each label appears once.
pub struct Tree {
    label: i32,
    left_tree: Option<Box<Tree>>,
    right_tree: Option<Box<Tree>>,
}

/// The labels of an optional subtree.
pub closed spec fn subtree_labels(t: Option<Box<Tree>>) -> Set<i32>
    decreases t,
{
    match t {
        Some(b) => (*b).labels(),
        None => Set::empty(),
    }
}

/// Whether an optional subtree is a search tree.
pub closed spec fn subtree_wf(t: Option<Box<Tree>>) -> bool
    decreases t,
{
    match t {
        Some(b) => (*b).wf(),
        None => true,
    }
}

/// The optional subtree after the search-tree insertion of `x`: an empty
/// subtree becomes a leaf.
pub closed spec fn subtree_with(t: Option<Box<Tree>>, x: i32) -> Option<Box<Tree>>
    decreases t,
{
    match t {
        Some(b) => Some(Box::new((*b).with_label(x))),
        None => Some(Box::new(Tree::leaf(x))),
    }
}

impl View for Tree {
    type V = Set<i32>;

    closed spec fn view(&self) -> Set<i32> {
        self.labels()
    }
}

impl Tree {
    /// A tree of one node.
    pub closed spec fn leaf(x: i32) -> Tree {
        Tree { label: x, left_tree: None, right_tree: None }
    }

    /// The label at the root.
    pub closed spec fn root(self) -> i32 {
        self.label
    }

    /// The left subtree, if any.
    pub closed spec fn left_child(self) -> Option<Tree> {
        match self.left_tree {
            Some(b) => Some(*b),
            None => None,
        }
    }

    /// The right subtree, if any.
    pub closed spec fn right_child(self) -> Option<Tree> {
        match self.right_tree {
            Some(b) => Some(*b),
            None => None,
        }
    }

    /// All labels in the tree.
    pub closed spec fn labels(self) -> Set<i32>
        decreases self,
    {
        subtree_labels(self.left_tree).union(subtree_labels(self.right_tree)).insert(self.label)
    }

    /// The search-tree order: labels on the left are smaller than the root,
    /// labels on the right are greater, and so in every subtree.
    pub closed spec fn wf(self) -> bool
        decreases self,
    {
        &&& forall|x: i32| #[trigger] subtree_labels(self.left_tree).contains(x) ==> x < self.label
        &&& forall|x: i32| #[trigger] subtree_labels(self.right_tree).contains(x) ==> x > self.label
        &&& subtree_wf(self.left_tree)
        &&& subtree_wf(self.right_tree)
    }

    /// The tree after inserting `x`: a smaller label goes down the left side, a
    /// greater one down the right side, until an empty place takes a new leaf; a
    /// label already at a node leaves the tree unchanged.
    pub closed spec fn with_label(self, x: i32) -> Tree
        decreases self,
    {
        if x < self.label {
            Tree { left_tree: subtree_with(self.left_tree, x), ..self }
        } else if x > self.label {
            Tree { right_tree: subtree_with(self.right_tree, x), ..self }
        } else {
            self
        }
    }
}

/// Inserting into an optional subtree adds the label and keeps the order.
proof fn lemma_subtree_with(t: Option<Box<Tree>>, x: i32)
    requires
        subtree_wf(t),
    ensures
        subtree_labels(subtree_with(t, x)) == subtree_labels(t).insert(x),
        subtree_wf(subtree_with(t, x)),
    decreases t,
{
    match t {
        Some(b) => {
            Tree::lemma_with_label(*b, x);
        },
        None => {
            let l = Tree::leaf(x);
            assert(subtree_labels(l.left_tree) == Set::<i32>::empty());
            assert(subtree_labels(l.right_tree) == Set::<i32>::empty());
            assert(l.labels() =~= Set::<i32>::empty().insert(x));
        },
    }
}

impl Tree {
    /// Insertion adds exactly the inserted label and keeps the search-tree order.
    pub proof fn lemma_with_label(t: Tree, x: i32)
        requires
            t.wf(),
        ensures
            t.with_label(x).labels() == t.labels().insert(x),
            t.with_label(x).wf(),
        decreases t,
    {
        if x < t.label {
            lemma_subtree_with(t.left_tree, x);
            assert(t.with_label(x).labels() =~= t.labels().insert(x));
        } else if x > t.label {
            lemma_subtree_with(t.right_tree, x);
            assert(t.with_label(x).labels() =~= t.labels().insert(x));
        } else {
            assert(t.labels().insert(x) =~= t.labels());
        }
    }

    /// Inserting a label that is already in a search tree leaves it unchanged.
    pub proof fn lemma_insert_present(t: Tree, x: i32)
        requires
            t.wf(),
            t@.contains(x),
        ensures
            t.with_label(x) == t,
        decreases t,
    {
        if x < t.label {
            assert(!subtree_labels(t.right_tree).contains(x));
            match t.left_tree {
                Some(b) => {
                    Tree::lemma_insert_present(*b, x);
                    assert(subtree_with(t.left_tree, x) == t.left_tree);
                },
                None => {
                    assert(subtree_labels(t.left_tree) =~= Set::<i32>::empty());
                },
            }
        } else if x > t.label {
            assert(!subtree_labels(t.left_tree).contains(x));
            match t.right_tree {
                Some(b) => {
                    Tree::lemma_insert_present(*b, x);
                    assert(subtree_with(t.right_tree, x) == t.right_tree);
                },
                None => {
                    assert(subtree_labels(t.right_tree) =~= Set::<i32>::empty());
                },
            }
        }
    }

    /// A search for a label just inserted finds it, and the labels found
    /// before are still found.
    pub proof fn lemma_search_after_insert(t: Tree, x: i32, y: i32)
        requires
            t.wf(),
        ensures
            t.with_label(x).wf(),
            t.with_label(x)@.contains(x),
            t@.contains(y) ==> t.with_label(x)@.contains(y),
    {
        Tree::lemma_with_label(t, x);
    }

    /// A leaf has its label at the root, no subtree, and that one label.
    pub proof fn lemma_leaf(x: i32)
        ensures
            Tree::leaf(x).root() == x,
            Tree::leaf(x).left_child() is None,
            Tree::leaf(x).right_child() is None,
            Tree::leaf(x)@ == Set::<i32>::empty().insert(x),
            Tree::leaf(x).wf(),
    {
        let l = Tree::leaf(x);
        assert(subtree_labels(l.left_tree) =~= Set::<i32>::empty());
        assert(subtree_labels(l.right_tree) =~= Set::<i32>::empty());
        assert(l.labels() =~= Set::<i32>::empty().insert(x));
    }

    /// The shape of a tree after the insertion of `x`: the root stays; a
    /// smaller label goes into the left subtree (a new leaf when there is
    /// none), a greater one into the right subtree, and the other subtree
    /// stays; a label equal to the root changes nothing.
    pub proof fn lemma_with_label_shape(t: Tree, x: i32)
        ensures
            t.with_label(x).root() == t.root(),
            x < t.root() ==> t.with_label(x).right_child() == t.right_child(),
            x < t.root() ==> t.with_label(x).left_child() == Some(
                match t.left_child() {
                    Some(l) => l.with_label(x),
                    None => Tree::leaf(x),
                },
            ),
            x > t.root() ==> t.with_label(x).left_child() == t.left_child(),
            x > t.root() ==> t.with_label(x).right_child() == Some(
                match t.right_child() {
                    Some(r) => r.with_label(x),
                    None => Tree::leaf(x),
                },
            ),
            x == t.root() ==> t.with_label(x) == t,
    {
    }

    /// In a search tree the left subtree holds exactly the labels below the
    /// root and the right subtree exactly those above it; both are search
    /// trees, and a subtree is missing exactly when it would hold no label.
    pub proof fn lemma_children(t: Tree)
        requires
            t.wf(),
        ensures
            t@.contains(t.root()),
            t.left_child() is None <==> forall|y: i32| t@.contains(y) ==> y >= t.root(),
            t.right_child() is None <==> forall|y: i32| t@.contains(y) ==> y <= t.root(),
            t.left_child() matches Some(l) ==> l.wf() && l@ == Set::new(
                |y: i32| t@.contains(y) && y < t.root(),
            ),
            t.right_child() matches Some(r) ==> r.wf() && r@ == Set::new(
                |y: i32| t@.contains(y) && y > t.root(),
            ),
    {
        let left = subtree_labels(t.left_tree);
        let right = subtree_labels(t.right_tree);
        match t.left_tree {
            Some(b) => {
                assert((*b).labels() =~= Set::new(|y: i32| t@.contains(y) && y < t.root()));
                assert(b.labels().contains(b.label));
                assert(t@.contains(b.label) && b.label < t.root());
            },
            None => {
                assert(left =~= Set::<i32>::empty());
            },
        }
        match t.right_tree {
            Some(b) => {
                assert((*b).labels() =~= Set::new(|y: i32| t@.contains(y) && y > t.root()));
                assert(b.labels().contains(b.label));
                assert(t@.contains(b.label) && b.label > t.root());
            },
            None => {
                assert(right =~= Set::<i32>::empty());
            },
        }
    }

    pub fn new(label: i32) -> (t: Tree)
        ensures
            t == Tree::leaf(label),
            t.root() == label,
            t.left_child() is None,
            t.right_child() is None,
            t.wf(),
            t@ == Set::<i32>::empty().insert(label),
    {
        let t = Tree { label, left_tree: None, right_tree: None };
        proof {
            assert(t.labels() =~= Set::<i32>::empty().insert(label));
        }
        t
    }

    /// Inserts `label` where a search for it ends; a label already present
    /// changes nothing.
    pub fn insert(&mut self, label: i32)
        requires
            old(self).wf(),
        ensures
            *final(self) == old(self).with_label(label),
            final(self).wf(),
            final(self)@ == old(self)@.insert(label),
            final(self).root() == old(self).root(),
            label < old(self).root() ==> final(self).right_child() == old(self).right_child(),
            label < old(self).root() ==> final(self).left_child() == Some(
                match old(self).left_child() {
                    Some(l) => l.with_label(label),
                    None => Tree::leaf(label),
                },
            ),
            label > old(self).root() ==> final(self).left_child() == old(self).left_child(),
            label > old(self).root() ==> final(self).right_child() == Some(
                match old(self).right_child() {
                    Some(r) => r.with_label(label),
                    None => Tree::leaf(label),
                },
            ),
            label == old(self).root() ==> *final(self) == *old(self),
        decreases *old(self),
    {
        proof {
            Tree::lemma_with_label(*self, label);
            Tree::lemma_with_label_shape(*self, label);
        }
        if self.label > label {
            if let Some(left) = self.left_tree.as_mut() {
                left.insert(label);
            } else {
                self.left_tree = Some(Box::new(Tree::new(label)));
            }
        } else if self.label < label {
            if let Some(right) = self.right_tree.as_mut() {
                right.insert(label);
            } else {
                self.right_tree = Some(Box::new(Tree::new(label)));
            }
        }
    }

    /// Whether `label` is in the tree, found by walking down the search path.
    pub fn search(&self, label: i32) -> (b: bool)
        requires
            self.wf(),
        ensures
            b == self@.contains(label),
        decreases self,
    {
        if self.label == label {
            return true;
        }
        proof {
            if label < self.label {
                assert(!subtree_labels(self.right_tree).contains(label));
            } else {
                assert(!subtree_labels(self.left_tree).contains(label));
            }
            assert(subtree_labels(None::<Box<Tree>>) =~= Set::<i32>::empty());
        }
        if self.label > label {
            if let Some(left) = self.left_tree.as_ref() {
                return left.search(label);
            }
        } else {
            if let Some(right) = self.right_tree.as_ref() {
                return right.search(label);
            }
        }
        false
    }

    pub fn get_label(&self) -> (l: &i32)
        ensures
            *l == self.root(),
    {
        &self.label
    }

    pub fn get_left(&self) -> (t: Option<&Tree>)
        ensures
            match t {
                Some(l) => self.left_child() == Some(*l),
                None => self.left_child() is None,
            },
            self.wf() ==> (t is None <==> forall|y: i32| self@.contains(y) ==> y >= self.root()),
            self.wf() && t is Some ==> t.unwrap().wf() && t.unwrap()@ == Set::new(
                |y: i32| self@.contains(y) && y < self.root(),
            ),
    {
        proof {
            if self.wf() {
                Tree::lemma_children(*self);
            }
        }
        match &self.left_tree {
            Some(b) => Some(&**b),
            None => None,
        }
    }

    pub fn get_right(&self) -> (t: Option<&Tree>)
        ensures
            match t {
                Some(r) => self.right_child() == Some(*r),
                None => self.right_child() is None,
            },
            self.wf() ==> (t is None <==> forall|y: i32| self@.contains(y) ==> y <= self.root()),
            self.wf() && t is Some ==> t.unwrap().wf() && t.unwrap()@ == Set::new(
                |y: i32| self@.contains(y) && y > self.root(),
            ),
    {
        proof {
            if self.wf() {
                Tree::lemma_children(*self);
            }
        }
        match &self.right_tree {
            Some(b) => Some(&**b),
            None => None,
        }
    }
}

} // verus!
