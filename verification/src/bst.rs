//! A binary search tree of integers, used as a set.

use vstd::prelude::*;

verus! {

enum Link {
    More(Box<Node>),
    Empty,
}

struct Node {
    element: i32,
    left: Link,
    right: Link,
}

/// A set of integers, held in a binary search tree that is never rebalanced.
pub struct BST {
    root: Link,
}

impl Link {
    /// The elements in the tree under this link.
    spec fn elements(self) -> Set<i32>
        decreases self,
    {
        match self {
            Link::Empty => Set::empty(),
            Link::More(node) => node.left.elements().union(node.right.elements()).insert(
                node.element,
            ),
        }
    }

    /// Whether every node under this link has the smaller elements on its
    /// left and the greater ones on its right.
    spec fn ordered(self) -> bool
        decreases self,
    {
        match self {
            Link::Empty => true,
            Link::More(node) => {
                &&& node.left.ordered()
                &&& node.right.ordered()
                &&& forall|x: i32| node.left.elements().contains(x) ==> x < node.element
                &&& forall|x: i32| node.right.elements().contains(x) ==> x > node.element
            },
        }
    }

    fn insert(&mut self, element: i32) -> (added: bool)
        requires
            old(self).ordered(),
        ensures
            final(self).ordered(),
            final(self).elements() =~= old(self).elements().insert(element),
            added == !old(self).elements().contains(element),
        decreases *old(self),
    {
        match self {
            Self::Empty => {
                *self = Self::More(
                    Box::new(Node { element, left: Link::Empty, right: Link::Empty }),
                );
                true
            },
            Self::More(b) => {
                if b.element == element {
                    false
                } else if element < b.element {
                    assert(!b.right.elements().contains(element));
                    b.left.insert(element)
                } else {
                    assert(!b.left.elements().contains(element));
                    b.right.insert(element)
                }
            },
        }
    }

    fn search(&self, element: i32) -> (found: bool)
        requires
            self.ordered(),
        ensures
            found == self.elements().contains(element),
        decreases self,
    {
        match self {
            Self::Empty => false,
            Self::More(b) => {
                if b.element == element {
                    true
                } else if element < b.element {
                    assert(!b.right.elements().contains(element));
                    b.left.search(element)
                } else {
                    assert(!b.left.elements().contains(element));
                    b.right.search(element)
                }
            },
        }
    }
}

impl View for BST {
    type V = Set<i32>;

    closed spec fn view(&self) -> Set<i32> {
        self.root.elements()
    }
}

impl BST {
    #[verifier::type_invariant]
    spec fn well_formed(self) -> bool {
        self.root.ordered()
    }

    /// Creates an empty tree.
    pub fn new() -> (tree: Self)
        ensures
            tree@ == Set::<i32>::empty(),
    {
        BST { root: Link::Empty }
    }

    /// Inserts an element into the tree. Returns whether it was added, that
    /// is, whether it was not there before.
    pub fn insert(&mut self, element: i32) -> (added: bool)
        ensures
            final(self)@ == old(self)@.insert(element),
            added == !old(self)@.contains(element),
    {
        proof {
            use_type_invariant(&*self);
        }
        let mut root = Link::Empty;
        std::mem::swap(&mut root, &mut self.root);
        let added = root.insert(element);
        self.root = root;
        added
    }

    /// Searches whether an element is in the tree.
    pub fn search(&self, element: i32) -> (found: bool)
        ensures
            found == self@.contains(element),
    {
        proof {
            use_type_invariant(self);
        }
        self.root.search(element)
    }
}

} // verus!
