//! A binary search tree over any totally ordered type, used as a set.

use vstd::laws_cmp::obeys_cmp;
use vstd::laws_eq::obeys_concrete_eq;
use vstd::prelude::*;
use vstd::std_specs::cmp::{OrdSpec, PartialEqSpec, PartialOrdIs, PartialOrdSpec};

verus! {

type Link<T> = Option<Box<Node<T>>>;

struct Node<T> {
    element: T,
    left: Link<T>,
    right: Link<T>,
}

/// A set of values of an ordered type, held in a binary search tree that is
/// never rebalanced.
pub struct BST<T: Ord> {
    root: Link<T>,
}

/// Whether the comparisons of `T` are those of a total order in which two
/// values are equal only if they are the same value.
pub open spec fn total_order<T: Ord>() -> bool {
    obeys_cmp::<T>() && obeys_concrete_eq::<T>()
}

/// The integers are ordered in this way.
pub proof fn law_integers_ordered()
    ensures
        total_order::<i32>(),
        total_order::<u32>(),
        total_order::<i64>(),
        total_order::<u64>(),
        total_order::<usize>(),
        total_order::<isize>(),
{
    broadcast use vstd::laws_cmp::group_laws_cmp;
    broadcast use vstd::laws_eq::group_laws_eq;

}

/// In a total order, of two values either one is less than the other or they
/// are the same, and never two of these at once.
proof fn lemma_trichotomy<T: Ord>(x: T, y: T)
    requires
        total_order::<T>(),
    ensures
        T::obeys_eq_spec(),
        T::obeys_partial_cmp_spec(),
        x.eq_spec(&y) <==> x == y,
        x.is_lt(&y) || x == y || y.is_lt(&x),
        !(x.is_lt(&y) && x == y),
        !(x.is_lt(&y) && y.is_lt(&x)),
{
    reveal(obeys_concrete_eq);
    reveal(vstd::laws_cmp::obeys_cmp_partial_ord);
    reveal(vstd::laws_cmp::obeys_cmp_ord);
    reveal(vstd::laws_cmp::obeys_partial_cmp_spec_properties);
    let forth = x.partial_cmp_spec(&y);
    let back = y.partial_cmp_spec(&x);
    assert(forth == Some(x.cmp_spec(&y)));
    assert(back == Some(y.cmp_spec(&x)));
    assert(forth == Some(core::cmp::Ordering::Equal) <==> x.eq_spec(&y));
    assert(back == Some(core::cmp::Ordering::Less) <==> forth == Some(
        core::cmp::Ordering::Greater,
    ));
}

/// The elements in the tree under a link.
spec fn elements<T>(link: Link<T>) -> Set<T>
    decreases link,
{
    match link {
        None => Set::empty(),
        Some(node) => elements(node.left).union(elements(node.right)).insert(node.element),
    }
}

/// Whether every node under the link has the smaller elements on its left and
/// the greater ones on its right.
spec fn ordered<T: Ord>(link: Link<T>) -> bool
    decreases link,
{
    match link {
        None => true,
        Some(node) => {
            &&& ordered(node.left)
            &&& ordered(node.right)
            &&& forall|x: T| elements(node.left).contains(x) ==> x.is_lt(&node.element)
            &&& forall|x: T| elements(node.right).contains(x) ==> node.element.is_lt(&x)
        },
    }
}

fn insert_value<T: Ord>(link: &mut Link<T>, element: T) -> (added: bool)
    requires
        total_order::<T>(),
        ordered(*old(link)),
    ensures
        ordered(*final(link)),
        elements(*final(link)) =~= elements(*old(link)).insert(element),
        added == !elements(*old(link)).contains(element),
    decreases *old(link),
{
    match link {
        None => {
            *link = Some(Box::new(Node { element, left: None, right: None }));
            true
        },
        Some(b) => {
            proof {
                lemma_trichotomy(b.element, element);
                lemma_trichotomy(element, b.element);
            }
            if b.element == element {
                false
            } else if element < b.element {
                proof {
                    if elements(b.right).contains(element) {
                        assert(b.element.is_lt(&element));
                    }
                }
                insert_value(&mut b.left, element)
            } else {
                proof {
                    if elements(b.left).contains(element) {
                        assert(element.is_lt(&b.element));
                    }
                }
                insert_value(&mut b.right, element)
            }
        },
    }
}

fn search_value<T: Ord>(link: &Link<T>, element: T) -> (found: bool)
    requires
        total_order::<T>(),
        ordered(*link),
    ensures
        found == elements(*link).contains(element),
    decreases link,
{
    match link {
        None => false,
        Some(b) => {
            proof {
                lemma_trichotomy(b.element, element);
                lemma_trichotomy(element, b.element);
            }
            if b.element == element {
                true
            } else if element < b.element {
                proof {
                    if elements(b.right).contains(element) {
                        assert(b.element.is_lt(&element));
                    }
                }
                search_value(&b.left, element)
            } else {
                proof {
                    if elements(b.left).contains(element) {
                        assert(element.is_lt(&b.element));
                    }
                }
                search_value(&b.right, element)
            }
        },
    }
}

impl<T: Ord> View for BST<T> {
    type V = Set<T>;

    closed spec fn view(&self) -> Set<T> {
        elements(self.root)
    }
}

impl<T: Ord> BST<T> {
    #[verifier::type_invariant]
    spec fn well_formed(self) -> bool {
        total_order::<T>() && ordered(self.root)
    }

    /// Creates an empty tree.
    pub fn new() -> (tree: Self)
        requires
            total_order::<T>(),
        ensures
            tree@ == Set::<T>::empty(),
    {
        BST { root: None }
    }

    /// Inserts an element into the tree. Returns whether it was added, that
    /// is, whether it was not there before.
    pub fn insert(&mut self, element: T) -> (added: bool)
        ensures
            final(self)@ == old(self)@.insert(element),
            added == !old(self)@.contains(element),
    {
        proof {
            use_type_invariant(&*self);
        }
        let mut root = None;
        std::mem::swap(&mut root, &mut self.root);
        let added = insert_value(&mut root, element);
        self.root = root;
        added
    }

    /// Searches whether an element is in the tree.
    pub fn search(&self, element: T) -> (found: bool)
        ensures
            found == self@.contains(element),
    {
        proof {
            use_type_invariant(self);
        }
        search_value(&self.root, element)
    }
}

} // verus!
