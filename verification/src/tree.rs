//! An unbalanced binary search tree over any ordered key type.

use crate::tree_laws::{
    lemma_inorder_ascending, lemma_insert_holds, lemma_insert_keeps_search_tree, lemma_search_finds,
    lemma_total_order_specified,
};
use core::cmp::Ordering;
use vstd::laws_cmp::obeys_cmp;
use vstd::prelude::*;
use vstd::std_specs::cmp::{PartialEqSpec, PartialOrdSpec};

verus! {

/// A binary search tree. A tree without a key is empty; a tree with a key
/// may have a left and a right subtree.
#[derive(PartialEq, Debug)]
pub struct Tree<T> {
    pub key: Option<T>,
    pub left: Option<Box<Tree<T>>>,
    pub right: Option<Box<Tree<T>>>,
}

/// The values that a sequence of references points to.
pub open spec fn targets<T>(refs: Seq<&T>) -> Seq<T> {
    refs.map_values(|r: &T| *r)
}

/// Each key of the sequence is below all that come after it.
pub open spec fn ascending<T: Ord>(keys: Seq<T>) -> bool {
    forall|i: int, j: int| 0 <= i < j < keys.len() ==> below(#[trigger] keys[i], #[trigger] keys[j])
}

/// `a` and `b` compare equal.
pub open spec fn same<T: Ord>(a: T, b: T) -> bool {
    a.eq_spec(&b)
}

/// `a` compares less than `b`.
pub open spec fn below<T: Ord>(a: T, b: T) -> bool {
    a.partial_cmp_spec(&b) == Some(Ordering::Less)
}

/// The comparisons `==` and `<` of `T` return what `eq_spec` and
/// `partial_cmp_spec` say.
pub open spec fn comparisons_specified<T: Ord>() -> bool {
    T::obeys_eq_spec() && T::obeys_partial_cmp_spec()
}

impl<T: Ord> Tree<T> {
    /// The tree that holds `key` alone.
    pub open spec fn leaf(key: T) -> Tree<T> {
        Tree { key: Some(key), left: None, right: None }
    }

    /// The search for `key` ends at a key that compares equal to it: at each
    /// key the search stops if the two compare equal, goes left if `key`
    /// compares less, and goes right otherwise.
    pub open spec fn reaches(self, key: T) -> bool
        decreases self,
    {
        match self.key {
            None => false,
            Some(x) => if same(key, x) {
                true
            } else if below(key, x) {
                match self.left {
                    None => false,
                    Some(left) => left.reaches(key),
                }
            } else {
                match self.right {
                    None => false,
                    Some(right) => right.reaches(key),
                }
            },
        }
    }

    /// The tree after `key` has been inserted: unchanged if the search for
    /// `key` ends at a key that compares equal to it, and else with `key` as
    /// a new leaf where the search left the tree.
    pub open spec fn with_key(self, key: T) -> Tree<T>
        decreases self,
    {
        match self.key {
            None => Tree { key: Some(key), left: self.left, right: self.right },
            Some(x) => if same(key, x) {
                self
            } else if below(key, x) {
                let left = match self.left {
                    None => Self::leaf(key),
                    Some(left) => left.with_key(key),
                };
                Tree { key: self.key, left: Some(Box::new(left)), right: self.right }
            } else {
                let right = match self.right {
                    None => Self::leaf(key),
                    Some(right) => right.with_key(key),
                };
                Tree { key: self.key, left: self.left, right: Some(Box::new(right)) }
            },
        }
    }

    /// The keys in preorder: a key, then its left subtree, then its right one.
    pub open spec fn preorder_keys(self) -> Seq<T>
        decreases self,
    {
        match self.key {
            None => Seq::empty(),
            Some(x) => seq![x] + Self::preorder_below(self.left) + Self::preorder_below(self.right),
        }
    }

    /// The keys of an optional subtree in preorder.
    pub open spec fn preorder_below(child: Option<Box<Tree<T>>>) -> Seq<T>
        decreases child,
    {
        match child {
            None => Seq::empty(),
            Some(tree) => tree.preorder_keys(),
        }
    }

    /// The keys in inorder: the left subtree, then the key, then the right
    /// subtree.
    pub open spec fn inorder_keys(self) -> Seq<T>
        decreases self,
    {
        match self.key {
            None => Seq::empty(),
            Some(x) => Self::inorder_below(self.left) + seq![x] + Self::inorder_below(self.right),
        }
    }

    /// The keys of an optional subtree in inorder.
    pub open spec fn inorder_below(child: Option<Box<Tree<T>>>) -> Seq<T>
        decreases child,
    {
        match child {
            None => Seq::empty(),
            Some(tree) => tree.inorder_keys(),
        }
    }

    /// The keys in postorder: the left subtree, then the right subtree, then
    /// the key.
    pub open spec fn postorder_keys(self) -> Seq<T>
        decreases self,
    {
        match self.key {
            None => Seq::empty(),
            Some(x) => Self::postorder_below(self.left) + Self::postorder_below(self.right) + seq![x],
        }
    }

    /// The keys of an optional subtree in postorder.
    pub open spec fn postorder_below(child: Option<Box<Tree<T>>>) -> Seq<T>
        decreases child,
    {
        match child {
            None => Seq::empty(),
            Some(tree) => tree.postorder_keys(),
        }
    }

    /// `x` is one of the keys of the tree.
    pub open spec fn holds(self, x: T) -> bool
        decreases self,
    {
        match self.key {
            None => false,
            Some(k) => k == x || Self::holds_below(self.left, x) || Self::holds_below(
                self.right,
                x,
            ),
        }
    }

    /// `x` is one of the keys of an optional subtree.
    pub open spec fn holds_below(child: Option<Box<Tree<T>>>, x: T) -> bool
        decreases child,
    {
        match child {
            None => false,
            Some(tree) => tree.holds(x),
        }
    }

    /// The tree is a search tree: a tree without a key has no subtrees, and
    /// at every key the keys of the left subtree are below it and the keys
    /// of the right subtree are above it.
    pub open spec fn is_search_tree(self) -> bool
        decreases self,
    {
        match self.key {
            None => self.left is None && self.right is None,
            Some(k) => {
                &&& Self::is_search_tree_below(self.left)
                &&& Self::is_search_tree_below(self.right)
                &&& forall|x: T| #[trigger] Self::holds_below(self.left, x) ==> below(x, k)
                &&& forall|x: T| #[trigger] Self::holds_below(self.right, x) ==> below(k, x)
            },
        }
    }

    /// An optional subtree is a search tree.
    pub open spec fn is_search_tree_below(child: Option<Box<Tree<T>>>) -> bool
        decreases child,
    {
        match child {
            None => true,
            Some(tree) => tree.is_search_tree(),
        }
    }

    /// Creates an empty tree.
    pub fn new() -> (tree: Self)
        ensures
            tree == (Tree::<T> { key: None, left: None, right: None }),
    {
        Tree { key: None, left: None, right: None }
    }

    /// Returns `true` if the search for `key` finds a key that compares
    /// equal to it, and `false` otherwise.
    pub fn find(&self, key: &T) -> (found: bool)
        ensures
            comparisons_specified::<T>() ==> found == self.reaches(*key),
            obeys_cmp::<T>() && self.is_search_tree() ==> (found <==> exists|x: T| #[trigger]
                self.holds(x) && same(*key, x)),
        decreases self,
    {
        proof {
            if obeys_cmp::<T>() && self.is_search_tree() {
                lemma_total_order_specified::<T>();
                lemma_search_finds(*self, *key);
            }
        }
        match &self.key {
            None => false,
            Some(x) => {
                if *key == *x {
                    true
                } else if *key < *x {
                    match &self.left {
                        None => false,
                        Some(left) => left.find(key),
                    }
                } else {
                    match &self.right {
                        None => false,
                        Some(right) => right.find(key),
                    }
                }
            },
        }
    }
    /// The optional subtree after `key` has been inserted below it.
    pub open spec fn grown(child: Option<Box<Tree<T>>>, key: T) -> Tree<T> {
        match child {
            None => Self::leaf(key),
            Some(tree) => tree.with_key(key),
        }
    }

    fn insert_below(child: &mut Option<Box<Tree<T>>>, key: T) -> (inserted: bool)
        ensures
            final(child).is_some(),
            comparisons_specified::<T>() ==> {
                &&& *final(child).unwrap() == Self::grown(*old(child), key)
                &&& inserted == match *old(child) {
                    None => true,
                    Some(tree) => !tree.reaches(key),
                }
            },
        decreases *old(child),
    {
        match child {
            None => {
                *child = Some(Box::new(Tree { key: Some(key), left: None, right: None }));
                true
            },
            Some(tree) => tree.insert(key),
        }
    }

    /// Inserts `key`. Returns `false` if the search for `key` finds a key
    /// that compares equal to it, and leaves the tree as it is; returns
    /// `true` otherwise.
    pub fn insert(&mut self, key: T) -> (inserted: bool)
        ensures
            comparisons_specified::<T>() ==> {
                &&& *final(self) == old(self).with_key(key)
                &&& inserted == !old(self).reaches(key)
            },
            obeys_cmp::<T>() && old(self).is_search_tree() ==> {
                &&& final(self).is_search_tree()
                &&& inserted <==> !exists|x: T| #[trigger] old(self).holds(x) && same(key, x)
                &&& forall|x: T| #[trigger]
                    final(self).holds(x) <==> old(self).holds(x) || (x == key && inserted)
            },
        decreases *old(self),
    {
        proof {
            if obeys_cmp::<T>() && old(self).is_search_tree() {
                lemma_total_order_specified::<T>();
                lemma_insert_keeps_search_tree(*old(self), key);
                lemma_search_finds(*old(self), key);
                assert forall|x: T| #[trigger]
                    old(self).with_key(key).holds(x) <==> old(self).holds(x) || (x == key
                        && !old(self).reaches(key)) by {
                    lemma_insert_holds(*old(self), key, x);
                }
            }
        }
        match &self.key {
            None => {
                self.key = Some(key);
                true
            },
            Some(x) => {
                if key == *x {
                    false
                } else if key < *x {
                    Self::insert_below(&mut self.left, key)
                } else {
                    Self::insert_below(&mut self.right, key)
                }
            },
        }
    }
    /// Returns the preorder traversal of the tree.
    pub fn preorder(&self) -> (keys: Vec<&T>)
        ensures
            targets(keys@) == self.preorder_keys(),
        decreases self,
    {
        let mut output: Vec<&T> = Vec::new();
        match &self.key {
            None => {},
            Some(x) => {
                output.push(x);
                match &self.left {
                    None => {},
                    Some(left) => {
                        let mut below = left.preorder();
                        output.append(&mut below);
                    },
                }
                match &self.right {
                    None => {},
                    Some(right) => {
                        let mut below = right.preorder();
                        output.append(&mut below);
                    },
                }
            },
        }
        assert(targets(output@) =~= self.preorder_keys());
        output
    }

    /// Returns the inorder traversal of the tree.
    pub fn inorder(&self) -> (keys: Vec<&T>)
        ensures
            targets(keys@) == self.inorder_keys(),
            obeys_cmp::<T>() && self.is_search_tree() ==> ascending(targets(keys@)),
        decreases self,
    {
        proof {
            if obeys_cmp::<T>() && self.is_search_tree() {
                lemma_inorder_ascending(*self);
            }
        }
        let mut output: Vec<&T> = Vec::new();
        match &self.key {
            None => {},
            Some(x) => {
                match &self.left {
                    None => {},
                    Some(left) => {
                        let mut below = left.inorder();
                        output.append(&mut below);
                    },
                }
                output.push(x);
                match &self.right {
                    None => {},
                    Some(right) => {
                        let mut below = right.inorder();
                        output.append(&mut below);
                    },
                }
            },
        }
        assert(targets(output@) =~= self.inorder_keys());
        output
    }

    /// Returns the postorder traversal of the tree.
    pub fn postorder(&self) -> (keys: Vec<&T>)
        ensures
            targets(keys@) == self.postorder_keys(),
        decreases self,
    {
        let mut output: Vec<&T> = Vec::new();
        match &self.key {
            None => {},
            Some(x) => {
                match &self.left {
                    None => {},
                    Some(left) => {
                        let mut below = left.postorder();
                        output.append(&mut below);
                    },
                }
                match &self.right {
                    None => {},
                    Some(right) => {
                        let mut below = right.postorder();
                        output.append(&mut below);
                    },
                }
                output.push(x);
            },
        }
        assert(targets(output@) =~= self.postorder_keys());
        output
    }
}

} // verus!
