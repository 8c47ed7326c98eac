//! What holds of search trees whose keys are totally ordered: insertion
//! keeps the order, a search finds what the tree holds, and the inorder
//! traversal is sorted.

use crate::tree::{ascending, below, comparisons_specified, same, Tree};
use core::cmp::Ordering;
use vstd::laws_cmp::{
    obeys_cmp, obeys_cmp_ord, obeys_cmp_partial_ord, obeys_partial_cmp_spec_properties,
};
use vstd::laws_eq::obeys_eq_spec_properties;
use vstd::prelude::*;
use vstd::seq_lib::{lemma_multiset_commutative, lemma_seq_concat_contains_all_elements};
use vstd::std_specs::cmp::{OrdSpec, PartialEqSpec, PartialOrdSpec};

verus! {

/// Where the comparisons of `T` form a total order, `==` and `<` return
/// what `eq_spec` and `partial_cmp_spec` say.
pub proof fn lemma_total_order_specified<T: Ord>()
    requires
        obeys_cmp::<T>(),
    ensures
        comparisons_specified::<T>(),
{
    reveal(obeys_cmp_partial_ord);
}

/// Of two keys exactly one holds: the first is below the second, the two
/// compare equal, or the second is below the first.
pub proof fn lemma_exactly_one<T: Ord>(a: T, b: T)
    requires
        obeys_cmp::<T>(),
    ensures
        below(a, b) || same(a, b) || below(b, a),
        !(below(a, b) && same(a, b)),
        !(below(a, b) && below(b, a)),
        !(same(a, b) && below(b, a)),
{
    reveal(obeys_cmp_partial_ord);
    reveal(obeys_cmp_ord);
    reveal(obeys_partial_cmp_spec_properties);
    assert(a.partial_cmp_spec(&b) == Some(a.cmp_spec(&b)));
    assert(b.partial_cmp_spec(&a) == Some(b.cmp_spec(&a)));
    assert(a.partial_cmp_spec(&b) == Some(Ordering::Equal) <==> a.eq_spec(&b));
    assert(a.partial_cmp_spec(&b) == Some(Ordering::Less) <==> b.partial_cmp_spec(&a) == Some(
        Ordering::Greater,
    ));
    assert(b.partial_cmp_spec(&a) == Some(Ordering::Less) <==> a.partial_cmp_spec(&b) == Some(
        Ordering::Greater,
    ));
}

/// Comparing equal is symmetric.
pub proof fn lemma_same_symmetric<T: Ord>(a: T, b: T)
    requires
        obeys_cmp::<T>(),
        same(a, b),
    ensures
        same(b, a),
{
    reveal(obeys_eq_spec_properties);
    assert(a.eq_spec(&b) <==> b.eq_spec(&a));
}

/// Every key compares equal to itself.
pub proof fn lemma_same_reflexive<T: Ord>(a: T)
    requires
        obeys_cmp::<T>(),
    ensures
        same(a, a),
{
    lemma_exactly_one(a, a);
}

/// Being below is transitive.
pub proof fn lemma_below_transitive<T: Ord>(a: T, b: T, c: T)
    requires
        obeys_cmp::<T>(),
        below(a, b),
        below(b, c),
    ensures
        below(a, c),
{
    reveal(obeys_partial_cmp_spec_properties);
    assert(a.partial_cmp_spec(&b) == Some(Ordering::Less) && b.partial_cmp_spec(&c) == Some(
        Ordering::Less,
    ) ==> a.partial_cmp_spec(&c) == Some(Ordering::Less));
}

/// Keys that compare equal are below the same keys, and the same keys are
/// below them.
pub proof fn lemma_same_stands_for<T: Ord>(a: T, b: T, c: T)
    requires
        obeys_cmp::<T>(),
        same(a, b),
    ensures
        below(b, c) ==> below(a, c),
        below(c, b) ==> below(c, a),
{
    reveal(obeys_eq_spec_properties);
    lemma_exactly_one(a, c);
    lemma_exactly_one(c, a);
    lemma_exactly_one(b, c);
    lemma_exactly_one(c, b);
    lemma_exactly_one(a, b);
    lemma_exactly_one(b, a);
    lemma_same_symmetric(a, b);
    if below(b, c) {
        if same(a, c) {
            // then b and c compare equal, against `below(b, c)`
            assert(b.eq_spec(&a) && a.eq_spec(&c) ==> b.eq_spec(&c));
        } else if below(c, a) {
            lemma_below_transitive(b, c, a);
        }
    }
    if below(c, b) {
        if same(a, c) {
            lemma_same_symmetric(a, c);
            assert(c.eq_spec(&a) && a.eq_spec(&b) ==> c.eq_spec(&b));
        } else if below(a, c) {
            lemma_below_transitive(a, c, b);
        }
    }
}


/// After an insertion into a search tree the tree holds what it held
/// before, and the new key too unless the search found one that compares
/// equal to it.
pub proof fn lemma_insert_holds<T: Ord>(tree: Tree<T>, key: T, x: T)
    requires
        tree.is_search_tree(),
    ensures
        tree.with_key(key).holds(x) <==> tree.holds(x) || (x == key && !tree.reaches(key)),
    decreases tree,
{
    let after = tree.with_key(key);
    match tree.key {
        None => {
            assert(after.holds(x) <==> x == key);
        },
        Some(k) => {
            if same(key, k) {
            } else if below(key, k) {
                let grown = Tree::grown(tree.left, key);
                assert(after.left == Some(Box::new(grown)));
                assert(after.right == tree.right);
                match tree.left {
                    None => {
                        assert(grown.holds(x) <==> x == key);
                    },
                    Some(left) => {
                        lemma_insert_holds(*left, key, x);
                    },
                }
                assert(Tree::holds_below(after.left, x) <==> grown.holds(x));
            } else {
                let grown = Tree::grown(tree.right, key);
                assert(after.right == Some(Box::new(grown)));
                assert(after.left == tree.left);
                match tree.right {
                    None => {
                        assert(grown.holds(x) <==> x == key);
                    },
                    Some(right) => {
                        lemma_insert_holds(*right, key, x);
                    },
                }
                assert(Tree::holds_below(after.right, x) <==> grown.holds(x));
            }
        },
    }
}

/// An insertion into a search tree leaves a search tree.
pub proof fn lemma_insert_keeps_search_tree<T: Ord>(tree: Tree<T>, key: T)
    requires
        obeys_cmp::<T>(),
        tree.is_search_tree(),
    ensures
        tree.with_key(key).is_search_tree(),
    decreases tree,
{
    let after = tree.with_key(key);
    match tree.key {
        None => {
            assert(after.left is None && after.right is None);
        },
        Some(k) => {
            lemma_exactly_one(key, k);
            if same(key, k) {
            } else if below(key, k) {
                let grown = Tree::grown(tree.left, key);
                assert(after.left == Some(Box::new(grown)));
                assert(after.right == tree.right);
                match tree.left {
                    None => {
                        assert(grown.is_search_tree());
                    },
                    Some(left) => {
                        lemma_insert_keeps_search_tree(*left, key);
                    },
                }
                assert(Tree::is_search_tree_below(after.left));
                assert forall|x: T| #[trigger] Tree::holds_below(after.left, x) implies below(
                    x,
                    k,
                ) by {
                    match tree.left {
                        None => {
                            assert(grown.holds(x) <==> x == key);
                        },
                        Some(left) => {
                            lemma_insert_holds(*left, key, x);
                            assert(Tree::holds_below(tree.left, x) || x == key);
                        },
                    }
                }
            } else {
                let grown = Tree::grown(tree.right, key);
                assert(after.right == Some(Box::new(grown)));
                assert(after.left == tree.left);
                match tree.right {
                    None => {
                        assert(grown.is_search_tree());
                    },
                    Some(right) => {
                        lemma_insert_keeps_search_tree(*right, key);
                    },
                }
                assert(Tree::is_search_tree_below(after.right));
                assert forall|x: T| #[trigger] Tree::holds_below(after.right, x) implies below(
                    k,
                    x,
                ) by {
                    match tree.right {
                        None => {
                            assert(grown.holds(x) <==> x == key);
                        },
                        Some(right) => {
                            lemma_insert_holds(*right, key, x);
                            assert(Tree::holds_below(tree.right, x) || x == key);
                        },
                    }
                }
            }
        },
    }
}

/// In a search tree the search for a key ends at a key that compares equal
/// to it exactly if the tree holds such a key.
pub proof fn lemma_search_finds<T: Ord>(tree: Tree<T>, key: T)
    requires
        obeys_cmp::<T>(),
        tree.is_search_tree(),
    ensures
        tree.reaches(key) <==> exists|x: T| #[trigger] tree.holds(x) && same(key, x),
    decreases tree,
{
    match tree.key {
        None => {},
        Some(k) => {
            lemma_exactly_one(key, k);
            if same(key, k) {
                assert(tree.holds(k) && same(key, k));
            } else {
                // where the search goes on, and where it must not look
                let (near, far) = if below(key, k) {
                    (tree.left, tree.right)
                } else {
                    (tree.right, tree.left)
                };
                if let Some(next) = near {
                    lemma_search_finds(*next, key);
                    if next.reaches(key) {
                        let x = choose|x: T| #[trigger] next.holds(x) && same(key, x);
                        assert(tree.holds(x) && same(key, x));
                    }
                }
                if exists|x: T| #[trigger] tree.holds(x) && same(key, x) {
                    let x = choose|x: T| #[trigger] tree.holds(x) && same(key, x);
                    if Tree::holds_below(far, x) {
                        lemma_same_stands_for(key, x, k);
                    }
                    assert(Tree::holds_below(near, x));
                    assert(near.unwrap().holds(x) && same(key, x));
                }
            }
        },
    }
}


/// The inorder traversal lists exactly the keys that the tree holds.
pub proof fn lemma_inorder_lists_keys<T: Ord>(tree: Tree<T>, x: T)
    ensures
        tree.inorder_keys().contains(x) <==> tree.holds(x),
    decreases tree,
{
    match tree.key {
        None => {},
        Some(k) => {
            let l = Tree::inorder_below(tree.left);
            let r = Tree::inorder_below(tree.right);
            if let Some(left) = tree.left {
                lemma_inorder_lists_keys(*left, x);
            }
            if let Some(right) = tree.right {
                lemma_inorder_lists_keys(*right, x);
            }
            lemma_seq_concat_contains_all_elements(l, seq![k], x);
            lemma_seq_concat_contains_all_elements(l + seq![k], r, x);
            assert(seq![k][0] == k);
            assert(seq![k].contains(x) <==> k == x);
        },
    }
}

/// The three traversals list the same keys, each key as often as the
/// others list it; so they are of the same length.
pub proof fn lemma_traversals_agree<T: Ord>(tree: Tree<T>)
    ensures
        tree.preorder_keys().to_multiset() == tree.inorder_keys().to_multiset(),
        tree.postorder_keys().to_multiset() == tree.inorder_keys().to_multiset(),
        tree.preorder_keys().len() == tree.inorder_keys().len(),
        tree.postorder_keys().len() == tree.inorder_keys().len(),
    decreases tree,
{
    match tree.key {
        None => {},
        Some(k) => {
            if let Some(left) = tree.left {
                lemma_traversals_agree(*left);
            }
            if let Some(right) = tree.right {
                lemma_traversals_agree(*right);
            }
            let root = seq![k];
            let (pre_l, pre_r) = (Tree::preorder_below(tree.left), Tree::preorder_below(tree.right));
            let (in_l, in_r) = (Tree::inorder_below(tree.left), Tree::inorder_below(tree.right));
            let (post_l, post_r) = (
                Tree::postorder_below(tree.left),
                Tree::postorder_below(tree.right),
            );
            lemma_multiset_commutative(root, pre_l);
            lemma_multiset_commutative(root + pre_l, pre_r);
            lemma_multiset_commutative(in_l, root);
            lemma_multiset_commutative(in_l + root, in_r);
            lemma_multiset_commutative(post_l, post_r);
            lemma_multiset_commutative(post_l + post_r, root);
            assert(tree.preorder_keys().to_multiset() =~= tree.inorder_keys().to_multiset());
            assert(tree.postorder_keys().to_multiset() =~= tree.inorder_keys().to_multiset());
        },
    }
    tree.preorder_keys().to_multiset_ensures();
    tree.inorder_keys().to_multiset_ensures();
    tree.postorder_keys().to_multiset_ensures();
}

/// The inorder traversal of a search tree is in ascending order.
pub proof fn lemma_inorder_ascending<T: Ord>(tree: Tree<T>)
    requires
        obeys_cmp::<T>(),
        tree.is_search_tree(),
    ensures
        ascending(tree.inorder_keys()),
    decreases tree,
{
    match tree.key {
        None => {},
        Some(k) => {
            let l = Tree::inorder_below(tree.left);
            let r = Tree::inorder_below(tree.right);
            let all = tree.inorder_keys();
            if let Some(left) = tree.left {
                lemma_inorder_ascending(*left);
            }
            if let Some(right) = tree.right {
                lemma_inorder_ascending(*right);
            }
            assert forall|i: int| 0 <= i < l.len() implies below(#[trigger] l[i], k) by {
                lemma_inorder_lists_keys(*tree.left.unwrap(), l[i]);
                assert(l.contains(l[i]));
                assert(Tree::holds_below(tree.left, l[i]));
            }
            assert forall|j: int| 0 <= j < r.len() implies below(k, #[trigger] r[j]) by {
                lemma_inorder_lists_keys(*tree.right.unwrap(), r[j]);
                assert(r.contains(r[j]));
                assert(Tree::holds_below(tree.right, r[j]));
            }
            assert forall|i: int, j: int| 0 <= i < j < all.len() implies below(
                #[trigger] all[i],
                #[trigger] all[j],
            ) by {
                if j < l.len() {
                    assert(all[i] == l[i] && all[j] == l[j]);
                } else if i < l.len() {
                    assert(all[i] == l[i]);
                    if j > l.len() {
                        assert(all[j] == r[j - l.len() - 1]);
                        lemma_below_transitive(l[i], k, r[j - l.len() - 1]);
                    }
                } else if i == l.len() {
                    assert(all[j] == r[j - l.len() - 1]);
                } else {
                    assert(all[i] == r[i - l.len() - 1] && all[j] == r[j - l.len() - 1]);
                }
            }
        },
    }
}


/// After a key has been inserted, the search for it ends at a key that
/// compares equal to it, whatever the tree was.
pub proof fn lemma_insert_then_find<T: Ord>(tree: Tree<T>, key: T)
    requires
        obeys_cmp::<T>(),
    ensures
        tree.with_key(key).reaches(key),
    decreases tree,
{
    lemma_same_reflexive(key);
    let after = tree.with_key(key);
    match tree.key {
        None => {},
        Some(k) => {
            if same(key, k) {
            } else if below(key, k) {
                let grown = Tree::grown(tree.left, key);
                assert(after.left == Some(Box::new(grown)));
                match tree.left {
                    None => {
                        assert(grown.reaches(key));
                    },
                    Some(left) => {
                        lemma_insert_then_find(*left, key);
                    },
                }
            } else {
                let grown = Tree::grown(tree.right, key);
                assert(after.right == Some(Box::new(grown)));
                match tree.right {
                    None => {
                        assert(grown.reaches(key));
                    },
                    Some(right) => {
                        lemma_insert_then_find(*right, key);
                    },
                }
            }
        },
    }
}

} // verus!
