//! A binary search tree without balancing.
//!
//! The tree stands for the sequence of its entries in in-order, which ascends
//! strictly by key, and through it for a finite map.

use crate::data_structures::entries::{
    around, ascending, lemma_entry_in_map, lemma_first_of_around,
    lemma_insert_here, lemma_insert_left, lemma_insert_right, lemma_key_side, lemma_map_none,
    lemma_map_small, lemma_remove_left, lemma_remove_mid_one_side, lemma_remove_mid_successor,
    lemma_remove_right, lemma_removed_absent, lemma_removed_exact, lemma_split, removed, to_map,
};
use crate::order::{clone_is_exact, is_eq, is_gt, is_lt, key_lt, lemma_trichotomy, total_order};
use vstd::prelude::*;

verus! {

/// A node of the tree: an entry and the two subtrees.
#[derive(Debug)]
pub struct BstNode<K, V> {
    pub key: K,
    pub value: V,
    pub left: Option<Box<BstNode<K, V>>>,
    pub right: Option<Box<BstNode<K, V>>>,
}

/// A search tree from keys to values.
#[derive(Debug)]
pub struct Bst<K, V> {
    pub root: Option<Box<BstNode<K, V>>>,
}

impl<K, V> BstNode<K, V> {
    /// The entries of the subtree, as an in-order walk meets them.
    #[verifier::opaque]
    pub open spec fn entries(self) -> Seq<(K, V)>
        decreases self,
    {
        around(
            match self.left {
                Some(l) => l.entries(),
                None => Seq::empty(),
            },
            (self.key, self.value),
            match self.right {
                Some(r) => r.entries(),
                None => Seq::empty(),
            },
        )
    }
}

impl<K, V> BstNode<K, V> {
    /// A node with one entry and no child.
    pub open spec fn single(key: K, value: V) -> Self {
        BstNode { key, value, left: None, right: None }
    }

    /// The entry with the smallest key of the subtree: the one that stands
    /// furthest to the left.
    pub open spec fn first_entry(self) -> (K, V)
        decreases self,
    {
        match self.left {
            Some(l) => l.first_entry(),
            None => (self.key, self.value),
        }
    }
}

impl<K: Ord, V> BstNode<K, V> {
    /// The subtree after `key` went in with `value`: the key goes down to
    /// the left of greater keys and to the right of smaller ones, to a new
    /// leaf or to the node that holds it, whose value it overwrites.
    pub open spec fn inserted(self, key: K, value: V) -> Self
        decreases self,
    {
        if key_lt(key, self.key) {
            BstNode {
                left: Some(
                    Box::new(
                        match self.left {
                            Some(l) => l.inserted(key, value),
                            None => Self::single(key, value),
                        },
                    ),
                ),
                ..self
            }
        } else if key_lt(self.key, key) {
            BstNode {
                right: Some(
                    Box::new(
                        match self.right {
                            Some(r) => r.inserted(key, value),
                            None => Self::single(key, value),
                        },
                    ),
                ),
                ..self
            }
        } else {
            BstNode { value, ..self }
        }
    }

    /// What is left of the subtree after `key` went out. A node with at most
    /// one child leaves its place to that child. A node with two children
    /// takes over the first entry of its right subtree, which then goes out
    /// of the right subtree. A subtree without `key` stays as it is.
    pub open spec fn removed(self, key: K) -> Option<Box<BstNode<K, V>>>
        decreases self,
    {
        if key_lt(key, self.key) {
            Some(
                Box::new(
                    BstNode {
                        left: match self.left {
                            Some(l) => l.removed(key),
                            None => None,
                        },
                        ..self
                    },
                ),
            )
        } else if key_lt(self.key, key) {
            Some(
                Box::new(
                    BstNode {
                        right: match self.right {
                            Some(r) => r.removed(key),
                            None => None,
                        },
                        ..self
                    },
                ),
            )
        } else if self.left is None {
            self.right
        } else if self.right is None {
            self.left
        } else {
            let successor = self.right->0.first_entry();
            Some(
                Box::new(
                    BstNode {
                        key: successor.0,
                        value: successor.1,
                        right: self.right->0.removed(successor.0),
                        ..self
                    },
                ),
            )
        }
    }
}

/// The entries below a link; none below an absent child.
pub open spec fn subtree_entries<K, V>(link: Option<Box<BstNode<K, V>>>) -> Seq<(K, V)> {
    match link {
        Some(n) => n.entries(),
        None => Seq::empty(),
    }
}

/// The entries of a node are those of its left subtree, its own, and those
/// of its right subtree. The parts of an ascending whole ascend.
pub proof fn lemma_bst_node<K: Ord, V>(n: BstNode<K, V>)
    ensures
        n.entries() == around(subtree_entries(n.left), (n.key, n.value), subtree_entries(n.right)),
        n.entries().len() > 0,
        ascending(n.entries()) ==> ascending(subtree_entries(n.left)) && ascending(
            subtree_entries(n.right),
        ),
        ascending(subtree_entries::<K, V>(None)),
        to_map(subtree_entries::<K, V>(None)) == Map::<K, V>::empty(),
{
    reveal(BstNode::entries);
    lemma_map_none::<K, V>();
    lemma_first_of_around(subtree_entries(n.left), (n.key, n.value), subtree_entries(n.right));
    if ascending(n.entries()) {
        lemma_split(subtree_entries(n.left), (n.key, n.value), subtree_entries(n.right));
    }
}

impl<K: Ord, V> View for Bst<K, V> {
    type V = Map<K, V>;

    /// The tree as a map from its keys to their values.
    open spec fn view(&self) -> Map<K, V> {
        to_map(self.in_order())
    }
}

impl<K: Ord, V> Bst<K, V> {
    /// The entries of the tree in in-order.
    pub open spec fn in_order(self) -> Seq<(K, V)> {
        subtree_entries(self.root)
    }

    /// The invariant of the tree: the keys ascend strictly along the
    /// in-order walk.
    pub open spec fn well_formed(self) -> bool {
        ascending(self.in_order())
    }

    /// What `search` may answer for `key`: a clone of the value under `key`,
    /// or nothing where the tree does not hold `key`.
    pub open spec fn found(self, key: K, answer: Option<V>) -> bool where V: Clone {
        match answer {
            Some(v) => self@.contains_key(key) && cloned(self@[key], v),
            None => !self@.contains_key(key),
        }
    }

    /// The empty tree.
    pub fn new() -> (tree: Self)
        ensures
            tree.root is None,
            tree.well_formed(),
            tree@ == Map::<K, V>::empty(),
    {
        proof {
            lemma_map_none::<K, V>();
        }
        Self { root: None }
    }

    /// Puts `key` with `value` into the tree. Where the tree holds `key`
    /// already, `value` takes the place of the value it had.
    pub fn insert(&mut self, key: K, value: V)
        requires
            total_order::<K>(),
            old(self).well_formed(),
        ensures
            final(self).root == Some(
                Box::new(
                    match old(self).root {
                        Some(root) => root.inserted(key, value),
                        None => BstNode::single(key, value),
                    },
                ),
            ),
            final(self).well_formed(),
            final(self)@ == old(self)@.insert(key, value),
    {
        if self.root.is_none() {
            self.root = Some(Box::new(BstNode { key, value, left: None, right: None }));
            proof {
                lemma_bst_node(*self.root->0);
                lemma_map_small((key, value));
            }
            return ;
        }
        if let Some(node) = &mut self.root {
            Self::insert_helper(node, key, value);
        }
    }

    /// Puts `key` with `value` into the subtree of `node`, where the subtree
    /// stands.
    fn insert_helper(node: &mut BstNode<K, V>, key: K, value: V)
        requires
            total_order::<K>(),
            ascending(old(node).entries()),
        ensures
            *final(node) == old(node).inserted(key, value),
            ascending(final(node).entries()),
            to_map(final(node).entries()) == to_map(old(node).entries()).insert(key, value),
        decreases *old(node),
    {
        let ghost before = *node;
        proof {
            lemma_bst_node(before);
            lemma_map_small((key, value));
        }
        if is_lt(&key, &node.key) {
            if let Some(left_node) = &mut node.left {
                Self::insert_helper(left_node, key, value);
            } else {
                node.left = Some(Box::new(BstNode { key, value, left: None, right: None }));
                proof {
                    lemma_bst_node(*node.left->0);
                }
            }
            proof {
                lemma_bst_node(*node);
                lemma_insert_left(
                    subtree_entries(before.left),
                    (before.key, before.value),
                    subtree_entries(before.right),
                    subtree_entries(node.left),
                    key,
                    value,
                );
            }
        } else if is_gt(&key, &node.key) {
            if let Some(right_node) = &mut node.right {
                Self::insert_helper(right_node, key, value);
            } else {
                node.right = Some(Box::new(BstNode { key, value, left: None, right: None }));
                proof {
                    lemma_bst_node(*node.right->0);
                }
            }
            proof {
                lemma_bst_node(*node);
                lemma_insert_right(
                    subtree_entries(before.left),
                    (before.key, before.value),
                    subtree_entries(before.right),
                    subtree_entries(node.right),
                    key,
                    value,
                );
            }
        } else {
            node.value = value;
            proof {
                lemma_trichotomy(key, node.key);
                lemma_bst_node(*node);
                lemma_insert_here(
                    subtree_entries(before.left),
                    (before.key, before.value),
                    subtree_entries(before.right),
                    value,
                );
            }
        }
    }

    /// The value stored under `key`, cloned, if the tree holds `key`.
    pub fn search(&self, key: &K) -> (found: Option<V>) where V: Clone
        requires
            total_order::<K>(),
            self.well_formed(),
        ensures
            self.found(*key, found),
    {
        if let Some(node) = &self.root {
            Self::search_helper(node, key)
        } else {
            proof {
                lemma_map_none::<K, V>();
            }
            None
        }
    }

    /// The value under `key` in the subtree of `node`, cloned.
    fn search_helper(node: &BstNode<K, V>, key: &K) -> (found: Option<V>) where V: Clone
        requires
            total_order::<K>(),
            ascending(node.entries()),
        ensures
            match found {
                Some(v) => to_map(node.entries()).contains_key(*key) && cloned(
                    to_map(node.entries())[*key],
                    v,
                ),
                None => !to_map(node.entries()).contains_key(*key),
            },
        decreases node,
    {
        proof {
            lemma_bst_node(*node);
            lemma_key_side(
                subtree_entries(node.left),
                (node.key, node.value),
                subtree_entries(node.right),
                *key,
            );
            lemma_trichotomy(*key, node.key);
        }
        if is_eq(key, &node.key) {
            return Some(node.value.clone());
        }
        if is_lt(key, &node.key) {
            // the key can only be on the left
            if let Some(left) = &node.left {
                Self::search_helper(left, key)
            } else {
                None
            }
        } else if let Some(right) = &node.right {
            Self::search_helper(right, key)
        } else {
            None
        }
    }

    /// Takes `key` and its value out of the tree. A tree that does not hold
    /// `key` stays as it is.
    ///
    /// A node with two children takes over a clone of the entry that
    /// follows it in order, so a clone of a key must be the key.
    pub fn delete(&mut self, key: &K) where K: Clone, V: Clone
        requires
            total_order::<K>(),
            clone_is_exact::<K>(),
            old(self).well_formed(),
        ensures
            clone_is_exact::<V>() ==> final(self).root == match old(self).root {
                Some(root) => root.removed(*key),
                None => None,
            },
            final(self).well_formed(),
            removed(old(self)@, *key, final(self)@),
            clone_is_exact::<V>() ==> final(self)@ == old(self)@.remove(*key),
            !old(self)@.contains_key(*key) ==> final(self).root == old(self).root,
    {
        if let Some(root) = self.root.take() {
            self.root = Self::delete_helper(root, key);
        } else {
            proof {
                lemma_map_none::<K, V>();
                lemma_removed_absent(old(self)@, *key);
            }
        }
        proof {
            if clone_is_exact::<V>() {
                lemma_removed_exact(old(self)@, *key, self@);
            }
        }
    }

    /// Takes `key` out of the subtree of `node`, if it is there. Returns
    /// what is left of the subtree.
    pub fn delete_helper(node: Box<BstNode<K, V>>, key: &K) -> (res: Option<
        Box<BstNode<K, V>>,
    >) where K: Clone, V: Clone
        requires
            total_order::<K>(),
            clone_is_exact::<K>(),
            ascending(node.entries()),
        ensures
            clone_is_exact::<V>() ==> res == node.removed(*key),
            ascending(subtree_entries(res)),
            removed(to_map(node.entries()), *key, to_map(subtree_entries(res))),
            !to_map(node.entries()).contains_key(*key) ==> res == Some(node),
        decreases node,
    {
        let ghost before = *node;
        let mut node = node;
        let ghost mid = (before.key, before.value);
        proof {
            lemma_bst_node(before);
            lemma_key_side(subtree_entries(before.left), mid, subtree_entries(before.right), *key);
            lemma_removed_absent(to_map(subtree_entries::<K, V>(None)), *key);
        }
        if is_lt(key, &node.key) {
            if let Some(left) = node.left.take() {
                node.left = Self::delete_helper(left, key);
            }
            proof {
                lemma_bst_node(*node);
                lemma_remove_left(
                    subtree_entries(before.left),
                    mid,
                    subtree_entries(before.right),
                    subtree_entries(node.left),
                    *key,
                );
            }
        } else if is_gt(key, &node.key) {
            if let Some(right) = node.right.take() {
                node.right = Self::delete_helper(right, key);
            }
            proof {
                lemma_bst_node(*node);
                lemma_remove_right(
                    subtree_entries(before.left),
                    mid,
                    subtree_entries(before.right),
                    subtree_entries(node.right),
                    *key,
                );
            }
        } else {
            proof {
                lemma_trichotomy(*key, node.key);
                lemma_remove_mid_one_side(
                    subtree_entries(before.left),
                    mid,
                    subtree_entries(before.right),
                );
            }
            // no children
            if node.left.is_none() && node.right.is_none() {
                return None;
            }
            // only one child

            if node.left.is_none() {
                return node.right.take();
            }
            if node.right.is_none() {
                return node.left.take();
            }
            // two children: the in-order successor takes the place of the node

            let right = node.right.take().unwrap();
            let (successor_key, successor_value) = Self::find_min(&right);
            node.key = successor_key;
            node.value = successor_value;
            proof {
                lemma_entry_in_map(right.entries(), 0);
            }
            node.right = Self::delete_helper(right, &node.key);
            proof {
                lemma_bst_node(*node);
                lemma_remove_mid_successor(
                    subtree_entries(before.left),
                    mid,
                    subtree_entries(before.right),
                    (node.key, node.value),
                    subtree_entries(node.right),
                );
            }
        }

        Some(node)
    }

    /// The entry with the smallest key of the subtree, cloned.
    fn find_min(node: &BstNode<K, V>) -> (min: (K, V)) where K: Clone, V: Clone
        ensures
            node.entries().len() > 0,
            node.entries()[0] == node.first_entry(),
            cloned(node.first_entry().0, min.0),
            cloned(node.first_entry().1, min.1),
        decreases node,
    {
        proof {
            lemma_bst_node(*node);
            lemma_first_of_around(
                subtree_entries(node.left),
                (node.key, node.value),
                subtree_entries(node.right),
            );
            if node.left is Some {
                lemma_bst_node(*node.left->0);
            }
        }
        if let Some(left) = &node.left {
            return Self::find_min(left);
        }
        (node.key.clone(), node.value.clone())
    }
}

} // verus!
