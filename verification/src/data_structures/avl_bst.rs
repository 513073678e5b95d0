//! A height-balanced binary search tree (AVL tree).
//!
//! The tree stands for the sequence of its entries in in-order. That sequence
//! ascends strictly by key, so it is also a finite map, the tree's view. Every
//! node caches the height of its subtree, and the heights of the two subtrees
//! of a node differ by at most one.

use crate::data_structures::avl_lemmas::{
    fib, lemma_children, lemma_empty, lemma_fib_monotonic, lemma_inserted, lemma_leaf,
    lemma_lookup, lemma_min_nodes, lemma_rebalanced, lemma_removed, lemma_removed_by_successor,
    lemma_removed_here, lemma_removed_left, lemma_removed_right,
};
use crate::data_structures::entries::{
    around, ascending, lemma_around_assoc, lemma_entry_in_map, lemma_first_of_around,
    lemma_map_len, lemma_removed_absent, lemma_removed_exact, removed, to_map,
};
use crate::order::{clone_is_exact, is_eq, is_gt, is_lt, key_lt, lemma_trichotomy, total_order};
use vstd::prelude::*;

verus! {

/// The link from a parent to a child: the parent owns the child.
pub type NodeRef<K, V> = Box<AVLNode<K, V>>;

/// A node of the tree: an entry, the two subtrees, and the height of the
/// subtree of which the node is the root.
#[derive(Debug)]
pub struct AVLNode<K, V> {
    pub key: K,
    pub value: V,
    pub left: Option<NodeRef<K, V>>,
    pub right: Option<NodeRef<K, V>>,
    pub height: i32,
}

/// A balanced search tree from keys to values.
#[derive(Debug)]
pub struct Avl<K, V> {
    root: Option<NodeRef<K, V>>,
}

/// The larger of two heights.
pub open spec fn higher(a: nat, b: nat) -> nat {
    if a >= b {
        a
    } else {
        b
    }
}

impl<K, V> AVLNode<K, V> {
    /// The entries of the subtree, as an in-order walk meets them.
    #[verifier::opaque]
    pub open spec fn entries(self) -> Seq<(K, V)>
        decreases self,
    {
        around(
            match self.left {
                Some(l) => l.entries(),
                None => Seq::empty(),
            },
            (self.key, self.value),
            match self.right {
                Some(r) => r.entries(),
                None => Seq::empty(),
            },
        )
    }

    /// The number of nodes on the longest path from this node down to a leaf.
    #[verifier::opaque]
    pub open spec fn tree_height(self) -> nat
        decreases self,
    {
        1 + higher(
            match self.left {
                Some(l) => l.tree_height(),
                None => 0,
            },
            match self.right {
                Some(r) => r.tree_height(),
                None => 0,
            },
        )
    }

    /// At every node of the subtree the heights of the two subtrees differ by
    /// at most one.
    #[verifier::opaque]
    pub open spec fn balanced(self) -> bool
        decreases self,
    {
        &&& match self.left {
            Some(l) => l.balanced(),
            None => true,
        }
        &&& match self.right {
            Some(r) => r.balanced(),
            None => true,
        }
        &&& link_height(self.left) <= link_height(self.right) + 1
        &&& link_height(self.right) <= link_height(self.left) + 1
    }

    /// Every node of the subtree holds the height of its subtree in its
    /// `height` field.
    #[verifier::opaque]
    pub open spec fn heights_cached(self) -> bool
        decreases self,
    {
        &&& match self.left {
            Some(l) => l.heights_cached(),
            None => true,
        }
        &&& match self.right {
            Some(r) => r.heights_cached(),
            None => true,
        }
        &&& self.height == self.tree_height()
    }
}

/// The entries below a link; none below an absent child.
pub open spec fn link_entries<K, V>(link: Option<NodeRef<K, V>>) -> Seq<(K, V)> {
    match link {
        Some(n) => n.entries(),
        None => Seq::empty(),
    }
}

/// The height below a link; 0 for an absent child.
pub open spec fn link_height<K, V>(link: Option<NodeRef<K, V>>) -> nat {
    match link {
        Some(n) => n.tree_height(),
        None => 0,
    }
}

/// The subtree below a link is balanced at every node.
pub open spec fn link_balanced<K, V>(link: Option<NodeRef<K, V>>) -> bool {
    match link {
        Some(n) => n.balanced(),
        None => true,
    }
}

/// Every node below a link caches its height.
pub open spec fn link_cached<K, V>(link: Option<NodeRef<K, V>>) -> bool {
    match link {
        Some(n) => n.heights_cached(),
        None => true,
    }
}

/// The height that the node below a link holds in its `height` field; 0 for
/// an absent child.
pub open spec fn cached_height<K, V>(link: Option<NodeRef<K, V>>) -> int {
    match link {
        Some(n) => n.height as int,
        None => 0,
    }
}

impl<K, V> AVLNode<K, V> {
    /// A node with one entry and no child.
    pub open spec fn single(key: K, value: V) -> Self {
        AVLNode { key, value, left: None, right: None, height: 1 }
    }

    /// The left height minus the right height, as the children cache them.
    pub open spec fn balance_factor(self) -> int {
        cached_height(self.left) - cached_height(self.right)
    }

    /// The node with its height taken anew from the heights that its children
    /// cache: one more than the greater of the two.
    pub open spec fn with_height(self) -> Self {
        AVLNode {
            height: (1 + if cached_height(self.left) >= cached_height(self.right) {
                cached_height(self.left)
            } else {
                cached_height(self.right)
            }) as i32,
            ..self
        }
    }

    /// The subtree after a right rotation at its root `y`: the left child `x`
    /// of `y` is the new root, `y` is the right child of `x`, and what was
    /// the right subtree of `x` is the left subtree of `y`. The heights of
    /// `y` and `x` are taken anew, in this order.
    pub open spec fn rotated_right(self) -> Self
        recommends
            self.left is Some,
    {
        let x = *self.left->0;
        AVLNode {
            right: Some(Box::new(AVLNode { left: x.right, ..self }.with_height())),
            ..x
        }.with_height()
    }

    /// The subtree after a left rotation at its root: the mirror image of the
    /// right rotation.
    pub open spec fn rotated_left(self) -> Self
        recommends
            self.right is Some,
    {
        let x = *self.right->0;
        AVLNode {
            left: Some(Box::new(AVLNode { right: x.left, ..self }.with_height())),
            ..x
        }.with_height()
    }

    /// The subtree after a left rotation at the left child of its root and a
    /// right rotation at the root.
    pub open spec fn rotated_left_right(self) -> Self
        recommends
            self.left is Some,
            self.left->0.right is Some,
    {
        AVLNode { left: Some(Box::new(self.left->0.rotated_left())), ..self }.rotated_right()
    }

    /// The subtree after a right rotation at the right child of its root and
    /// a left rotation at the root.
    pub open spec fn rotated_right_left(self) -> Self
        recommends
            self.right is Some,
            self.right->0.left is Some,
    {
        AVLNode { right: Some(Box::new(self.right->0.rotated_right())), ..self }.rotated_left()
    }

    /// The subtree with the height of its root taken anew and its balance
    /// restored at the root. A root whose left subtree is higher by more than
    /// one is rotated to the right, after a left rotation at its left child
    /// where that child leans to the right. A root whose right subtree is
    /// higher by more than one is treated in the mirrored way.
    #[verifier::opaque]
    pub open spec fn rebalanced(self) -> Self {
        let node = self.with_height();
        if node.balance_factor() > 1 {
            if node.left->0.balance_factor() >= 0 {
                node.rotated_right()
            } else {
                node.rotated_left_right()
            }
        } else if node.balance_factor() < -1 {
            if node.right->0.balance_factor() <= 0 {
                node.rotated_left()
            } else {
                node.rotated_right_left()
            }
        } else {
            node
        }
    }

    /// The entry with the smallest key of the subtree: the one that stands
    /// furthest to the left.
    pub open spec fn first_entry(self) -> (K, V)
        decreases self,
    {
        match self.left {
            Some(l) => l.first_entry(),
            None => (self.key, self.value),
        }
    }
}

impl<K: Ord, V> AVLNode<K, V> {
    /// The subtree after `key` went in with `value`: the key goes down to
    /// the left of greater keys and to the right of smaller ones, to a new
    /// leaf or to the node that holds it, whose value it overwrites. On the
    /// way back up every node on the path is rebalanced.
    pub open spec fn inserted(self, key: K, value: V) -> Self
        decreases self,
    {
        if key_lt(key, self.key) {
            AVLNode {
                left: Some(
                    Box::new(
                        match self.left {
                            Some(l) => l.inserted(key, value),
                            None => Self::single(key, value),
                        },
                    ),
                ),
                ..self
            }.rebalanced()
        } else if key_lt(self.key, key) {
            AVLNode {
                right: Some(
                    Box::new(
                        match self.right {
                            Some(r) => r.inserted(key, value),
                            None => Self::single(key, value),
                        },
                    ),
                ),
                ..self
            }.rebalanced()
        } else {
            AVLNode { value, ..self }.rebalanced()
        }
    }

    /// What is left of the subtree after `key` went out. A node with at most
    /// one child leaves its place to that child. A node with two children
    /// takes over the first entry of its right subtree, which then goes out
    /// of the right subtree. On the way back up every node on the path is
    /// rebalanced. A subtree without `key` stays as it is.
    pub open spec fn removed(self, key: K) -> Option<NodeRef<K, V>>
        decreases self,
    {
        if key_lt(key, self.key) {
            Some(
                Box::new(
                    AVLNode {
                        left: match self.left {
                            Some(l) => l.removed(key),
                            None => None,
                        },
                        ..self
                    }.rebalanced(),
                ),
            )
        } else if key_lt(self.key, key) {
            Some(
                Box::new(
                    AVLNode {
                        right: match self.right {
                            Some(r) => r.removed(key),
                            None => None,
                        },
                        ..self
                    }.rebalanced(),
                ),
            )
        } else if self.left is None {
            self.right
        } else if self.right is None {
            self.left
        } else {
            let successor = self.right->0.first_entry();
            Some(
                Box::new(
                    AVLNode {
                        key: successor.0,
                        value: successor.1,
                        right: self.right->0.removed(successor.0),
                        ..self
                    }.rebalanced(),
                ),
            )
        }
    }
}

/// The definitions at one node, spelled out over its two links.
pub proof fn lemma_node<K, V>(n: AVLNode<K, V>)
    ensures
        n.entries() == around(link_entries(n.left), (n.key, n.value), link_entries(n.right)),
        n.tree_height() == 1 + higher(link_height(n.left), link_height(n.right)),
        n.balanced() <==> {
            &&& link_balanced(n.left)
            &&& link_balanced(n.right)
            &&& link_height(n.left) <= link_height(n.right) + 1
            &&& link_height(n.right) <= link_height(n.left) + 1
        },
        n.heights_cached() <==> {
            &&& link_cached(n.left)
            &&& link_cached(n.right)
            &&& n.height == n.tree_height()
        },
{
    reveal(AVLNode::entries);
    reveal(AVLNode::tree_height);
    reveal(AVLNode::balanced);
    reveal(AVLNode::heights_cached);
}

/// `lemma_node` for the node below a link, if there is one.
pub proof fn lemma_link<K, V>(link: Option<NodeRef<K, V>>)
    ensures
        link matches Some(n) ==> {
            &&& n.entries() == around(link_entries(n.left), (n.key, n.value), link_entries(n.right))
            &&& n.tree_height() == 1 + higher(link_height(n.left), link_height(n.right))
            &&& n.balanced() <==> {
                &&& link_balanced(n.left)
                &&& link_balanced(n.right)
                &&& link_height(n.left) <= link_height(n.right) + 1
                &&& link_height(n.right) <= link_height(n.left) + 1
            }
            &&& n.heights_cached() <==> {
                &&& link_cached(n.left)
                &&& link_cached(n.right)
                &&& n.height == n.tree_height()
            }
        },
{
    if link is Some {
        lemma_node(*link->0);
    }
}

/// What holds of every subtree of an AVL tree: the keys ascend in in-order,
/// every node is balanced, and every node caches its height.
pub open spec fn link_wf<K: Ord, V>(link: Option<NodeRef<K, V>>) -> bool {
    &&& ascending(link_entries(link))
    &&& link_balanced(link)
    &&& link_cached(link)
}

/// What is below a link after `key` went in with `value`.
pub open spec fn link_inserted<K: Ord, V>(link: Option<NodeRef<K, V>>, key: K, value: V) -> Option<
    NodeRef<K, V>,
> {
    Some(
        Box::new(
            match link {
                Some(n) => n.inserted(key, value),
                None => AVLNode::single(key, value),
            },
        ),
    )
}

/// What is below a link after `key` went out.
pub open spec fn link_removed<K: Ord, V>(link: Option<NodeRef<K, V>>, key: K) -> Option<
    NodeRef<K, V>,
> {
    match link {
        Some(n) => n.removed(key),
        None => None,
    }
}

/// One change of a tree: an insertion or a removal.
pub enum Change<K, V> {
    Insert(K, V),
    Delete(K),
}

/// What is below a link after the changes, one after the other.
pub open spec fn link_changed<K: Ord, V>(
    link: Option<NodeRef<K, V>>,
    changes: Seq<Change<K, V>>,
) -> Option<NodeRef<K, V>>
    decreases changes.len(),
{
    if changes.len() == 0 {
        link
    } else {
        match changes.last() {
            Change::Insert(key, value) => link_inserted(
                link_changed(link, changes.drop_last()),
                key,
                value,
            ),
            Change::Delete(key) => link_removed(link_changed(link, changes.drop_last()), key),
        }
    }
}

impl<K: Ord + Clone, V: Clone> View for Avl<K, V> {
    type V = Map<K, V>;

    /// The tree as a map from its keys to their values.
    open spec fn view(&self) -> Map<K, V> {
        to_map(self.in_order())
    }
}

impl<K: Ord + Clone, V: Clone> Default for Avl<K, V> {
    /// The empty tree.
    fn default() -> (tree: Self)
        ensures
            tree.tree() is None,
    {
        Self { root: None }
    }
}

impl<K: Ord + Clone, V: Clone> Avl<K, V> {
    /// The root link.
    pub closed spec fn tree(self) -> Option<NodeRef<K, V>> {
        self.root
    }

    /// The entries of the tree in in-order.
    pub open spec fn in_order(self) -> Seq<(K, V)> {
        link_entries(self.tree())
    }

    /// The height of the tree; 0 when it is empty.
    pub open spec fn height(self) -> nat {
        link_height(self.tree())
    }

    /// The number of nodes.
    pub open spec fn len(self) -> nat {
        self.in_order().len()
    }

    /// The keys ascend strictly along the in-order walk.
    pub open spec fn ordered(self) -> bool {
        ascending(self.in_order())
    }

    /// At every node the heights of the two subtrees differ by at most one.
    pub open spec fn balanced(self) -> bool {
        link_balanced(self.tree())
    }

    /// The invariant of the tree: ordered, balanced, heights cached.
    pub open spec fn well_formed(self) -> bool {
        link_wf(self.tree())
    }

    /// The empty tree.
    pub fn new() -> (tree: Self)
        ensures
            tree.tree() is None,
            tree.well_formed(),
            tree.ordered(),
            tree.balanced(),
            tree@ == Map::<K, V>::empty(),
            tree.height() == 0,
            tree.len() == 0,
    {
        proof {
            lemma_empty::<K, V>();
        }
        Self { root: None }
    }

    /// The value stored under `key`, cloned, if the tree holds `key`.
    pub fn search(&self, key: &K) -> (found: Option<V>)
        requires
            total_order::<K>(),
            self.ordered(),
        ensures
            self.found(*key, found),
    {
        if let Some(node) = &self.root {
            Self::search_helper(node, key)
        } else {
            proof {
                lemma_empty::<K, V>();
            }
            None
        }
    }

    /// What `search` may answer for `key`: a clone of the value under `key`,
    /// or nothing where the tree does not hold `key`.
    pub open spec fn found(self, key: K, answer: Option<V>) -> bool {
        match answer {
            Some(v) => self@.contains_key(key) && cloned(self@[key], v),
            None => !self@.contains_key(key),
        }
    }

    /// Takes `key` and its value out of the tree. A tree that does not hold
    /// `key` stays as it is. The removal returns nothing, whether the tree
    /// held the key or not.
    ///
    /// A node with two children takes over a clone of the entry that
    /// follows it in order, so a clone of a key must be the key.
    pub fn delete(&mut self, key: &K)
        requires
            total_order::<K>(),
            clone_is_exact::<K>(),
            old(self).well_formed(),
        ensures
            clone_is_exact::<V>() ==> final(self).tree() == link_removed(old(self).tree(), *key),
            final(self).well_formed(),
            final(self).ordered(),
            final(self).balanced(),
            removed(old(self)@, *key, final(self)@),
            clone_is_exact::<V>() ==> final(self)@ == old(self)@.remove(*key),
            !old(self)@.contains_key(*key) ==> final(self).tree() == old(self).tree(),
            final(self).height() == old(self).height() || final(self).height() + 1 == old(self).height(),
    {
        if let Some(root) = self.root.take() {
            self.root = Self::delete_helper(root, key);
        } else {
            proof {
                lemma_empty::<K, V>();
                lemma_removed_absent(old(self)@, *key);
            }
        }
        proof {
            if clone_is_exact::<V>() {
                lemma_removed_exact(old(self)@, *key, self@);
            }
        }
    }

    /// Does the tree hold no entry?
    pub fn is_empty(&self) -> (empty: bool)
        ensures
            empty == (self.tree() is None),
            empty == (self.len() == 0),
    {
        proof {
            lemma_link(self.root);
            if self.root is Some {
                lemma_first_of_around(
                    link_entries(self.root->0.left),
                    (self.root->0.key, self.root->0.value),
                    link_entries(self.root->0.right),
                );
            }
        }
        self.root.is_none()
    }

    /// Does the tree hold `key`?
    pub fn contains(&self, key: &K) -> (held: bool)
        requires
            total_order::<K>(),
            self.ordered(),
        ensures
            held == self@.contains_key(*key),
    {
        self.search(key).is_some()
    }

    /// The root node, if the tree is not empty.
    pub fn root(&self) -> (node: Option<&AVLNode<K, V>>)
        ensures
            match node {
                Some(n) => self.tree() == Some(Box::new(*n)),
                None => self.tree() is None,
            },
    {
        match &self.root {
            Some(n) => Some(&**n),
            None => None,
        }
    }

    /// Puts `key` with `value` into the tree. Where the tree holds `key`
    /// already, `value` takes the place of the value it had, and the tree
    /// keeps its shape. The insertion returns nothing: a value that gives
    /// way is dropped.
    ///
    /// The height is kept in an `i32`, so the tree must not be as high as
    /// the greatest `i32` before a key goes in.
    pub fn insert(&mut self, key: K, value: V)
        requires
            total_order::<K>(),
            old(self).well_formed(),
            old(self).height() < i32::MAX,
        ensures
            final(self).tree() == link_inserted(old(self).tree(), key, value),
            final(self).well_formed(),
            final(self).ordered(),
            final(self).balanced(),
            final(self)@ == old(self)@.insert(key, value),
            final(self).height() == old(self).height() || final(self).height() == old(self).height() + 1,
            old(self)@.contains_key(key) ==> final(self).height() == old(self).height(),
    {
        if let Some(root) = self.root.take() {
            self.root = Some(Self::insert_helper(root, key, value));
        } else {
            self.root = Some(Box::new(AVLNode { key, value, left: None, right: None, height: 1 }));
            proof {
                lemma_leaf(*self.root->0);
                lemma_empty::<K, V>();
            }
        }
    }

    /// The height that the node below the link caches; 0 for an absent child.
    fn get_height(node: &Option<NodeRef<K, V>>) -> (h: i32)
        ensures
            h == match *node {
                Some(n) => n.height,
                None => 0,
            },
    {
        match node {
            Some(n) => n.height,
            None => 0,
        }
    }

    /// Takes the height of the node anew from the heights that its children
    /// cache.
    fn update_height(node: &mut AVLNode<K, V>)
        requires
            link_cached(old(node).left),
            link_cached(old(node).right),
            old(node).tree_height() <= i32::MAX,
        ensures
            *final(node) == old(node).with_height(),
            final(node).height == old(node).tree_height(),
            final(node).heights_cached(),
            final(node).tree_height() == old(node).tree_height(),
            final(node).entries() == old(node).entries(),
            final(node).balanced() == old(node).balanced(),
    {
        proof {
            lemma_node(*node);
            lemma_link(node.left);
            lemma_link(node.right);
        }
        let left_height = Self::get_height(&node.left);
        let right_height = Self::get_height(&node.right);
        node.height = 1 + if left_height >= right_height {
            left_height
        } else {
            right_height
        };
        proof {
            lemma_node(*node);
        }
    }

    /// Right rotation at `y`: its left child `x` becomes the root of the
    /// subtree, `y` becomes the right child of `x`, and the right subtree of
    /// `x` becomes the left subtree of `y`.
    fn rotate_right(y: NodeRef<K, V>) -> (x: NodeRef<K, V>)
        requires
            y.left is Some,
            link_cached(y.left),
            link_cached(y.right),
            higher(
                link_height(y.left->0.left),
                1 + higher(link_height(y.left->0.right), link_height(y.right)),
            ) < i32::MAX,
        ensures
            *x == y.rotated_right(),
            x.entries() == y.entries(),
            x.heights_cached(),
    {
        let ghost before = *y;
        let mut y = y;
        let mut x = y.left.take().unwrap();
        let b = x.right.take();
        y.left = b;
        proof {
            lemma_node(before);
            lemma_node(*before.left->0);
            lemma_node(*y);
        }
        Self::update_height(&mut y);
        proof {
            lemma_node(*y);
            lemma_around_assoc(
                link_entries(x.left),
                (x.key, x.value),
                link_entries(y.left),
                (y.key, y.value),
                link_entries(y.right),
            );
        }
        x.right = Some(y);
        proof {
            lemma_node(*x);
        }
        Self::update_height(&mut x);
        x
    }

    /// Left rotation at `y`: the mirror image of the right rotation.
    fn rotate_left(y: NodeRef<K, V>) -> (x: NodeRef<K, V>)
        requires
            y.right is Some,
            link_cached(y.left),
            link_cached(y.right),
            higher(
                1 + higher(link_height(y.left), link_height(y.right->0.left)),
                link_height(y.right->0.right),
            ) < i32::MAX,
        ensures
            *x == y.rotated_left(),
            x.entries() == y.entries(),
            x.heights_cached(),
    {
        let ghost before = *y;
        let mut y = y;
        let mut x = y.right.take().unwrap();
        let b = x.left.take();
        y.right = b;
        proof {
            lemma_node(before);
            lemma_node(*before.right->0);
            lemma_node(*y);
        }
        Self::update_height(&mut y);
        proof {
            lemma_node(*y);
            lemma_around_assoc(
                link_entries(y.left),
                (y.key, y.value),
                link_entries(y.right),
                (x.key, x.value),
                link_entries(x.right),
            );
        }
        x.left = Some(y);
        proof {
            lemma_node(*x);
        }
        Self::update_height(&mut x);
        x
    }

    /// Left rotation at the left child of `z`, then right rotation at `z`.
    fn rotate_left_right(z: NodeRef<K, V>) -> (t: NodeRef<K, V>)
        requires
            z.left is Some,
            z.left->0.right is Some,
            link_cached(z.left),
            link_cached(z.right),
            1 + higher(link_height(z.left->0.left), link_height(z.left->0.right->0.left)) < i32::MAX,
            1 + higher(link_height(z.left->0.right->0.right), link_height(z.right)) < i32::MAX,
        ensures
            *t == z.rotated_left_right(),
            t.entries() == z.entries(),
            t.heights_cached(),
    {
        let ghost before = *z;
        let mut z = z;
        let x = z.left.take().unwrap();
        proof {
            lemma_node(before);
            lemma_node(*x);
            lemma_node(*x.right->0);
        }
        let rotated_left = Self::rotate_left(x);
        z.left = Some(rotated_left);
        proof {
            lemma_node(*z);
            lemma_node(*rotated_left);
            lemma_node(*rotated_left.left->0);
        }
        Self::rotate_right(z)
    }

    /// Right rotation at the right child of `z`, then left rotation at `z`.
    fn rotate_right_left(z: NodeRef<K, V>) -> (t: NodeRef<K, V>)
        requires
            z.right is Some,
            z.right->0.left is Some,
            link_cached(z.left),
            link_cached(z.right),
            1 + higher(link_height(z.right->0.left->0.right), link_height(z.right->0.right)) < i32::MAX,
            1 + higher(link_height(z.left), link_height(z.right->0.left->0.left)) < i32::MAX,
        ensures
            *t == z.rotated_right_left(),
            t.entries() == z.entries(),
            t.heights_cached(),
    {
        let ghost before = *z;
        let mut z = z;
        let x = z.right.take().unwrap();
        proof {
            lemma_node(before);
            lemma_node(*x);
            lemma_node(*x.left->0);
        }
        let rotated_right = Self::rotate_right(x);
        z.right = Some(rotated_right);
        proof {
            lemma_node(*z);
            lemma_node(*rotated_right);
            lemma_node(*rotated_right.right->0);
        }
        Self::rotate_left(z)
    }

    /// Puts `key` with `value` into the subtree of `node` and restores the
    /// balance on the way back up. Returns the root of the subtree.
    fn insert_helper(node: NodeRef<K, V>, key: K, value: V) -> (res: NodeRef<K, V>)
        requires
            total_order::<K>(),
            link_wf(Some(node)),
            node.tree_height() < i32::MAX,
        ensures
            *res == node.inserted(key, value),
            link_wf(Some(res)),
            to_map(res.entries()) == to_map(node.entries()).insert(key, value),
            res.tree_height() == node.tree_height() || res.tree_height() == node.tree_height() + 1,
            to_map(node.entries()).contains_key(key) ==> res.tree_height() == node.tree_height(),
        decreases node,
    {
        let ghost before = *node;
        let mut node = node;
        proof {
            reveal(AVLNode::rebalanced);
            lemma_inserted(before, key, value);
            lemma_node(before);
            lemma_children(before);
        }
        if is_lt(&key, &node.key) {
            if node.left.is_some() {
                let left = node.left.take().unwrap();
                node.left = Some(Self::insert_helper(left, key, value));
            } else {
                node.left = Some(
                    Box::new(AVLNode { key, value, left: None, right: None, height: 1 }),
                );
                proof {
                    lemma_leaf(*node.left->0);
                }
            }
        } else if is_gt(&key, &node.key) {
            if node.right.is_some() {
                let right = node.right.take().unwrap();
                node.right = Some(Self::insert_helper(right, key, value));
            } else {
                node.right = Some(
                    Box::new(AVLNode { key, value, left: None, right: None, height: 1 }),
                );
                proof {
                    lemma_leaf(*node.right->0);
                }
            }
        } else {
            node.value = value;
            proof {
                lemma_trichotomy(key, node.key);
            }
        }
        proof {
            lemma_node(*node);
        }
        Self::update_height(&mut node);
        let ghost grown = *node;
        proof {
            lemma_node(grown);
        }
        let balance_factor = Self::get_balance_factor(&node);

        if balance_factor > 1 {
            proof {
                lemma_node(*node.left->0);
            }
            let left_balance = Self::get_balance_factor(node.left.as_ref().unwrap());

            if left_balance >= 0 {
                return Self::rotate_right(node);
            }
            proof {
                lemma_node(*node.left->0.right->0);
            }
            return Self::rotate_left_right(node);
        }
        if balance_factor < -1 {
            proof {
                lemma_node(*node.right->0);
            }
            let right_balance = Self::get_balance_factor(node.right.as_ref().unwrap());
            if right_balance <= 0 {
                return Self::rotate_left(node);
            }
            proof {
                lemma_node(*node.right->0.left->0);
            }
            return Self::rotate_right_left(node);
        }
        node
    }

    /// The value under `key` in the subtree of `node`, cloned: the search goes
    /// to the left of greater keys and to the right of smaller ones.
    fn search_helper(node: &AVLNode<K, V>, key: &K) -> (found: Option<V>)
        requires
            total_order::<K>(),
            ascending(node.entries()),
        ensures
            match found {
                Some(v) => to_map(node.entries()).contains_key(*key) && cloned(
                    to_map(node.entries())[*key],
                    v,
                ),
                None => !to_map(node.entries()).contains_key(*key),
            },
        decreases node,
    {
        proof {
            lemma_lookup(*node, *key);
            lemma_trichotomy(*key, node.key);
        }
        if is_eq(key, &node.key) {
            return Some(node.value.clone());
        }
        if is_lt(key, &node.key) {
            if let Some(left_node) = &node.left {
                Self::search_helper(left_node, key)
            } else {
                None
            }
        } else if let Some(right_node) = &node.right {
            Self::search_helper(right_node, key)
        } else {
            None
        }
    }

    /// The entry with the smallest key of the subtree, cloned.
    fn find_min(node: &AVLNode<K, V>) -> (min: (K, V))
        ensures
            node.entries().len() > 0,
            node.entries()[0] == node.first_entry(),
            cloned(node.first_entry().0, min.0),
            cloned(node.first_entry().1, min.1),
        decreases node,
    {
        proof {
            lemma_node(*node);
            lemma_first_of_around(
                link_entries(node.left),
                (node.key, node.value),
                link_entries(node.right),
            );
        }
        if let Some(left) = &node.left {
            return Self::find_min(left);
        }
        (node.key.clone(), node.value.clone())
    }

    /// Takes `key` out of the subtree of `node`, if it is there, and
    /// restores the balance on the way back up. Returns what is left.
    fn delete_helper(node: NodeRef<K, V>, key: &K) -> (res: Option<NodeRef<K, V>>)
        requires
            total_order::<K>(),
            clone_is_exact::<K>(),
            link_wf(Some(node)),
        ensures
            clone_is_exact::<V>() ==> res == node.removed(*key),
            link_wf(res),
            removed(to_map(node.entries()), *key, to_map(link_entries(res))),
            link_height(res) == node.tree_height() || link_height(res) + 1 == node.tree_height(),
            !to_map(node.entries()).contains_key(*key) ==> res == Some(node),
        decreases node,
    {
        let ghost before = *node;
        let mut node = node;
        proof {
            reveal(AVLNode::rebalanced);
            lemma_node(before);
            lemma_children(before);
            lemma_link(before.left);
            lemma_link(before.right);
            lemma_lookup(before, *key);
            lemma_removed_absent(to_map(link_entries::<K, V>(None)), *key);
        }
        if is_lt(key, &node.key) {
            if let Some(left) = node.left.take() {
                node.left = Self::delete_helper(left, key);
            }
            proof {
                lemma_removed_left(before, *node, *key);
            }
        } else if is_gt(key, &node.key) {
            if let Some(right) = node.right.take() {
                node.right = Self::delete_helper(right, key);
            }
            proof {
                lemma_removed_right(before, *node, *key);
            }
        } else {
            proof {
                lemma_trichotomy(*key, node.key);
                lemma_removed_here(before);
            }
            // no children
            if node.left.is_none() && node.right.is_none() {
                return None;
            }
            // only one child
            if node.left.is_none() {
                return node.right.take();
            }
            if node.right.is_none() {
                return node.left.take();
            }
            // two children: the in-order successor takes the place of the node
            let right = node.right.take().unwrap();

            let (successor_key, successor_value) = Self::find_min(&right);
            node.key = successor_key;
            node.value = successor_value;
            proof {
                lemma_lookup(*right, node.key);
                lemma_node(*right);
                lemma_first_of_around(
                    link_entries(right.left),
                    (right.key, right.value),
                    link_entries(right.right),
                );
                lemma_entry_in_map(right.entries(), 0);
            }
            node.right = Self::delete_helper(right, &node.key);
            proof {
                lemma_removed_by_successor(before, *node);
            }
        }
        proof {
            lemma_node(*node);
            lemma_link(node.left);
            lemma_link(node.right);
            lemma_rebalanced(*node);
        }
        Self::update_height(&mut node);
        proof {
            lemma_node(*node);
        }
        let balance_factor = Self::get_balance_factor(&node);

        if balance_factor > 1 {
            proof {
                lemma_node(*node.left->0);
            }
            let left_balance = Self::get_balance_factor(node.left.as_ref().unwrap());

            if left_balance >= 0 {
                return Some(Self::rotate_right(node));
            }
            proof {
                lemma_node(*node.left->0.right->0);
            }
            return Some(Self::rotate_left_right(node));
        }
        if balance_factor < -1 {
            proof {
                lemma_node(*node.right->0);
            }
            let right_balance = Self::get_balance_factor(node.right.as_ref().unwrap());
            if right_balance <= 0 {
                return Some(Self::rotate_left(node));
            }
            proof {
                lemma_node(*node.right->0.left->0);
            }
            return Some(Self::rotate_right_left(node));
        }
        Some(node)
    }

    /// The height of the left subtree minus the height of the right one.
    fn get_balance_factor(node: &AVLNode<K, V>) -> (b: i32)
        requires
            link_cached(node.left),
            link_cached(node.right),
        ensures
            b == node.balance_factor(),
            b == link_height(node.left) - link_height(node.right),
    {
        proof {
            lemma_link(node.left);
            lemma_link(node.right);
        }
        Self::get_height(&node.left) - Self::get_height(&node.right)
    }
}

impl<K: Ord + Clone, V: Clone> Avl<K, V> {
    /// The height of a balanced tree is logarithmic in the number of its
    /// nodes: a tree of height `h` has at least `fib(h + 2) - 1` nodes. As
    /// `fib` grows like the powers of the golden ratio, the height of a tree
    /// of `n` nodes stays below 1.4405 times the binary logarithm of `n + 2`.
    pub proof fn lemma_height_bound(self)
        requires
            self.balanced(),
        ensures
            fib(self.height() + 2) <= self.len() + 1,
    {
        if self.tree() is Some {
            lemma_min_nodes(*self.tree()->0);
        } else {
            assert(fib(2) == 1) by {
                reveal_with_fuel(fib, 3);
            }
        }
    }

    /// A balanced tree with fewer than `fib(h + 3) - 1` nodes is at most `h`
    /// high.
    pub proof fn lemma_height_at_most(self, h: nat)
        requires
            self.balanced(),
            self.len() + 1 < fib(h + 3),
        ensures
            self.height() <= h,
    {
        self.lemma_height_bound();
        if self.height() > h {
            lemma_fib_monotonic(h + 3, self.height() + 2);
        }
    }

    /// Whatever insertions and removals a tree has seen, its keys ascend
    /// strictly in in-order, the heights of the two subtrees of each of its
    /// nodes differ by one at most, and each of its nodes caches its height.
    /// So its height is logarithmic in the number of its nodes.
    ///
    /// The changes are so few that the height, which grows by one at most
    /// with each of them, stays an `i32`.
    pub proof fn lemma_every_state(changes: Seq<Change<K, V>>)
        requires
            total_order::<K>(),
            changes.len() < i32::MAX,
        ensures
            ascending(link_entries(link_changed(None, changes))),
            link_balanced(link_changed(None, changes)),
            link_cached(link_changed(None, changes)),
            link_height(link_changed(None, changes)) <= changes.len(),
            fib(link_height(link_changed(None, changes)) + 2) <= link_entries(
                link_changed(None, changes),
            ).len() + 1,
        decreases changes.len(),
    {
        lemma_empty::<K, V>();
        if changes.len() > 0 {
            let earlier = link_changed(None, changes.drop_last());
            Self::lemma_every_state(changes.drop_last());
            match changes.last() {
                Change::Insert(key, value) => {
                    if earlier is Some {
                        lemma_inserted(*earlier->0, key, value);
                    } else {
                        lemma_leaf(AVLNode::single(key, value));
                    }
                },
                Change::Delete(key) => {
                    if earlier is Some {
                        lemma_removed(*earlier->0, key);
                    }
                },
            }
        }
        let now = link_changed(None, changes);
        if now is Some {
            lemma_min_nodes(*now->0);
        } else {
            assert(fib(2) == 1) by {
                reveal_with_fuel(fib, 3);
            }
        }
    }

    /// An ordered tree has one node for each key of its view.
    pub proof fn lemma_len(self)
        requires
            total_order::<K>(),
            self.ordered(),
        ensures
            self@.dom().finite(),
            self@.dom().len() == self.len(),
    {
        lemma_map_len(self.in_order());
    }

    /// After `key` went in with `value`, a search for `key` answers with
    /// (a clone of) `value`.
    pub proof fn lemma_insert_then_search(self, after: Self, key: K, value: V, answer: Option<V>)
        requires
            after@ == self@.insert(key, value),
            after.found(key, answer),
        ensures
            answer matches Some(v) && cloned(value, v),
    {
    }

    /// After `key` was taken out, a search for `key` finds nothing.
    pub proof fn lemma_delete_then_search(self, after: Self, key: K, answer: Option<V>)
        requires
            removed(self@, key, after@),
            after.found(key, answer),
        ensures
            answer is None,
    {
    }

    /// After `key` went in twice, first with `first` and then with `second`,
    /// the tree is what it would be had `key` gone in once with `second`: it
    /// holds `key` once, with `second`, and the second insertion added no
    /// node.
    pub proof fn lemma_insert_twice(self, once: Self, twice: Self, key: K, first: V, second: V)
        requires
            total_order::<K>(),
            once.ordered(),
            twice.ordered(),
            once@ == self@.insert(key, first),
            twice@ == once@.insert(key, second),
        ensures
            twice@ == self@.insert(key, second),
            twice@[key] == second,
            twice.len() == once.len(),
    {
        once.lemma_len();
        twice.lemma_len();
        assert(twice@ =~= self@.insert(key, second));
        assert(twice@.dom() =~= once@.dom());
    }
}

} // verus!
