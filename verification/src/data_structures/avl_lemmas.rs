//! Why the operations of the balanced tree keep its invariant: what an
//! insertion or a removal below a node means for the entries of the node, and
//! what a rotation means for the heights.

use crate::data_structures::avl_bst::{
    higher, lemma_link, lemma_node, link_balanced, link_cached, link_entries, link_height, link_wf,
    AVLNode,
};
use crate::data_structures::entries::{
    ascending, lemma_around_assoc, lemma_entry_in_map, lemma_first_of_around, lemma_insert_here, lemma_insert_left,
    lemma_insert_right, lemma_key_side, lemma_map_none, lemma_map_small, lemma_remove_left,
    lemma_remove_mid_one_side, lemma_remove_mid_successor, lemma_remove_right, lemma_split,
    removed, to_map,
};
use crate::data_structures::entries::lemma_removed_absent;
use crate::order::{key_lt, lemma_trichotomy, total_order};
use vstd::prelude::*;

verus! {

/// The subtrees of an ordered subtree are ordered, and so is every subtree
/// of a well-formed one well-formed.
pub proof fn lemma_children<K: Ord, V>(n: AVLNode<K, V>)
    requires
        ascending(n.entries()),
    ensures
        ascending(link_entries(n.left)),
        ascending(link_entries(n.right)),
        link_wf(Some(Box::new(n))) ==> link_wf(n.left) && link_wf(n.right),
{
    lemma_node(n);
    lemma_split(link_entries(n.left), (n.key, n.value), link_entries(n.right));
}

/// A smaller key went into the left subtree of `before`: what that means
/// for the whole subtree.
pub proof fn lemma_inserted_left<K: Ord, V>(
    before: AVLNode<K, V>,
    after: AVLNode<K, V>,
    key: K,
    value: V,
)
    requires
        total_order::<K>(),
        ascending(before.entries()),
        key_lt(key, before.key),
        after.key == before.key,
        after.value == before.value,
        after.right == before.right,
        ascending(link_entries(after.left)),
        to_map(link_entries(after.left)) == to_map(link_entries(before.left)).insert(key, value),
    ensures
        ascending(after.entries()),
        ascending(link_entries(before.right)),
        to_map(after.entries()) == to_map(before.entries()).insert(key, value),
        to_map(before.entries()).contains_key(key) <==> to_map(
            link_entries(before.left),
        ).contains_key(key),
{
    let mid = (before.key, before.value);
    lemma_node(before);
    lemma_node(after);
    lemma_split(link_entries(before.left), mid, link_entries(before.right));
    lemma_key_side(link_entries(before.left), mid, link_entries(before.right), key);
    lemma_insert_left(
        link_entries(before.left),
        mid,
        link_entries(before.right),
        link_entries(after.left),
        key,
        value,
    );
}

/// A greater key went into the right subtree of `before`.
pub proof fn lemma_inserted_right<K: Ord, V>(
    before: AVLNode<K, V>,
    after: AVLNode<K, V>,
    key: K,
    value: V,
)
    requires
        total_order::<K>(),
        ascending(before.entries()),
        key_lt(before.key, key),
        after.key == before.key,
        after.value == before.value,
        after.left == before.left,
        ascending(link_entries(after.right)),
        to_map(link_entries(after.right)) == to_map(link_entries(before.right)).insert(key, value),
    ensures
        ascending(after.entries()),
        ascending(link_entries(before.left)),
        to_map(after.entries()) == to_map(before.entries()).insert(key, value),
        to_map(before.entries()).contains_key(key) <==> to_map(
            link_entries(before.right),
        ).contains_key(key),
{
    let mid = (before.key, before.value);
    lemma_node(before);
    lemma_node(after);
    lemma_split(link_entries(before.left), mid, link_entries(before.right));
    lemma_key_side(link_entries(before.left), mid, link_entries(before.right), key);
    lemma_insert_right(
        link_entries(before.left),
        mid,
        link_entries(before.right),
        link_entries(after.right),
        key,
        value,
    );
}

/// The node `before` got a new value.
pub proof fn lemma_inserted_here<K: Ord, V>(before: AVLNode<K, V>, after: AVLNode<K, V>, value: V)
    requires
        total_order::<K>(),
        ascending(before.entries()),
        after.key == before.key,
        after.value == value,
        after.left == before.left,
        after.right == before.right,
    ensures
        ascending(after.entries()),
        ascending(link_entries(before.left)),
        ascending(link_entries(before.right)),
        to_map(after.entries()) == to_map(before.entries()).insert(before.key, value),
        to_map(before.entries()).contains_key(before.key),
{
    let mid = (before.key, before.value);
    lemma_node(before);
    lemma_node(after);
    lemma_split(link_entries(before.left), mid, link_entries(before.right));
    lemma_key_side(link_entries(before.left), mid, link_entries(before.right), before.key);
    lemma_insert_here(link_entries(before.left), mid, link_entries(before.right), value);
}

/// A node without children holds one entry and has height 1.
pub proof fn lemma_leaf<K: Ord, V>(leaf: AVLNode<K, V>)
    requires
        total_order::<K>(),
        leaf.left is None,
        leaf.right is None,
    ensures
        ascending(leaf.entries()),
        to_map(leaf.entries()) == Map::<K, V>::empty().insert(leaf.key, leaf.value),
        to_map(link_entries::<K, V>(None)) == Map::<K, V>::empty(),
        leaf.tree_height() == 1,
        leaf.balanced(),
        leaf.height == 1 ==> leaf.heights_cached(),
{
    lemma_node(leaf);
    lemma_map_small((leaf.key, leaf.value));
}

/// A smaller key left the left subtree of `before`.
pub proof fn lemma_removed_left<K: Ord, V: Clone>(before: AVLNode<K, V>, after: AVLNode<K, V>, key: K)
    requires
        total_order::<K>(),
        ascending(before.entries()),
        key_lt(key, before.key),
        after.key == before.key,
        after.value == before.value,
        after.right == before.right,
        ascending(link_entries(after.left)),
        removed(to_map(link_entries(before.left)), key, to_map(link_entries(after.left))),
    ensures
        ascending(after.entries()),
        removed(to_map(before.entries()), key, to_map(after.entries())),
        to_map(before.entries()).contains_key(key) <==> to_map(
            link_entries(before.left),
        ).contains_key(key),
{
    let mid = (before.key, before.value);
    lemma_node(before);
    lemma_node(after);
    lemma_key_side(link_entries(before.left), mid, link_entries(before.right), key);
    lemma_remove_left(
        link_entries(before.left),
        mid,
        link_entries(before.right),
        link_entries(after.left),
        key,
    );
}

/// A greater key left the right subtree of `before`.
pub proof fn lemma_removed_right<K: Ord, V: Clone>(
    before: AVLNode<K, V>,
    after: AVLNode<K, V>,
    key: K,
)
    requires
        total_order::<K>(),
        ascending(before.entries()),
        key_lt(before.key, key),
        after.key == before.key,
        after.value == before.value,
        after.left == before.left,
        ascending(link_entries(after.right)),
        removed(to_map(link_entries(before.right)), key, to_map(link_entries(after.right))),
    ensures
        ascending(after.entries()),
        removed(to_map(before.entries()), key, to_map(after.entries())),
        to_map(before.entries()).contains_key(key) <==> to_map(
            link_entries(before.right),
        ).contains_key(key),
{
    let mid = (before.key, before.value);
    lemma_node(before);
    lemma_node(after);
    lemma_key_side(link_entries(before.left), mid, link_entries(before.right), key);
    lemma_remove_right(
        link_entries(before.left),
        mid,
        link_entries(before.right),
        link_entries(after.right),
        key,
    );
}

/// The node `before` left a subtree in which it had at most one child: what
/// is left is that child.
pub proof fn lemma_removed_here<K: Ord, V: Clone>(before: AVLNode<K, V>)
    requires
        total_order::<K>(),
        ascending(before.entries()),
    ensures
        before.left is None ==> removed(
            to_map(before.entries()),
            before.key,
            to_map(link_entries(before.right)),
        ),
        before.right is None ==> removed(
            to_map(before.entries()),
            before.key,
            to_map(link_entries(before.left)),
        ),
        to_map(before.entries()).contains_key(before.key),
{
    let mid = (before.key, before.value);
    lemma_node(before);
    lemma_key_side(link_entries(before.left), mid, link_entries(before.right), before.key);
    lemma_remove_mid_one_side(link_entries(before.left), mid, link_entries(before.right));
}

/// The node `before` was overwritten with its in-order successor, and the
/// successor left the right subtree.
pub proof fn lemma_removed_by_successor<K: Ord, V: Clone>(
    before: AVLNode<K, V>,
    after: AVLNode<K, V>,
)
    requires
        total_order::<K>(),
        ascending(before.entries()),
        before.right is Some,
        after.left == before.left,
        after.key == before.right->0.entries()[0].0,
        cloned(before.right->0.entries()[0].1, after.value),
        ascending(link_entries(after.right)),
        removed(to_map(link_entries(before.right)), after.key, to_map(link_entries(after.right))),
    ensures
        ascending(after.entries()),
        removed(to_map(before.entries()), before.key, to_map(after.entries())),
        to_map(before.entries()).contains_key(before.key),
{
    let mid = (before.key, before.value);
    lemma_node(before);
    lemma_node(after);
    lemma_node(*before.right->0);
    lemma_first_of_around(
        link_entries(before.right->0.left),
        (before.right->0.key, before.right->0.value),
        link_entries(before.right->0.right),
    );
    lemma_key_side(link_entries(before.left), mid, link_entries(before.right), before.key);
    lemma_remove_mid_successor(
        link_entries(before.left),
        mid,
        link_entries(before.right),
        (after.key, after.value),
        link_entries(after.right),
    );
}

/// The empty subtree is well-formed and holds no key.
pub proof fn lemma_empty<K: Ord, V>()
    ensures
        link_wf::<K, V>(None),
        to_map(link_entries::<K, V>(None)) == Map::<K, V>::empty(),
        link_entries::<K, V>(None).len() == 0,
{
    lemma_map_none::<K, V>();
}

/// The key is looked up on one side of a node, or it is the node's key.
pub proof fn lemma_lookup<K: Ord, V>(n: AVLNode<K, V>, key: K)
    requires
        total_order::<K>(),
        ascending(n.entries()),
    ensures
        ascending(link_entries(n.left)),
        ascending(link_entries(n.right)),
        to_map(n.entries()).contains_key(n.key),
        to_map(n.entries())[n.key] == n.value,
        key_lt(key, n.key) ==> (to_map(n.entries()).contains_key(key) <==> to_map(
            link_entries(n.left),
        ).contains_key(key)),
        key_lt(key, n.key) && to_map(link_entries(n.left)).contains_key(key) ==> to_map(
            n.entries(),
        )[key] == to_map(link_entries(n.left))[key],
        key_lt(n.key, key) ==> (to_map(n.entries()).contains_key(key) <==> to_map(
            link_entries(n.right),
        ).contains_key(key)),
        key_lt(n.key, key) && to_map(link_entries(n.right)).contains_key(key) ==> to_map(
            n.entries(),
        )[key] == to_map(link_entries(n.right))[key],
        !to_map(link_entries::<K, V>(None)).contains_key(key),
{
    lemma_node(n);
    lemma_split(link_entries(n.left), (n.key, n.value), link_entries(n.right));
    lemma_key_side(link_entries(n.left), (n.key, n.value), link_entries(n.right), key);
    lemma_map_small((n.key, n.value));
}

/// A node whose left subtree is two higher than its right one, and whose
/// left child does not lean right, is balanced after a right rotation. The
/// subtree keeps its height or loses one.
pub proof fn lemma_right_rotation_balances<K, V>(y: AVLNode<K, V>)
    requires
        y.left is Some,
        link_cached(y.left),
        link_cached(y.right),
        link_balanced(y.left),
        link_balanced(y.right),
        link_height(y.left) == link_height(y.right) + 2,
        link_height(y.left->0.left) >= link_height(y.left->0.right),
        y.tree_height() <= i32::MAX,
    ensures
        y.rotated_right().balanced(),
        y.rotated_right().tree_height() == y.tree_height() || y.rotated_right().tree_height() + 1
            == y.tree_height(),
{
    lemma_node(y);
    lemma_node(*y.left->0);
    lemma_link(y.left->0.left);
    lemma_link(y.left->0.right);
    lemma_link(y.right);
    lemma_node(y.rotated_right());
    lemma_node(*y.rotated_right().right->0);
}

/// The mirror image of `lemma_right_rotation_balances`.
pub proof fn lemma_left_rotation_balances<K, V>(y: AVLNode<K, V>)
    requires
        y.right is Some,
        link_cached(y.left),
        link_cached(y.right),
        link_balanced(y.left),
        link_balanced(y.right),
        link_height(y.right) == link_height(y.left) + 2,
        link_height(y.right->0.right) >= link_height(y.right->0.left),
        y.tree_height() <= i32::MAX,
    ensures
        y.rotated_left().balanced(),
        y.rotated_left().tree_height() == y.tree_height() || y.rotated_left().tree_height() + 1
            == y.tree_height(),
{
    lemma_node(y);
    lemma_node(*y.right->0);
    lemma_link(y.right->0.left);
    lemma_link(y.right->0.right);
    lemma_link(y.left);
    lemma_node(y.rotated_left());
    lemma_node(*y.rotated_left().left->0);
}

/// A node whose left subtree is two higher than its right one, and whose
/// left child leans right, is balanced after the left-right rotation. The
/// subtree loses one in height.
pub proof fn lemma_left_right_rotation_balances<K, V>(z: AVLNode<K, V>)
    requires
        z.left is Some,
        link_cached(z.left),
        link_cached(z.right),
        link_balanced(z.left),
        link_balanced(z.right),
        link_height(z.left) == link_height(z.right) + 2,
        link_height(z.left->0.left) < link_height(z.left->0.right),
        z.tree_height() <= i32::MAX,
    ensures
        z.rotated_left_right().balanced(),
        z.rotated_left_right().tree_height() + 1 == z.tree_height(),
{
    let t = z.rotated_left_right();
    lemma_node(z);
    lemma_node(*z.left->0);
    lemma_node(*z.left->0.right->0);
    lemma_link(z.left->0.left);
    lemma_link(z.left->0.right->0.left);
    lemma_link(z.left->0.right->0.right);
    lemma_link(z.right);
    lemma_node(z.left->0.rotated_left());
    lemma_node(*z.left->0.rotated_left().left->0);
    lemma_node(t);
    lemma_node(*t.left->0);
    lemma_node(*t.right->0);
}

/// The mirror image of `lemma_left_right_rotation_balances`.
pub proof fn lemma_right_left_rotation_balances<K, V>(z: AVLNode<K, V>)
    requires
        z.right is Some,
        link_cached(z.left),
        link_cached(z.right),
        link_balanced(z.left),
        link_balanced(z.right),
        link_height(z.right) == link_height(z.left) + 2,
        link_height(z.right->0.right) < link_height(z.right->0.left),
        z.tree_height() <= i32::MAX,
    ensures
        z.rotated_right_left().balanced(),
        z.rotated_right_left().tree_height() + 1 == z.tree_height(),
{
    let t = z.rotated_right_left();
    lemma_node(z);
    lemma_node(*z.right->0);
    lemma_node(*z.right->0.left->0);
    lemma_link(z.right->0.right);
    lemma_link(z.right->0.left->0.left);
    lemma_link(z.right->0.left->0.right);
    lemma_link(z.left);
    lemma_node(z.right->0.rotated_right());
    lemma_node(*z.right->0.rotated_right().right->0);
    lemma_node(t);
    lemma_node(*t.left->0);
    lemma_node(*t.right->0);
}

/// Taking the height of a node anew, over children that cache theirs, gives
/// a subtree that caches its heights. Nothing else changes.
pub proof fn lemma_with_height<K, V>(n: AVLNode<K, V>)
    requires
        link_cached(n.left),
        link_cached(n.right),
        n.tree_height() <= i32::MAX,
    ensures
        n.with_height().heights_cached(),
        n.with_height().height == n.tree_height(),
        n.with_height().tree_height() == n.tree_height(),
        n.with_height().entries() == n.entries(),
        n.with_height().balanced() == n.balanced(),
{
    lemma_node(n);
    lemma_link(n.left);
    lemma_link(n.right);
    lemma_node(n.with_height());
}

/// A right rotation keeps the entries in their order, and gives a subtree
/// that caches its heights.
pub proof fn lemma_rotated_right<K, V>(y: AVLNode<K, V>)
    requires
        y.left is Some,
        link_cached(y.left),
        link_cached(y.right),
        higher(
            link_height(y.left->0.left),
            1 + higher(link_height(y.left->0.right), link_height(y.right)),
        ) < i32::MAX,
    ensures
        y.rotated_right().entries() == y.entries(),
        y.rotated_right().heights_cached(),
{
    let x = *y.left->0;
    let lower = AVLNode { left: x.right, ..y };
    let upper = AVLNode { right: Some(Box::new(lower.with_height())), ..x };
    lemma_node(y);
    lemma_node(x);
    lemma_node(lower);
    lemma_with_height(lower);
    lemma_node(upper);
    lemma_with_height(upper);
    lemma_around_assoc(
        link_entries(x.left),
        (x.key, x.value),
        link_entries(x.right),
        (y.key, y.value),
        link_entries(y.right),
    );
}

/// A left rotation keeps the entries in their order, and gives a subtree
/// that caches its heights.
pub proof fn lemma_rotated_left<K, V>(y: AVLNode<K, V>)
    requires
        y.right is Some,
        link_cached(y.left),
        link_cached(y.right),
        higher(
            1 + higher(link_height(y.left), link_height(y.right->0.left)),
            link_height(y.right->0.right),
        ) < i32::MAX,
    ensures
        y.rotated_left().entries() == y.entries(),
        y.rotated_left().heights_cached(),
{
    let x = *y.right->0;
    let lower = AVLNode { right: x.left, ..y };
    let upper = AVLNode { left: Some(Box::new(lower.with_height())), ..x };
    lemma_node(y);
    lemma_node(x);
    lemma_node(lower);
    lemma_with_height(lower);
    lemma_node(upper);
    lemma_with_height(upper);
    lemma_around_assoc(
        link_entries(y.left),
        (y.key, y.value),
        link_entries(x.left),
        (x.key, x.value),
        link_entries(x.right),
    );
}

/// Restoring the balance at a node whose subtrees are balanced, cache their
/// heights and differ in height by two at most gives a balanced subtree
/// that caches its heights, with the same entries in the same order. The
/// subtree keeps its height or loses one, and it keeps it where the
/// subtrees differed by one at most.
pub proof fn lemma_rebalanced<K, V>(n: AVLNode<K, V>)
    requires
        link_cached(n.left),
        link_cached(n.right),
        link_balanced(n.left),
        link_balanced(n.right),
        link_height(n.left) <= link_height(n.right) + 2,
        link_height(n.right) <= link_height(n.left) + 2,
        n.tree_height() <= i32::MAX,
    ensures
        n.rebalanced().entries() == n.entries(),
        n.rebalanced().heights_cached(),
        n.rebalanced().balanced(),
        n.rebalanced().tree_height() == n.tree_height() || n.rebalanced().tree_height() + 1
            == n.tree_height(),
        link_height(n.left) <= link_height(n.right) + 1 && link_height(n.right) <= link_height(
            n.left,
        ) + 1 ==> n.rebalanced() == n.with_height(),
{
    reveal(AVLNode::rebalanced);
    let node = n.with_height();
    lemma_with_height(n);
    lemma_node(n);
    lemma_node(node);
    lemma_link(n.left);
    lemma_link(n.right);
    if node.balance_factor() > 1 {
        let x = *node.left->0;
        lemma_link(x.left);
        lemma_link(x.right);
        if x.balance_factor() >= 0 {
            lemma_rotated_right(node);
            lemma_right_rotation_balances(node);
        } else {
            let turned = AVLNode { left: Some(Box::new(x.rotated_left())), ..node };
            lemma_node(*x.right->0);
            lemma_rotated_left(x);
            lemma_node(x.rotated_left());
            lemma_node(*x.rotated_left().left->0);
            lemma_node(turned);
            lemma_rotated_right(turned);
            lemma_left_right_rotation_balances(node);
        }
    } else if node.balance_factor() < -1 {
        let x = *node.right->0;
        lemma_link(x.left);
        lemma_link(x.right);
        if x.balance_factor() <= 0 {
            lemma_rotated_left(node);
            lemma_left_rotation_balances(node);
        } else {
            let turned = AVLNode { right: Some(Box::new(x.rotated_right())), ..node };
            lemma_node(*x.left->0);
            lemma_rotated_right(x);
            lemma_node(x.rotated_right());
            lemma_node(*x.rotated_right().right->0);
            lemma_node(turned);
            lemma_rotated_left(turned);
            lemma_right_left_rotation_balances(node);
        }
    }
}

/// An insertion into a well-formed subtree gives a well-formed subtree whose
/// map has the key with the value put in. The subtree keeps its height or
/// gains one, and it keeps it where it held the key.
pub proof fn lemma_inserted<K: Ord, V>(n: AVLNode<K, V>, key: K, value: V)
    requires
        total_order::<K>(),
        link_wf(Some(Box::new(n))),
        n.tree_height() < i32::MAX,
    ensures
        link_wf(Some(Box::new(n.inserted(key, value)))),
        to_map(n.inserted(key, value).entries()) == to_map(n.entries()).insert(key, value),
        n.inserted(key, value).tree_height() == n.tree_height() || n.inserted(
            key,
            value,
        ).tree_height() == n.tree_height() + 1,
        to_map(n.entries()).contains_key(key) ==> n.inserted(key, value).tree_height()
            == n.tree_height(),
    decreases n,
{
    lemma_node(n);
    lemma_children(n);
    if key_lt(key, n.key) {
        let below = match n.left {
            Some(l) => l.inserted(key, value),
            None => AVLNode::single(key, value),
        };
        if n.left is Some {
            lemma_inserted(*n.left->0, key, value);
        } else {
            lemma_leaf(below);
            lemma_empty::<K, V>();
        }
        let grown = AVLNode { left: Some(Box::new(below)), ..n };
        lemma_inserted_left(n, grown, key, value);
        lemma_node(grown);
        lemma_with_height(grown);
        lemma_rebalanced(grown);
    } else if key_lt(n.key, key) {
        let below = match n.right {
            Some(r) => r.inserted(key, value),
            None => AVLNode::single(key, value),
        };
        if n.right is Some {
            lemma_inserted(*n.right->0, key, value);
        } else {
            lemma_leaf(below);
            lemma_empty::<K, V>();
        }
        let grown = AVLNode { right: Some(Box::new(below)), ..n };
        lemma_inserted_right(n, grown, key, value);
        lemma_node(grown);
        lemma_with_height(grown);
        lemma_rebalanced(grown);
    } else {
        lemma_trichotomy(key, n.key);
        let same = AVLNode { value, ..n };
        lemma_inserted_here(n, same, value);
        lemma_node(same);
        lemma_with_height(same);
        lemma_rebalanced(same);
    }
}

/// The first entry of a subtree is the first of its entries in order.
pub proof fn lemma_first_entry<K, V>(n: AVLNode<K, V>)
    ensures
        n.entries().len() > 0,
        n.entries()[0] == n.first_entry(),
    decreases n,
{
    lemma_node(n);
    lemma_first_of_around(link_entries(n.left), (n.key, n.value), link_entries(n.right));
    if n.left is Some {
        lemma_first_entry(*n.left->0);
    }
}

/// A removal from a well-formed subtree leaves a well-formed subtree whose
/// map is without the key. The subtree keeps its height or loses one, and a
/// subtree without the key stays as it is.
pub proof fn lemma_removed<K: Ord, V: Clone>(n: AVLNode<K, V>, key: K)
    requires
        total_order::<K>(),
        link_wf(Some(Box::new(n))),
    ensures
        link_wf(n.removed(key)),
        removed(to_map(n.entries()), key, to_map(link_entries(n.removed(key)))),
        link_height(n.removed(key)) == n.tree_height() || link_height(n.removed(key)) + 1
            == n.tree_height(),
        !to_map(n.entries()).contains_key(key) ==> n.removed(key) == Some(Box::new(n)),
    decreases n,
{
    lemma_node(n);
    lemma_children(n);
    lemma_link(n.left);
    lemma_link(n.right);
    lemma_lookup(n, key);
    lemma_empty::<K, V>();
    lemma_removed_absent(to_map(link_entries::<K, V>(None)), key);
    if key_lt(key, n.key) {
        if n.left is Some {
            lemma_removed(*n.left->0, key);
        }
        let shrunk = AVLNode {
            left: match n.left {
                Some(l) => l.removed(key),
                None => None,
            },
            ..n
        };
        lemma_removed_left(n, shrunk, key);
        lemma_node(shrunk);
        lemma_with_height(shrunk);
        lemma_rebalanced(shrunk);
    } else if key_lt(n.key, key) {
        if n.right is Some {
            lemma_removed(*n.right->0, key);
        }
        let shrunk = AVLNode {
            right: match n.right {
                Some(r) => r.removed(key),
                None => None,
            },
            ..n
        };
        lemma_removed_right(n, shrunk, key);
        lemma_node(shrunk);
        lemma_with_height(shrunk);
        lemma_rebalanced(shrunk);
    } else {
        lemma_trichotomy(key, n.key);
        lemma_removed_here(n);
        if n.left is Some && n.right is Some {
            let right = *n.right->0;
            let successor = right.first_entry();
            lemma_first_entry(right);
            lemma_entry_in_map(right.entries(), 0);
            lemma_removed(right, successor.0);
            let shrunk = AVLNode {
                key: successor.0,
                value: successor.1,
                right: right.removed(successor.0),
                ..n
            };
            lemma_removed_by_successor(n, shrunk);
            lemma_node(shrunk);
            lemma_with_height(shrunk);
            lemma_rebalanced(shrunk);
        }
    }
}

/// The Fibonacci numbers: 0, 1, 1, 2, 3, 5, ...
pub open spec fn fib(n: nat) -> nat
    decreases n,
{
    if n == 0 {
        0
    } else if n == 1 {
        1
    } else {
        fib((n - 1) as nat) + fib((n - 2) as nat)
    }
}

/// The Fibonacci numbers do not fall.
pub proof fn lemma_fib_monotonic(i: nat, j: nat)
    requires
        i <= j,
    ensures
        fib(i) <= fib(j),
    decreases j,
{
    if i < j {
        if j >= 2 {
            lemma_fib_monotonic(i, (j - 1) as nat);
        }
    }
}

/// A balanced subtree of height `h` has at least `fib(h + 2) - 1` nodes.
pub proof fn lemma_min_nodes<K, V>(n: AVLNode<K, V>)
    requires
        n.balanced(),
    ensures
        fib(n.tree_height() + 2) <= n.entries().len() + 1,
    decreases n,
{
    lemma_node(n);
    lemma_first_of_around(link_entries(n.left), (n.key, n.value), link_entries(n.right));
    let hl = link_height(n.left);
    let hr = link_height(n.right);
    assert(fib(2) == 1) by {
        reveal_with_fuel(fib, 3);
    }
    if n.left is Some {
        lemma_min_nodes(*n.left->0);
    }
    if n.right is Some {
        lemma_min_nodes(*n.right->0);
    }
    assert(fib(hl + 2) <= link_entries(n.left).len() + 1);
    assert(fib(hr + 2) <= link_entries(n.right).len() + 1);
    if hl >= hr {
        lemma_fib_monotonic(hl + 1, hr + 2);
    } else {
        lemma_fib_monotonic(hr + 1, hl + 2);
    }
}

} // verus!
