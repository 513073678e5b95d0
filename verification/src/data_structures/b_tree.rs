// B tree (specialized m-way tree)
//!
//! A node holds keys in ascending order with a value beside each. A node
//! that is no leaf has a child before its first key, between any two of its
//! keys and after its last one.

use crate::data_structures::entries::{
    around, ascending, lemma_key_side, lemma_map_none, lemma_split, to_map,
};
use crate::order::{is_eq, is_lt, key_lt, lemma_lt_transitive, lemma_trichotomy, total_order};
use vstd::prelude::*;

verus! {

/// The link from a parent to a child: the parent owns the child.
pub type NodeRef<K, V> = Box<BTreeNode<K, V>>;

/// A node of the tree: keys in ascending order, the value of each key
/// beside it, and the children, if the node is no leaf.
#[derive(Debug)]
pub struct BTreeNode<K, V> {
    pub keys: Vec<K>,
    pub values: Vec<V>,
    pub children: Option<Vec<NodeRef<K, V>>>,
}

/// A B-tree of a given order.
#[derive(Debug)]
pub struct BTree<K, V> {
    pub root: Option<NodeRef<K, V>>,
    order: usize,
}

/// The keys ascend strictly.
pub open spec fn strictly_ascending<K: Ord>(keys: Seq<K>) -> bool {
    forall|i: int, j: int| #![trigger keys[i], keys[j]] 0 <= i < j < keys.len() ==> key_lt(keys[i], keys[j])
}

/// The number of keys smaller than `key`: the place of `key` among
/// ascending keys, or the place at which it would stand.
pub open spec fn place_among<K: Ord>(keys: Seq<K>, key: K) -> int
    decreases keys.len(),
{
    if keys.len() == 0 {
        0
    } else if key_lt(keys.last(), key) {
        keys.len() as int
    } else {
        place_among(keys.drop_last(), key)
    }
}

/// `place_among` splits ascending keys into the smaller ones and the others.
pub proof fn lemma_place_among<K: Ord>(keys: Seq<K>, key: K)
    requires
        total_order::<K>(),
        strictly_ascending(keys),
    ensures
        0 <= place_among(keys, key) <= keys.len(),
        forall|j: int| 0 <= j < place_among(keys, key) ==> key_lt(#[trigger] keys[j], key),
        forall|j: int| place_among(keys, key) <= j < keys.len() ==> !key_lt(#[trigger] keys[j], key),
    decreases keys.len(),
{
    if keys.len() > 0 {
        let front = keys.drop_last();
        assert forall|i: int, j: int| #![trigger front[i], front[j]] 0 <= i < j < front.len() implies key_lt(
            front[i],
            front[j],
        ) by {
            assert(front[i] == keys[i] && front[j] == keys[j]);
        }
        lemma_place_among(front, key);
        if key_lt(keys.last(), key) {
            assert forall|j: int| 0 <= j < keys.len() implies key_lt(#[trigger] keys[j], key) by {
                if j < keys.len() - 1 {
                    lemma_lt_transitive(keys[j], keys.last(), key);
                }
            }
        } else {
            assert forall|j: int| place_among(keys, key) <= j < keys.len() implies !key_lt(
                #[trigger] keys[j],
                key,
            ) by {
                if j < keys.len() - 1 {
                    assert(front[j] == keys[j]);
                }
            }
            assert forall|j: int| 0 <= j < place_among(keys, key) implies key_lt(
                #[trigger] keys[j],
                key,
            ) by {
                assert(front[j] == keys[j]);
            }
        }
    }
}

/// A position that splits ascending keys into the smaller ones and the
/// others is `place_among`.
pub proof fn lemma_is_place<K: Ord>(keys: Seq<K>, key: K, at: int)
    requires
        total_order::<K>(),
        strictly_ascending(keys),
        0 <= at <= keys.len(),
        forall|j: int| 0 <= j < at ==> key_lt(#[trigger] keys[j], key),
        forall|j: int| at <= j < keys.len() ==> !key_lt(#[trigger] keys[j], key),
    ensures
        place_among(keys, key) == at,
{
    lemma_place_among(keys, key);
    let p = place_among(keys, key);
    if p < at {
        assert(key_lt(keys[p], key));
    } else if at < p {
        assert(key_lt(keys[at], key));
    }
}

impl<K, V> BTreeNode<K, V> {
    /// Has the node no children?
    fn is_leaf(&self) -> (leaf: bool)
        ensures
            leaf == (self.children is None),
    {
        self.children.is_none()
    }
}

impl<K: Ord, V> BTreeNode<K, V> {
    /// In every node of the subtree the keys ascend strictly, and a value
    /// stands beside each key.
    pub open spec fn well_formed(self) -> bool
        decreases self,
    {
        &&& self.values@.len() == self.keys@.len()
        &&& strictly_ascending(self.keys@)
        &&& match self.children {
            Some(children) => forall|i: int|
                0 <= i < children@.len() ==> (#[trigger] children@[i]).well_formed(),
            None => true,
        }
    }

    /// The value that a search for `key` finds in the subtree: the value
    /// beside `key` in this node, or what the search finds in the child at
    /// the place of `key`. Nothing where a leaf does not hold the key, or
    /// where that child is missing.
    pub open spec fn lookup(self, key: K) -> Option<V>
        decreases self,
    {
        let at = place_among(self.keys@, key);
        if at < self.keys@.len() && self.keys@[at] == key {
            Some(self.values@[at])
        } else {
            match self.children {
                Some(children) => if 0 <= at < children@.len() {
                    children@[at].lookup(key)
                } else {
                    None
                },
                None => None,
            }
        }
    }
}

impl<K: Ord, V> BTreeNode<K, V> {
    /// The entries of the subtree from the child at `from` on, as an
    /// in-order walk meets them: what is below that child, then the key at
    /// `from` with its value, then the entries from the next child on.
    pub open spec fn entries_from(self, from: nat) -> Seq<(K, V)>
        decreases self, self.keys@.len() - from,
    {
        let below = match self.children {
            Some(children) => if from < children@.len() {
                children@[from as int].entries_from(0)
            } else {
                Seq::empty()
            },
            None => Seq::empty(),
        };
        if from >= self.keys@.len() {
            below
        } else {
            around(below, (self.keys@[from as int], self.values@[from as int]), self.entries_from(from + 1))
        }
    }

    /// The entries of the subtree, as an in-order walk meets them.
    pub open spec fn entries(self) -> Seq<(K, V)> {
        self.entries_from(0)
    }

    /// What a search finds that looks at the keys from `from` on, one
    /// after the other: the value beside `key`, or what it finds below the
    /// child before the first greater key.
    pub open spec fn scan_from(self, from: nat, key: K) -> Option<V>
        decreases self, self.keys@.len() - from,
    {
        if from < self.keys@.len() && self.keys@[from as int] == key {
            Some(self.values@[from as int])
        } else if from < self.keys@.len() && key_lt(self.keys@[from as int], key) {
            self.scan_from(from + 1, key)
        } else {
            match self.children {
                Some(children) => if from < children@.len() {
                    children@[from as int].scan_from(0, key)
                } else {
                    None
                },
                None => None,
            }
        }
    }

    /// A search finds what a look at the keys one after the other finds.
    pub proof fn lemma_lookup_scans(self, from: nat, key: K)
        requires
            total_order::<K>(),
            self.well_formed(),
            from <= place_among(self.keys@, key),
        ensures
            self.lookup(key) == self.scan_from(from, key),
        decreases self, self.keys@.len() - from,
    {
        let keys = self.keys@;
        let at = place_among(keys, key);
        lemma_place_among(keys, key);
        if from < at {
            assert(key_lt(keys[from as int], key));
            lemma_trichotomy(keys[from as int], key);
            self.lemma_lookup_scans(from + 1, key);
        } else {
            if at < keys.len() {
                lemma_trichotomy(keys[at], key);
            }
            if !(at < keys.len() && keys[at] == key) {
                if self.children is Some && at < self.children->0@.len() {
                    let child = self.children->0@[at];
                    assert(child.well_formed());
                    lemma_place_among(child.keys@, key);
                    child.lemma_lookup_scans(0, key);
                }
            }
        }
    }

    /// In a subtree whose entries ascend in in-order, a look at the keys
    /// from `from` on finds the value that the entries from there on hold
    /// for `key`.
    pub proof fn lemma_scan_is_map(self, from: nat, key: K)
        requires
            total_order::<K>(),
            self.well_formed(),
            ascending(self.entries_from(from)),
        ensures
            self.scan_from(from, key) == if to_map(self.entries_from(from)).contains_key(key) {
                Some(to_map(self.entries_from(from))[key])
            } else {
                None
            },
        decreases self, self.keys@.len() - from,
    {
        lemma_map_none::<K, V>();
        let has_child = self.children is Some && from < self.children->0@.len();
        let below = if has_child {
            self.children->0@[from as int].entries_from(0)
        } else {
            Seq::empty()
        };
        if from >= self.keys@.len() {
            if has_child {
                let child = self.children->0@[from as int];
                assert(child.well_formed());
                child.lemma_scan_is_map(0, key);
            }
        } else {
            let mid = (self.keys@[from as int], self.values@[from as int]);
            let rest = self.entries_from(from + 1);
            lemma_split(below, mid, rest);
            lemma_key_side(below, mid, rest, key);
            lemma_trichotomy(mid.0, key);
            if mid.0 == key {
            } else if key_lt(mid.0, key) {
                self.lemma_scan_is_map(from + 1, key);
            } else if has_child {
                let child = self.children->0@[from as int];
                assert(child.well_formed());
                child.lemma_scan_is_map(0, key);
            }
        }
    }

    /// In a subtree whose entries ascend in in-order, a search finds the
    /// value that the entries hold for the key, and nothing for a key that
    /// the entries do not hold.
    pub proof fn lemma_lookup_is_map(self, key: K)
        requires
            total_order::<K>(),
            self.well_formed(),
            ascending(self.entries()),
        ensures
            self.lookup(key) == if to_map(self.entries()).contains_key(key) {
                Some(to_map(self.entries())[key])
            } else {
                None
            },
    {
        lemma_place_among(self.keys@, key);
        self.lemma_lookup_scans(0, key);
        self.lemma_scan_is_map(0, key);
    }
}

impl<K: Ord + Clone, V: Clone> BTree<K, V> {
    /// The order of the tree: the largest number of children of a node.
    pub closed spec fn order(self) -> usize {
        self.order
    }

    /// The root node, if the tree is not empty.
    pub closed spec fn top(self) -> Option<NodeRef<K, V>> {
        self.root
    }

    /// The empty tree of the given order, which is 3 at least.
    pub fn new(order: usize) -> (tree: Self)
        requires
            order >= 3,
        ensures
            tree.top() is None,
            tree.order() == order,
    {
        Self { root: None, order }
    }

    /// The value under `key`, cloned, if a search from the root finds the
    /// key.
    pub fn search(&self, key: &K) -> (found: Option<V>)
        requires
            total_order::<K>(),
            self.top() matches Some(root) ==> root.well_formed(),
        ensures
            match self.top() {
                Some(root) => match found {
                    Some(v) => root.lookup(*key) matches Some(held) && cloned(held, v),
                    None => root.lookup(*key) is None,
                },
                None => found is None,
            },
    {
        if let Some(root) = &self.root {
            Self::search_helper(root, key)
        } else {
            None
        }
    }

    /// Splits a node at its median key: the node keeps the keys before the
    /// median with their values and the children up to it. The median and
    /// its value come out, and with them a new node that holds what stood
    /// after the median.
    fn split_node(node: &mut BTreeNode<K, V>) -> (parts: (K, V, NodeRef<K, V>))
        requires
            old(node).keys@.len() > 0,
            old(node).values@.len() == old(node).keys@.len(),
            old(node).children matches Some(children) ==> children@.len() > old(node).keys@.len() / 2,
        ensures
            final(node).keys@ == old(node).keys@.take(old(node).keys@.len() as int / 2),
            final(node).values@ == old(node).values@.take(old(node).keys@.len() as int / 2),
            parts.0 == old(node).keys@[old(node).keys@.len() as int / 2],
            parts.1 == old(node).values@[old(node).keys@.len() as int / 2],
            parts.2.keys@ == old(node).keys@.skip(old(node).keys@.len() as int / 2 + 1),
            parts.2.values@ == old(node).values@.skip(old(node).keys@.len() as int / 2 + 1),
            match old(node).children {
                Some(children) => final(node).children matches Some(kept) && parts.2.children matches Some(
                    moved,
                ) && kept@ == children@.take(old(node).keys@.len() as int / 2 + 1) && moved@
                    == children@.skip(old(node).keys@.len() as int / 2 + 1),
                None => final(node).children is None && parts.2.children is None,
            },
    {
        let median = node.keys.len() / 2;

        let right_keys = node.keys.split_off(median + 1);
        let right_values = node.values.split_off(median + 1);

        let median_key = node.keys.pop().unwrap();
        let median_value = node.values.pop().unwrap();

        let right_children = match &mut node.children {
            Some(children) => Some(children.split_off(median + 1)),
            None => None,
        };

        let right_node = Box::new(
            BTreeNode { keys: right_keys, values: right_values, children: right_children },
        );
        proof {
            let keys = old(node).keys@;
            let values = old(node).values@;
            assert(node.keys@ =~= keys.take(median as int));
            assert(node.values@ =~= values.take(median as int));
            assert(right_node.keys@ =~= keys.skip(median as int + 1));
            assert(right_node.values@ =~= values.skip(median as int + 1));
            if old(node).children is Some {
                let children = old(node).children->0@;
                assert(node.children->0@ =~= children.take(median as int + 1));
                assert(right_node.children->0@ =~= children.skip(median as int + 1));
            }
        }

        (median_key, median_value, right_node)
    }

    /// The value under `key` in the subtree of `node`, cloned: from the node
    /// itself, or from the child at the place of `key` among the keys of the
    /// node.
    fn search_helper(node: &BTreeNode<K, V>, key: &K) -> (found: Option<V>)
        requires
            total_order::<K>(),
            node.well_formed(),
        ensures
            match found {
                Some(v) => node.lookup(*key) matches Some(held) && cloned(held, v),
                None => node.lookup(*key) is None,
            },
        decreases node,
    {
        match Self::find_key_index(node.keys.as_slice(), key) {
            Ok(idx) => Some(node.values[idx].clone()),
            Err(idx) => {
                if node.is_leaf() {
                    return None;
                }
                // get the child we need, then recurse

                match &node.children {
                    Some(children) => {
                        if idx < children.len() {
                            let child = &children[idx];
                            Self::search_helper(child, key)
                        } else {
                            None
                        }
                    },
                    None => None,
                }
            },
        }
    }

    /// The position of `key` among the keys if it is among them, else the
    /// position at which it would stand.
    fn find_key_index(keys: &[K], key: &K) -> (found: Result<usize, usize>)
        requires
            total_order::<K>(),
            strictly_ascending(keys@),
        ensures
            match found {
                Ok(at) => at == place_among(keys@, *key) && at < keys@.len() && keys@[at as int]
                    == *key,
                Err(at) => at == place_among(keys@, *key) && (at < keys@.len() ==> keys@[at as int]
                    != *key),
            },
    {
        // the keys are sorted
        let mut low: usize = 0;
        let mut high: usize = keys.len();
        while low < high
            invariant
                total_order::<K>(),
                strictly_ascending(keys@),
                low <= high <= keys@.len(),
                forall|j: int| 0 <= j < low ==> key_lt(#[trigger] keys@[j], *key),
                forall|j: int| high <= j < keys@.len() ==> !key_lt(#[trigger] keys@[j], *key),
            decreases high - low,
        {
            let mid = low + (high - low) / 2;
            if is_lt(&keys[mid], key) {
                proof {
                    assert forall|j: int| 0 <= j < mid + 1 implies key_lt(#[trigger] keys@[j], *key) by {
                        if j < mid {
                            lemma_lt_transitive(keys@[j], keys@[mid as int], *key);
                        }
                    }
                }
                low = mid + 1;
            } else {
                proof {
                    assert forall|j: int| mid <= j < keys@.len() implies !key_lt(
                        #[trigger] keys@[j],
                        *key,
                    ) by {
                        if j > mid && key_lt(keys@[j], *key) {
                            lemma_lt_transitive(keys@[mid as int], keys@[j], *key);
                        }
                    }
                }
                high = mid;
            }
        }
        proof {
            lemma_is_place(keys@, *key, low as int);
        }
        if low < keys.len() && is_eq(&keys[low], key) {
            Ok(low)
        } else {
            Err(low)
        }
    }
}

} // verus!
