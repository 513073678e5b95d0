//! Why joining trees gives the tree of the text: the trees that wait to be
//! joined belong to the text, share no character, and have a leaf for every
//! character of the text between them.

use crate::algoritms::compression::huffman::{
    code_tree, frequencies, leaf_weights, lemma_frequencies_bounded,
};
use crate::data_structures::tree::TreeNode;
use vstd::prelude::*;

verus! {

/// The number of places of `text` at which a character with a code point
/// in `keys` stands.
pub open spec fn covered(text: Seq<char>, keys: Set<u32>) -> nat
    decreases text.len(),
{
    if text.len() == 0 {
        0
    } else {
        covered(text.drop_last(), keys) + if keys.contains(text.last() as u32) {
            1nat
        } else {
            0nat
        }
    }
}

/// A tree that belongs to the text: a code tree whose leaves carry the
/// frequencies of their characters in the text, and whose root carries the
/// number of places at which one of these characters stands.
#[verifier::opaque]
pub open spec fn tree_of(node: TreeNode, text: Seq<char>) -> bool {
    &&& code_tree(node)
    &&& leaf_weights(node).submap_of(frequencies(text))
    &&& node.frequency == covered(text, leaf_weights(node).dom())
}

/// Trees that belong to the text, no two of them with a character in
/// common.
#[verifier::opaque]
pub open spec fn forest_of(trees: Seq<TreeNode>, text: Seq<char>) -> bool {
    &&& forall|i: int| 0 <= i < trees.len() ==> tree_of(#[trigger] trees[i], text)
    &&& forall|i: int, j: int|
        #![trigger trees[i], trees[j]]
        0 <= i < j < trees.len() ==> leaf_weights(trees[i]).dom().disjoint(
            leaf_weights(trees[j]).dom(),
        )
}

/// One of the trees has a leaf for the code point `key`.
pub open spec fn has_leaf(trees: Seq<TreeNode>, key: u32) -> bool {
    exists|i: int| 0 <= i < trees.len() && leaf_weights(#[trigger] trees[i]).contains_key(key)
}

/// Every character of the text has a leaf in one of the trees.
#[verifier::opaque]
pub open spec fn complete(trees: Seq<TreeNode>, text: Seq<char>) -> bool {
    forall|key: u32| #[trigger] frequencies(text).contains_key(key) ==> has_leaf(trees, key)
}

/// No more places are covered than the text has.
pub proof fn lemma_covered_bound(text: Seq<char>, keys: Set<u32>)
    ensures
        covered(text, keys) <= text.len(),
    decreases text.len(),
{
    if text.len() > 0 {
        lemma_covered_bound(text.drop_last(), keys);
    }
}

/// Two sets of characters without a common one cover the places that each
/// of them covers.
pub proof fn lemma_covered_union(text: Seq<char>, a: Set<u32>, b: Set<u32>)
    requires
        a.disjoint(b),
    ensures
        covered(text, a.union(b)) == covered(text, a) + covered(text, b),
    decreases text.len(),
{
    if text.len() > 0 {
        lemma_covered_union(text.drop_last(), a, b);
    }
}

/// One character covers as many places as it is frequent.
pub proof fn lemma_covered_single(text: Seq<char>, key: u32)
    requires
        text.len() <= usize::MAX,
    ensures
        frequencies(text).contains_key(key) ==> covered(text, set![key]) == frequencies(text)[key],
        !frequencies(text).contains_key(key) ==> covered(text, set![key]) == 0,
    decreases text.len(),
{
    if text.len() > 0 {
        lemma_covered_single(text.drop_last(), key);
        lemma_frequencies_bounded(text.drop_last(), key);
    }
}

/// The characters of the text cover the text.
pub proof fn lemma_covered_all(text: Seq<char>, keys: Set<u32>)
    requires
        frequencies(text).dom().subset_of(keys),
    ensures
        covered(text, keys) == text.len(),
    decreases text.len(),
{
    if text.len() > 0 {
        assert(frequencies(text).contains_key(text.last() as u32));
        assert forall|k: u32| frequencies(text.drop_last()).contains_key(k) implies keys.contains(
            k,
        ) by {
            assert(frequencies(text).contains_key(k));
        }
        lemma_covered_all(text.drop_last(), keys);
    }
}

/// Every key of the frequencies is the code point of a character.
pub proof fn lemma_keys_are_characters(text: Seq<char>, key: u32)
    requires
        frequencies(text).contains_key(key),
    ensures
        key <= 0x10FFFF && !(0xD800 <= key <= 0xDFFF),
        (key as char) as u32 == key,
    decreases text.len(),
{
    if text.len() > 0 {
        if key == text.last() as u32 {
            let ch = text.last();
            vstd::utf8::char_is_scalar(ch);
            vstd::utf8::char_u32_cast(ch, key);
            assert(0xD800 <= key <= 0xDFFF ==> !vstd::utf8::is_scalar(key)) by (bit_vector);
            assert(key > 0x10FFFF ==> !vstd::utf8::is_scalar(key)) by (bit_vector);
        } else {
            lemma_keys_are_characters(text.drop_last(), key);
        }
    }
}

/// A leaf for a character of the text with its frequency belongs to the
/// text.
pub proof fn lemma_leaf_belongs(text: Seq<char>, leaf: TreeNode)
    requires
        text.len() <= usize::MAX,
        leaf.leaf(),
        leaf.character is Some,
        frequencies(text).contains_key(leaf.character->0 as u32),
        frequencies(text)[leaf.character->0 as u32] == leaf.frequency,
    ensures
        tree_of(leaf, text),
        leaf_weights(leaf) == Map::<u32, usize>::empty().insert(
            leaf.character->0 as u32,
            leaf.frequency,
        ),
{
    reveal(tree_of);
    lemma_covered_single(text, leaf.character->0 as u32);
    assert(leaf_weights(leaf).dom() =~= set![leaf.character->0 as u32]);
}

/// Two trees of the text without a common character make one tree of the
/// text, whose frequency is no more than the text is long.
pub proof fn lemma_joined_belongs(text: Seq<char>, left: TreeNode, right: TreeNode, parent: TreeNode)
    requires
        tree_of(left, text),
        tree_of(right, text),
        leaf_weights(left).dom().disjoint(leaf_weights(right).dom()),
        parent.character is None,
        parent.left == Some(Box::new(left)),
        parent.right == Some(Box::new(right)),
    ensures
        left.frequency + right.frequency <= text.len(),
        parent.frequency == left.frequency + right.frequency ==> tree_of(parent, text),
        leaf_weights(parent) == leaf_weights(left).union_prefer_right(leaf_weights(right)),
{
    reveal(tree_of);
    let both = leaf_weights(left).dom().union(leaf_weights(right).dom());
    lemma_covered_union(text, leaf_weights(left).dom(), leaf_weights(right).dom());
    lemma_covered_bound(text, both);
    assert(!parent.leaf());
    assert(leaf_weights(parent) =~= leaf_weights(left).union_prefer_right(leaf_weights(right)));
    assert(leaf_weights(parent).dom() =~= both);
    if parent.frequency == left.frequency + right.frequency {
        assert(code_tree(parent));
        assert(leaf_weights(parent).submap_of(frequencies(text)));
        assert(parent.frequency == covered(text, leaf_weights(parent).dom()));
    }
}

/// Taking a tree out of a forest leaves a forest whose trees have no
/// character in common with that tree.
pub proof fn lemma_forest_remove(trees: Seq<TreeNode>, text: Seq<char>, at: int)
    requires
        forest_of(trees, text),
        0 <= at < trees.len(),
    ensures
        forest_of(trees.remove(at), text),
        tree_of(trees[at], text),
        forall|j: int|
            0 <= j < trees.remove(at).len() ==> leaf_weights(#[trigger] trees.remove(at)[j]).dom().disjoint(
                leaf_weights(trees[at]).dom(),
            ),
        forall|key: u32|
            has_leaf(trees, key) ==> #[trigger] has_leaf(trees.remove(at), key) || leaf_weights(
                trees[at],
            ).contains_key(key),
{
    reveal(forest_of);
    let rest = trees.remove(at);
    assert forall|j: int| 0 <= j < rest.len() implies tree_of(#[trigger] rest[j], text)
        && leaf_weights(rest[j]).dom().disjoint(leaf_weights(trees[at]).dom()) by {
        if j < at {
            assert(rest[j] == trees[j]);
            assert(leaf_weights(trees[j]).dom().disjoint(leaf_weights(trees[at]).dom()));
        } else {
            assert(rest[j] == trees[j + 1]);
            assert(leaf_weights(trees[at]).dom().disjoint(leaf_weights(trees[j + 1]).dom()));
        }
    }
    assert forall|i: int, j: int| #![trigger rest[i], rest[j]] 0 <= i < j < rest.len() implies leaf_weights(
        rest[i],
    ).dom().disjoint(leaf_weights(rest[j]).dom()) by {
        let pi = if i < at {
            i
        } else {
            i + 1
        };
        let pj = if j < at {
            j
        } else {
            j + 1
        };
        assert(rest[i] == trees[pi] && rest[j] == trees[pj]);
        assert(leaf_weights(trees[pi]).dom().disjoint(leaf_weights(trees[pj]).dom()));
    }
    assert forall|key: u32| has_leaf(trees, key) implies #[trigger] has_leaf(rest, key)
        || leaf_weights(trees[at]).contains_key(key) by {
        let i = choose|i: int| 0 <= i < trees.len() && leaf_weights(#[trigger] trees[i]).contains_key(key);
        if i < at {
            assert(rest[i] == trees[i]);
        } else if i > at {
            assert(rest[i - 1] == trees[i]);
        }
    }
}

/// A tree of the text that has no character in common with the trees of a
/// forest joins the forest.
pub proof fn lemma_forest_push(trees: Seq<TreeNode>, text: Seq<char>, tree: TreeNode)
    requires
        forest_of(trees, text),
        tree_of(tree, text),
        forall|j: int|
            0 <= j < trees.len() ==> leaf_weights(#[trigger] trees[j]).dom().disjoint(
                leaf_weights(tree).dom(),
            ),
    ensures
        forest_of(trees.push(tree), text),
        forall|key: u32|
            has_leaf(trees, key) || leaf_weights(tree).contains_key(key) ==> #[trigger] has_leaf(
                trees.push(tree),
                key,
            ),
{
    reveal(forest_of);
    let more = trees.push(tree);
    assert forall|i: int| 0 <= i < more.len() implies tree_of(#[trigger] more[i], text) by {
        if i < trees.len() {
            assert(more[i] == trees[i]);
        }
    }
    assert forall|i: int, j: int| #![trigger more[i], more[j]] 0 <= i < j < more.len() implies leaf_weights(
        more[i],
    ).dom().disjoint(leaf_weights(more[j]).dom()) by {
        assert(more[i] == trees[i]);
        if j < trees.len() {
            assert(more[j] == trees[j]);
        }
    }
    assert forall|key: u32|
        has_leaf(trees, key) || leaf_weights(tree).contains_key(key) implies #[trigger] has_leaf(
        more,
        key,
    ) by {
        if leaf_weights(tree).contains_key(key) {
            assert(more[trees.len() as int] == tree);
        } else {
            let i = choose|i: int| 0 <= i < trees.len() && leaf_weights(#[trigger] trees[i]).contains_key(key);
            assert(more[i] == trees[i]);
        }
    }
}

/// The one tree of a complete forest carries the frequencies of the text,
/// and its root the length of the text.
pub proof fn lemma_last_tree(trees: Seq<TreeNode>, text: Seq<char>)
    requires
        forest_of(trees, text),
        complete(trees, text),
        trees.len() == 1,
    ensures
        code_tree(trees[0]),
        leaf_weights(trees[0]) == frequencies(text),
        trees[0].frequency == text.len(),
{
    reveal(forest_of);
    reveal(complete);
    reveal(tree_of);
    assert(tree_of(trees[0], text));
    assert forall|key: u32| frequencies(text).contains_key(key) implies leaf_weights(
        trees[0],
    ).contains_key(key) by {
        assert(has_leaf(trees, key));
    }
    assert(leaf_weights(trees[0]) =~= frequencies(text));
    lemma_covered_all(text, frequencies(text).dom());
}

/// The leaves made of the entries of the frequency map are a complete
/// forest.
pub proof fn lemma_fresh_forest(
    text: Seq<char>,
    counts: Map<u32, usize>,
    pairs: Seq<(&u32, &usize)>,
    trees: Seq<TreeNode>,
)
    requires
        text.len() <= usize::MAX,
        counts == frequencies(text),
        pairs.no_duplicates(),
        pairs.len() == counts.dom().len(),
        forall|i: int|
            #![trigger pairs[i]]
            0 <= i < pairs.len() ==> counts.contains_key(*pairs[i].0) && counts[*pairs[i].0]
                == *pairs[i].1,
        forall|k: u32| #[trigger] counts.contains_key(k) ==> pairs.contains((&k, &counts[k])),
        trees.len() == pairs.len(),
        forall|i: int|
            0 <= i < trees.len() ==> (#[trigger] trees[i]) == (TreeNode {
                character: Some(*pairs[i].0 as char),
                frequency: *pairs[i].1,
                left: None,
                right: None,
            }),
    ensures
        forest_of(trees, text),
        complete(trees, text),
        trees.len() == counts.dom().len(),
{
    reveal(forest_of);
    reveal(complete);
    assert forall|i: int| 0 <= i < trees.len() implies tree_of(#[trigger] trees[i], text)
        && leaf_weights(trees[i]) == Map::<u32, usize>::empty().insert(*pairs[i].0, *pairs[i].1) by {
        let p = pairs[i];
        lemma_keys_are_characters(text, *p.0);
        lemma_leaf_belongs(text, trees[i]);
    }
    assert forall|i: int, j: int| #![trigger trees[i], trees[j]] 0 <= i < j < trees.len() implies leaf_weights(
        trees[i],
    ).dom().disjoint(leaf_weights(trees[j]).dom()) by {
        let p = pairs[i];
        let q = pairs[j];
        assert(p != q);
        assert(counts[*p.0] == *p.1 && counts[*q.0] == *q.1);
        assert(*p.0 != *q.0);
        assert(tree_of(trees[i], text) && tree_of(trees[j], text));
    }
    assert forall|key: u32| #[trigger] frequencies(text).contains_key(key) implies has_leaf(
        trees,
        key,
    ) by {
        assert(pairs.contains((&key, &counts[key])));
        let i = choose|i: int| 0 <= i < pairs.len() && pairs[i] == (&key, &counts[key]);
        assert(tree_of(trees[i], text));
        assert(leaf_weights(trees[i]).contains_key(key));
    }
}

} // verus!
