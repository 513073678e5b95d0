//! What holds of the code of a code tree: a text that is put into code and
//! taken out of it again comes back as it was.

use crate::algoritms::compression::huffman::{
    after, code_table, code_table_from, code_tree, decode_steps, decoded, encoded, first_missing,
    frequencies, leaf_weights,
};
use crate::data_structures::tree::TreeNode;
use vstd::prelude::*;

verus! {

/// Every character of `text` has a leaf in the tree.
pub open spec fn spelled_by(text: Seq<char>, tree: TreeNode) -> bool {
    forall|i: int| 0 <= i < text.len() ==> leaf_weights(tree).contains_key(#[trigger] text[i] as u32)
}

/// The code words below a node are the paths from the node, each behind
/// the path to the node. There is one for each leaf.
pub proof fn lemma_code_words(node: TreeNode, prefix: Seq<char>, key: u32)
    ensures
        code_table_from(node, prefix).contains_key(key) <==> leaf_weights(node).contains_key(key),
        code_table_from(node, prefix).contains_key(key) ==> code_table_from(node, prefix)[key]
            == prefix + code_table_from(node, Seq::empty())[key],
    decreases node,
{
    let none = Seq::<char>::empty();
    if node.character is Some && node.leaf() {
        assert(prefix + none =~= prefix);
    } else {
        if node.left is Some {
            lemma_code_words(*node.left->0, prefix.push('0'), key);
            lemma_code_words(*node.left->0, none.push('0'), key);
        }
        if node.right is Some {
            lemma_code_words(*node.right->0, prefix.push('1'), key);
            lemma_code_words(*node.right->0, none.push('1'), key);
        }
        if code_table_from(node, prefix).contains_key(key) {
            if node.right is Some && leaf_weights(*node.right->0).contains_key(key) {
                let word = code_table_from(*node.right->0, none)[key];
                assert(prefix.push('1') + word =~= prefix + (none.push('1') + word));
            } else {
                let word = code_table_from(*node.left->0, none)[key];
                assert(prefix.push('0') + word =~= prefix + (none.push('0') + word));
            }
        }
    }
}

/// The code word of a character starts with the step to the child below
/// which the leaf of the character stands, and goes on with the code word
/// that the character has below that child.
pub proof fn lemma_first_step(node: TreeNode, key: u32)
    requires
        code_tree(node),
        !node.leaf(),
        leaf_weights(node).contains_key(key),
    ensures
        leaf_weights(*node.right->0).contains_key(key) ==> code_table_from(node, Seq::empty())[key]
            == seq!['1'] + code_table_from(*node.right->0, Seq::empty())[key],
        !leaf_weights(*node.right->0).contains_key(key) ==> leaf_weights(
            *node.left->0,
        ).contains_key(key) && code_table_from(node, Seq::empty())[key] == seq!['0']
            + code_table_from(*node.left->0, Seq::empty())[key],
{
    let none = Seq::<char>::empty();
    lemma_code_words(*node.left->0, none.push('0'), key);
    lemma_code_words(*node.right->0, none.push('1'), key);
    assert(none.push('0') =~= seq!['0']);
    assert(none.push('1') =~= seq!['1']);
}

/// No code word below a node of a code tree is the beginning of the code
/// word of another character.
pub proof fn lemma_prefix_free(node: TreeNode, one: u32, other: u32)
    requires
        code_tree(node),
        leaf_weights(node).contains_key(one),
        leaf_weights(node).contains_key(other),
        one != other,
    ensures
        !code_table_from(node, Seq::empty())[one].is_prefix_of(
            code_table_from(node, Seq::empty())[other],
        ),
    decreases node,
{
    let none = Seq::<char>::empty();
    if !node.leaf() {
        lemma_first_step(node, one);
        lemma_first_step(node, other);
        let left = *node.left->0;
        let right = *node.right->0;
        let one_right = leaf_weights(right).contains_key(one);
        let other_right = leaf_weights(right).contains_key(other);
        let word = code_table_from(node, none)[one];
        let longer = code_table_from(node, none)[other];
        if one_right == other_right {
            let child = if one_right {
                right
            } else {
                left
            };
            let step = if one_right {
                '1'
            } else {
                '0'
            };
            lemma_prefix_free(child, one, other);
            let below = code_table_from(child, none)[one];
            let below_longer = code_table_from(child, none)[other];
            if word.is_prefix_of(longer) {
                assert(word =~= seq![step] + below);
                assert(longer =~= seq![step] + below_longer);
                assert(word == longer.subrange(0, word.len() as int));
                assert forall|i: int| 0 <= i < below.len() implies below[i] == below_longer[i] by {
                    assert(below[i] == word[i + 1]);
                    assert(word[i + 1] == longer.subrange(0, word.len() as int)[i + 1]);
                    assert(longer[i + 1] == below_longer[i]);
                }
                assert(below =~= below_longer.subrange(0, below.len() as int));
            }
        } else {
            assert(word[0] != longer[0]);
        }
    }
}

/// Decoding the code word of a character from the node below which its
/// leaf stands gives the character, and goes on at the root with the bits
/// that follow.
pub proof fn lemma_decode_word(tree: TreeNode, node: TreeNode, key: u32, rest: Seq<char>)
    requires
        code_tree(node),
        !node.leaf(),
        leaf_weights(node).contains_key(key),
    ensures
        decode_steps(tree, node, code_table_from(node, Seq::empty())[key] + rest) == after(
            seq![key as char],
            decode_steps(tree, tree, rest),
        ),
    decreases node,
{
    let none = Seq::<char>::empty();
    lemma_first_step(node, key);
    let right = leaf_weights(*node.right->0).contains_key(key);
    let child = if right {
        *node.right->0
    } else {
        *node.left->0
    };
    let step = if right {
        '1'
    } else {
        '0'
    };
    let word = code_table_from(child, none)[key];
    let bits = code_table_from(node, none)[key] + rest;
    assert(bits =~= seq![step] + (word + rest));
    assert(bits[0] == step);
    assert(bits.drop_first() =~= word + rest);
    if child.leaf() {
        let ch = child.character->0;
        assert(key == ch as u32);
        vstd::utf8::char_u32_cast(ch, key);
        assert(word =~= none);
        assert(word + rest =~= rest);
    } else {
        lemma_decode_word(tree, child, key, rest);
    }
}

/// A text in code is the code word of its first character and then the
/// rest of the text in code.
pub proof fn lemma_encoded_front(text: Seq<char>, table: Map<u32, Seq<char>>)
    requires
        text.len() > 0,
    ensures
        encoded(text, table) == table[text[0] as u32] + encoded(text.drop_first(), table),
    decreases text.len(),
{
    if text.len() == 1 {
        assert(text.drop_last() =~= Seq::<char>::empty());
        assert(text.drop_first() =~= Seq::<char>::empty());
        assert(encoded(text, table) =~= table[text[0] as u32] + encoded(text.drop_first(), table));
    } else {
        lemma_encoded_front(text.drop_last(), table);
        assert(text.drop_last().drop_first() =~= text.drop_first().drop_last());
        assert(text.drop_last()[0] == text[0]);
        assert(text.drop_first().last() == text.last());
        assert(encoded(text, table) =~= table[text[0] as u32] + encoded(text.drop_first(), table));
    }
}

/// No character of a text that the tree spells is without a code word.
pub proof fn lemma_nothing_missing(text: Seq<char>, tree: TreeNode)
    requires
        spelled_by(text, tree),
        tree.leaf() ==> tree.character is Some,
    ensures
        first_missing(text, code_table(tree)) is None,
    decreases text.len(),
{
    if text.len() > 0 {
        let front = text.drop_last();
        assert forall|i: int| 0 <= i < front.len() implies leaf_weights(tree).contains_key(
            #[trigger] front[i] as u32,
        ) by {
            assert(front[i] == text[i]);
        }
        lemma_nothing_missing(front, tree);
        assert(leaf_weights(tree).contains_key(text[text.len() - 1] as u32));
        lemma_code_words(tree, Seq::empty(), text.last() as u32);
    }
}

/// In the code of a tree with more than one leaf, a text that the tree
/// spells comes back when its code is decoded.
pub proof fn lemma_round_trip_steps(text: Seq<char>, tree: TreeNode)
    requires
        code_tree(tree),
        !tree.leaf(),
        spelled_by(text, tree),
    ensures
        decode_steps(tree, tree, encoded(text, code_table(tree))) == Ok::<Seq<char>, Seq<char>>(text),
    decreases text.len(),
{
    let table = code_table(tree);
    if text.len() == 0 {
        assert(text =~= Seq::<char>::empty());
    } else {
        let rest = text.drop_first();
        assert forall|i: int| 0 <= i < rest.len() implies leaf_weights(tree).contains_key(
            #[trigger] rest[i] as u32,
        ) by {
            assert(rest[i] == text[i + 1]);
        }
        lemma_round_trip_steps(rest, tree);
        lemma_encoded_front(text, table);
        let key = text[0] as u32;
        assert(leaf_weights(tree).contains_key(key));
        lemma_decode_word(tree, tree, key, encoded(rest, table));
        vstd::utf8::char_u32_cast(text[0], key);
        assert(seq![text[0]] + rest =~= text);
    }
}

/// In the code of a tree of one leaf, a text of that one character has a
/// '0' for each of its characters.
pub proof fn lemma_one_leaf_code(text: Seq<char>, tree: TreeNode)
    requires
        tree.leaf(),
        tree.character is Some,
        spelled_by(text, tree),
    ensures
        encoded(text, code_table(tree)).len() == text.len(),
        forall|i: int| 0 <= i < text.len() ==> #[trigger] text[i] == tree.character->0,
    decreases text.len(),
{
    let ch = tree.character->0;
    assert forall|i: int| 0 <= i < text.len() implies #[trigger] text[i] == ch by {
        assert(leaf_weights(tree).contains_key(text[i] as u32));
        vstd::utf8::char_u32_cast(text[i], ch as u32);
        vstd::utf8::char_u32_cast(ch, ch as u32);
    }
    if text.len() > 0 {
        let front = text.drop_last();
        assert forall|i: int| 0 <= i < front.len() implies leaf_weights(tree).contains_key(
            #[trigger] front[i] as u32,
        ) by {
            assert(front[i] == text[i]);
        }
        lemma_one_leaf_code(front, tree);
        assert(text.last() == text[text.len() - 1]);
    }
}

/// A text that a code tree spells can be put into the code of the tree, and
/// decoding the code gives the text.
pub proof fn lemma_round_trip(text: Seq<char>, tree: TreeNode)
    requires
        code_tree(tree),
        spelled_by(text, tree),
    ensures
        first_missing(text, code_table(tree)) is None,
        decoded(tree, encoded(text, code_table(tree))) == Ok::<Seq<char>, Seq<char>>(text),
{
    lemma_nothing_missing(text, tree);
    if tree.leaf() {
        lemma_one_leaf_code(text, tree);
        let bits = encoded(text, code_table(tree));
        assert(Seq::new(bits.len(), |i: int| tree.character->0) =~= text);
    } else {
        lemma_round_trip_steps(text, tree);
    }
}

/// The tree whose leaves carry the frequencies of a text spells the text.
pub proof fn lemma_own_tree_spells(text: Seq<char>, tree: TreeNode)
    requires
        leaf_weights(tree) == frequencies(text),
    ensures
        spelled_by(text, tree),
    decreases text.len(),
{
    assert forall|i: int| 0 <= i < text.len() implies frequencies(text).contains_key(
        #[trigger] text[i] as u32,
    ) by {
        lemma_counted(text, i);
    }
}

/// Every character of a text is among its frequencies.
pub proof fn lemma_counted(text: Seq<char>, i: int)
    requires
        0 <= i < text.len(),
    ensures
        frequencies(text).contains_key(text[i] as u32),
    decreases text.len(),
{
    if i < text.len() - 1 {
        assert(text.drop_last()[i] == text[i]);
        lemma_counted(text.drop_last(), i);
    }
}

} // verus!
