//simple Huffman algorithm for compressing text
use crate::algoritms::compression::forest::{
    complete, forest_of, has_leaf, lemma_forest_push, lemma_forest_remove, lemma_fresh_forest,
    lemma_joined_belongs, lemma_keys_are_characters, lemma_last_tree,
};
use crate::data_structures::tree::TreeNode;

use std::cmp::Ordering;
use std::collections::HashMap;
use vstd::prelude::*;
use vstd::std_specs::cmp::{PartialEqSpecImpl, PartialOrdSpecImpl};
use vstd::std_specs::iter::IteratorSpec;

verus! {

/// How often each character occurs in `text`, by code point. The count of
/// a character goes up by one wherever the character stands.
pub open spec fn frequencies(text: Seq<char>) -> Map<u32, usize>
    decreases text.len(),
{
    if text.len() == 0 {
        Map::empty()
    } else {
        let before = frequencies(text.drop_last());
        let key = text.last() as u32;
        before.insert(
            key,
            if before.contains_key(key) {
                (before[key] + 1) as usize
            } else {
                1
            },
        )
    }
}

/// No character is counted more often than the text is long.
pub proof fn lemma_frequencies_bounded(text: Seq<char>, key: u32)
    ensures
        frequencies(text).contains_key(key) ==> 1 <= frequencies(text)[key] <= text.len()
            || text.len() > usize::MAX,
    decreases text.len(),
{
    if text.len() > 0 {
        lemma_frequencies_bounded(text.drop_last(), key);
    }
}

/// Counts how often each character occurs in the text. The counts are kept
/// by the code point of the character.
pub fn count_frequencies(text: &str) -> (freq_map: HashMap<u32, usize>)
    requires
        text@.len() <= usize::MAX,
    ensures
        freq_map@ == frequencies(text@),
{
    let mut freq_map: HashMap<u32, usize> = HashMap::new();

    for c in chars: text.chars()
        invariant
            chars.seq() == text@,
            text@.len() <= usize::MAX,
            freq_map@ == frequencies(text@.take(chars.index() as int)),
    {
        proof {
            let i = chars.index() as int;
            assert(text@.take(i + 1).drop_last() =~= text@.take(i));
            lemma_frequencies_bounded(text@.take(i), c as u32);
        }
        let count = freq_map.entry(c as u32).or_insert(0);
        *count += 1;
    }
    proof {
        assert(text@.take(text@.len() as int) =~= text@);
    }

    freq_map
}

/// The frequencies of the leaves below `node`, by the code point of their
/// characters. Where a character stands at two leaves, the one further to
/// the right counts.
pub open spec fn leaf_weights(node: TreeNode) -> Map<u32, usize>
    decreases node,
{
    if node.character is Some && node.leaf() {
        Map::empty().insert(node.character->0 as u32, node.frequency)
    } else {
        (match node.left {
            Some(l) => leaf_weights(*l),
            None => Map::empty(),
        }).union_prefer_right(
            match node.right {
                Some(r) => leaf_weights(*r),
                None => Map::empty(),
            },
        )
    }
}

/// The tree of a prefix code: every leaf has a character, every other node
/// has no character and two children, whose frequencies add up to its own
/// and whose leaves have no character in common.
pub open spec fn code_tree(node: TreeNode) -> bool
    decreases node,
{
    if node.leaf() {
        node.character is Some
    } else {
        &&& node.character is None
        &&& node.left is Some
        &&& node.right is Some
        &&& code_tree(*node.left->0)
        &&& code_tree(*node.right->0)
        &&& node.frequency == node.left->0.frequency + node.right->0.frequency
        &&& leaf_weights(*node.left->0).dom().disjoint(leaf_weights(*node.right->0).dom())
    }
}

/// A tree as it waits in the heap. Of two nodes the one with the lower
/// frequency is the greater, so that it leaves the heap first.
pub struct HeapNode {
    pub node: Box<TreeNode>,
}

impl PartialOrd for HeapNode {
    // Reverse ordering: lower frequencies have higher priority
    fn partial_cmp(&self, other: &Self) -> (order: Option<Ordering>) {
        if other.node.frequency < self.node.frequency {
            Some(Ordering::Less)
        } else if other.node.frequency > self.node.frequency {
            Some(Ordering::Greater)
        } else {
            Some(Ordering::Equal)
        }
    }
}

impl PartialOrdSpecImpl for HeapNode {
    open spec fn obeys_partial_cmp_spec() -> bool {
        true
    }

    open spec fn partial_cmp_spec(&self, other: &Self) -> Option<Ordering> {
        if other.node.frequency < self.node.frequency {
            Some(Ordering::Less)
        } else if other.node.frequency > self.node.frequency {
            Some(Ordering::Greater)
        } else {
            Some(Ordering::Equal)
        }
    }
}

impl PartialEq for HeapNode {
    /// Two nodes are equal when their frequencies are.
    fn eq(&self, other: &Self) -> (same: bool) {
        self.node.frequency == other.node.frequency
    }
}

impl PartialEqSpecImpl for HeapNode {
    open spec fn obeys_eq_spec() -> bool {
        true
    }

    open spec fn eq_spec(&self, other: &Self) -> bool {
        self.node.frequency == other.node.frequency
    }
}

/// A heap of trees from which the tree with the lowest frequency comes
/// out first.
pub struct NodeHeap {
    nodes: Vec<HeapNode>,
}

impl View for NodeHeap {
    type V = Seq<TreeNode>;

    /// The trees of the heap, in the order in which they are kept.
    closed spec fn view(&self) -> Seq<TreeNode> {
        Seq::new(self.nodes@.len(), |i: int| *self.nodes@[i].node)
    }
}

impl NodeHeap {
    /// The empty heap.
    pub fn new() -> (heap: Self)
        ensures
            heap@ == Seq::<TreeNode>::empty(),
    {
        let heap = NodeHeap { nodes: Vec::new() };
        assert(heap@ =~= Seq::<TreeNode>::empty());
        heap
    }

    /// The number of trees.
    pub fn len(&self) -> (len: usize)
        ensures
            len == self@.len(),
    {
        self.nodes.len()
    }

    /// Puts a tree into the heap.
    pub fn push(&mut self, node: HeapNode)
        ensures
            final(self)@ == old(self)@.push(*node.node),
    {
        self.nodes.push(node);
        assert(self@ =~= old(self)@.push(*node.node));
    }

    /// Takes the greatest node out of the heap: a tree whose frequency is
    /// the lowest. Of several such trees the one that came first leaves.
    pub fn pop(&mut self) -> (greatest: Option<HeapNode>)
        ensures
            match greatest {
                Some(node) => exists|at: int|
                    #![trigger old(self)@[at]]
                    {
                        &&& 0 <= at < old(self)@.len()
                        &&& *node.node == old(self)@[at]
                        &&& final(self)@ == old(self)@.remove(at)
                        &&& forall|j: int|
                            0 <= j < old(self)@.len() ==> old(self)@[at].frequency <= (
                            #[trigger] old(self)@[j]).frequency
                        &&& forall|j: int|
                            0 <= j < at ==> old(self)@[at].frequency < (
                            #[trigger] old(self)@[j]).frequency
                    },
                None => old(self)@.len() == 0 && final(self)@ == old(self)@,
            },
    {
        if self.nodes.len() == 0 {
            return None;
        }
        let mut best: usize = 0;
        for i in 1..self.nodes.len()
            invariant
                best < i,
                best < self.nodes@.len(),
                forall|j: int|
                    0 <= j < i ==> self.nodes@[best as int].node.frequency <= (
                    #[trigger] self.nodes@[j]).node.frequency,
                forall|j: int|
                    0 <= j < best ==> self.nodes@[best as int].node.frequency < (
                    #[trigger] self.nodes@[j]).node.frequency,
        {
            if self.nodes[best] < self.nodes[i] {
                best = i;
            }
        }
        let node = self.nodes.remove(best);
        proof {
            assert(self@ =~= old(self)@.remove(best as int));
            assert(*node.node == old(self)@[best as int]);
        }
        Some(node)
    }
}

/// The Huffman tree of the text, or nothing for the empty text.
///
/// The two trees with the lowest frequencies are joined under a new root
/// until one tree is left. Its leaves are the characters of the text with
/// their frequencies, and its root carries the length of the text.
pub fn build_huffman_tree(text: &str) -> (tree: Option<Box<TreeNode>>)
    requires
        text@.len() <= usize::MAX,
    ensures
        tree is None <==> text@.len() == 0,
        tree matches Some(root) ==> code_tree(*root) && leaf_weights(*root) == frequencies(text@)
            && root.frequency == text@.len(),
{
    let freq_map = count_frequencies(text);
    if freq_map.is_empty() {
        proof {
            if text@.len() > 0 {
                assert(frequencies(text@).contains_key(text@.last() as u32));
            }
        }
        return None;
    }
    //Create the leafs and add to tree

    let mut heap = NodeHeap::new();
    let ghost pairs = freq_map.iter().remaining();
    proof {
        vstd::std_specs::hash::axiom_spec_hash_map_iter(&freq_map);
    }
    for (ch, freq) in entries: freq_map.iter()
        invariant
            entries.seq() == pairs,
            pairs.no_duplicates(),
            text@.len() <= usize::MAX,
            freq_map@ == frequencies(text@),
            forall|i: int|
                #![trigger pairs[i]]
                0 <= i < pairs.len() ==> freq_map@.contains_key(*pairs[i].0) && freq_map@[*pairs[i].0]
                    == *pairs[i].1,
            heap@.len() == entries.index(),
            forall|i: int|
                0 <= i < heap@.len() ==> (#[trigger] heap@[i]) == (TreeNode {
                    character: Some(*pairs[i].0 as char),
                    frequency: *pairs[i].1,
                    left: None,
                    right: None,
                }),
    {
        proof {
            lemma_keys_are_characters(text@, *ch);
        }
        if let Some(character) = char::from_u32(*ch) {
            let leaf = TreeNode::new_leaf(character, *freq);
            heap.push(HeapNode { node: leaf });
        }
    }
    proof {
        lemma_fresh_forest(text@, freq_map@, pairs, heap@);
        if text@.len() == 0 {
            assert(freq_map@.dom() =~= Set::<u32>::empty());
        }
    }
    // Build tree

    while heap.len() > 1
        invariant
            heap@.len() >= 1,
            forest_of(heap@, text@),
            complete(heap@, text@),
            text@.len() <= usize::MAX,
        decreases heap@.len(),
    {
        // the two trees with the lowest frequencies
        let ghost f0 = heap@;
        let left = heap.pop().unwrap().node;
        let ghost f1 = heap@;
        let right = heap.pop().unwrap().node;
        let ghost f2 = heap@;
        proof {
            let i = choose|at: int|
                #![trigger f0[at]]
                0 <= at < f0.len() && *left == f0[at] && f1 == f0.remove(at);
            lemma_forest_remove(f0, text@, i);
            let j = choose|at: int|
                #![trigger f1[at]]
                0 <= at < f1.len() && *right == f1[at] && f2 == f1.remove(at);
            lemma_forest_remove(f1, text@, j);
            assert(leaf_weights(f1[j]).dom().disjoint(leaf_weights(f0[i]).dom()));
            lemma_joined_belongs(
                text@,
                *left,
                *right,
                TreeNode {
                    character: None,
                    frequency: (left.frequency + right.frequency) as usize,
                    left: Some(left),
                    right: Some(right),
                },
            );
        }

        // create the parent
        let combined = left.frequency + right.frequency;
        let parent = TreeNode::new_internal(combined, left, right);
        proof {
            assert forall|k: int| 0 <= k < f2.len() implies leaf_weights(#[trigger] f2[k]).dom().disjoint(
                leaf_weights(*parent).dom(),
            ) by {
                let i = choose|at: int|
                    #![trigger f0[at]]
                    0 <= at < f0.len() && *left == f0[at] && f1 == f0.remove(at);
                let j = choose|at: int|
                    #![trigger f1[at]]
                    0 <= at < f1.len() && *right == f1[at] && f2 == f1.remove(at);
                let pk = if k < j {
                    k
                } else {
                    k + 1
                };
                assert(f2[k] == f1[pk]);
                assert(leaf_weights(f1[pk]).dom().disjoint(leaf_weights(*left).dom()));
                assert(leaf_weights(f2[k]).dom().disjoint(leaf_weights(*right).dom()));
            }
            lemma_forest_push(f2, text@, *parent);
            assert(complete(f2.push(*parent), text@)) by {
                reveal(complete);
                assert forall|key: u32| #[trigger]
                    frequencies(text@).contains_key(key) implies has_leaf(f2.push(*parent), key) by {
                    assert(has_leaf(f0, key));
                    assert(has_leaf(f1, key) || leaf_weights(*left).contains_key(key));
                    if has_leaf(f1, key) {
                        assert(has_leaf(f2, key) || leaf_weights(*right).contains_key(key));
                    }
                }
            }
        }

        //push back
        heap.push(HeapNode { node: parent });
    }
    proof {
        lemma_last_tree(heap@, text@);
    }

    //root node
    match heap.pop() {
        Some(heap_node) => Some(heap_node.node),
        None => None,
    }
}

/// The code words of the leaves below `node`, where `prefix` is the path
/// to `node`: a step to the left adds '0' to the path, a step to the right
/// adds '1'. Where a character stands at two leaves, the one further to the
/// right counts.
pub open spec fn code_table_from(node: TreeNode, prefix: Seq<char>) -> Map<u32, Seq<char>>
    decreases node,
{
    if node.character is Some && node.leaf() {
        Map::empty().insert(node.character->0 as u32, prefix)
    } else {
        (match node.left {
            Some(l) => code_table_from(*l, prefix.push('0')),
            None => Map::empty(),
        }).union_prefer_right(
            match node.right {
                Some(r) => code_table_from(*r, prefix.push('1')),
                None => Map::empty(),
            },
        )
    }
}

/// The code words of the tree with root `root`. A tree of one leaf gives
/// its character the code word "0".
pub open spec fn code_table(root: TreeNode) -> Map<u32, Seq<char>> {
    if root.leaf() {
        match root.character {
            Some(c) => Map::empty().insert(c as u32, seq!['0']),
            None => Map::empty(),
        }
    } else {
        code_table_from(root, Seq::empty())
    }
}

/// A table of code words as plain values.
pub open spec fn texts(codes: Map<u32, String>) -> Map<u32, Seq<char>> {
    codes.map_values(|word: String| word@)
}

/// A new code word in the table is a new text in its plain form.
pub proof fn lemma_texts_insert(codes: Map<u32, String>, key: u32, word: String)
    ensures
        texts(codes.insert(key, word)) == texts(codes).insert(key, word@),
{
    assert(texts(codes.insert(key, word)) =~= texts(codes).insert(key, word@));
}

/// The empty table has no text.
pub proof fn lemma_texts_empty()
    ensures
        texts(Map::<u32, String>::empty()) == Map::<u32, Seq<char>>::empty(),
{
    assert(texts(Map::<u32, String>::empty()) =~= Map::<u32, Seq<char>>::empty());
}

/// The code word of every character of the tree, by code point.
pub fn generate_codes(root: &TreeNode) -> (codes: HashMap<u32, String>)
    ensures
        texts(codes@) == code_table(*root),
{
    let mut codes: HashMap<u32, String> = HashMap::new();
    proof {
        lemma_texts_empty();
    }

    if root.is_leaf() {
        if let Some(ch) = root.character {
            let word = "0".to_string();
            proof {
                reveal_strlit("0");
                lemma_texts_insert(codes@, ch as u32, word);
                assert(word@ =~= seq!['0']);
            }
            codes.insert(ch as u32, word);
        }
        return codes;
    }
    let mut current_code = String::new();
    generate_codes_helper(root, &mut current_code, &mut codes);
    proof {
        assert(texts(codes@) =~= code_table(*root));
    }

    codes
}

/// Adds to `codes` the code words of the leaves below `node`, each behind
/// `current_code`, the path to `node`. `current_code` is as it was when the
/// function returns.
pub fn generate_codes_helper(
    node: &TreeNode,
    current_code: &mut String,
    codes: &mut HashMap<u32, String>,
)
    ensures
        final(current_code)@ == old(current_code)@,
        texts(final(codes)@) == texts(old(codes)@).union_prefer_right(
            code_table_from(*node, old(current_code)@),
        ),
    decreases node,
{
    let ghost table = texts(codes@);
    let ghost prefix = current_code@;
    if let Some(char) = node.character {
        if node.is_leaf() {
            proof {
                lemma_texts_insert(codes@, char as u32, *current_code);
                assert(table.insert(char as u32, prefix) =~= table.union_prefer_right(
                    code_table_from(*node, prefix),
                ));
            }
            codes.insert(char as u32, current_code.clone());
            return ;
        }
    }
    if let Some(left) = &node.left {
        current_code.push('0');
        generate_codes_helper(left, current_code, codes);
        current_code.pop();  // backtrace
        proof {
            assert(current_code@ =~= prefix);
        }
    }
    let ghost with_left = texts(codes@);

    if let Some(right) = &node.right {
        current_code.push('1');
        generate_codes_helper(right, current_code, codes);
        current_code.pop();  //backtrace
        proof {
            assert(current_code@ =~= prefix);
        }
    }
    proof {
        assert(texts(codes@) =~= table.union_prefer_right(code_table_from(*node, prefix)));
    }
}

/// The text in code: the code words of its characters, one after the
/// other.
pub open spec fn encoded(text: Seq<char>, table: Map<u32, Seq<char>>) -> Seq<char>
    decreases text.len(),
{
    if text.len() == 0 {
        Seq::empty()
    } else {
        encoded(text.drop_last(), table) + table[text.last() as u32]
    }
}

/// The first character of the text that has no code word, if there is one.
pub open spec fn first_missing(text: Seq<char>, table: Map<u32, Seq<char>>) -> Option<char>
    decreases text.len(),
{
    if text.len() == 0 {
        None
    } else {
        match first_missing(text.drop_last(), table) {
            Some(c) => Some(c),
            None => if table.contains_key(text.last() as u32) {
                None
            } else {
                Some(text.last())
            },
        }
    }
}

/// A character without a code word stops the encoding with this message.
pub open spec fn missing_message(ch: char) -> Seq<char> {
    "Character '"@ + seq![ch] + "' not in codes"@
}

/// `format!` puts the character between the two parts of the message.
#[verifier::external_body]
fn missing_character_message(ch: char) -> (message: String)
    ensures
        message@ == missing_message(ch),
{
    format!("Character '{}' not in codes", ch)
}

/// Puts the text into code: the code words of its characters, one after the
/// other. A character without a code word stops the encoding with an error
/// that names it.
pub fn encode(text: &str, codes: &HashMap<u32, String>) -> (result: Result<String, String>)
    ensures
        match result {
            Ok(bits) => first_missing(text@, texts(codes@)) is None && bits@ == encoded(
                text@,
                texts(codes@),
            ),
            Err(message) => first_missing(text@, texts(codes@)) matches Some(ch) && message@
                == missing_message(ch),
        },
{
    let mut result = String::new();

    for ch in chars: text.chars()
        invariant
            chars.seq() == text@,
            first_missing(text@.take(chars.index() as int), texts(codes@)) is None,
            result@ == encoded(text@.take(chars.index() as int), texts(codes@)),
    {
        proof {
            let i = chars.index() as int;
            assert(text@.take(i + 1).drop_last() =~= text@.take(i));
        }
        match codes.get(&(ch as u32)) {
            Some(code) => result.push_str(code.as_str()),
            None => {
                proof {
                    lemma_first_missing_stays(text@, chars.index() + 1, texts(codes@));
                }
                return Err(missing_character_message(ch));
            },
        }
    }
    proof {
        assert(text@.take(text@.len() as int) =~= text@);
    }

    Ok(result)
}

/// A character that is missing in the front part of a text is the first
/// that is missing in the text.
pub proof fn lemma_first_missing_stays(text: Seq<char>, upto: int, table: Map<u32, Seq<char>>)
    requires
        0 <= upto <= text.len(),
        first_missing(text.take(upto), table) is Some,
    ensures
        first_missing(text, table) == first_missing(text.take(upto), table),
    decreases text.len() - upto,
{
    if upto < text.len() {
        assert(text.take(upto + 1).drop_last() =~= text.take(upto));
        lemma_first_missing_stays(text, upto + 1, table);
    } else {
        assert(text.take(upto) =~= text);
    }
}

/// A '0' where the tree has no left child stops the decoding with this
/// message.
pub open spec fn no_left_message() -> Seq<char> {
    "Invalid encoded string: tried to go left but no left child"@
}

/// A '1' where the tree has no right child stops the decoding with this
/// message.
pub open spec fn no_right_message() -> Seq<char> {
    "Invalid encoded string: tried to go right but no right child"@
}

/// A character that is neither '0' nor '1' stops the decoding with this
/// message.
pub open spec fn invalid_bit_message(bit: char) -> Seq<char> {
    "Invalid bit: '"@ + seq![bit] + "' (expected '0' or '1')"@
}

/// `format!` puts the character between the two parts of the message.
#[verifier::external_body]
fn invalid_bit(bit: char) -> (message: String)
    ensures
        message@ == invalid_bit_message(bit),
{
    format!("Invalid bit: '{}' (expected '0' or '1')", bit)
}

/// `decoding`, with `front` before what was decoded.
pub open spec fn after(front: Seq<char>, decoding: Result<Seq<char>, Seq<char>>) -> Result<
    Seq<char>,
    Seq<char>,
> {
    match decoding {
        Ok(text) => Ok(front + text),
        Err(message) => Err(message),
    }
}

/// Decoding `bits` from the node `at` of `tree` on: each bit is a step to
/// a child, a leaf with a character gives that character and leads back to
/// the root. Bits after the last leaf are left aside.
pub open spec fn decode_steps(tree: TreeNode, at: TreeNode, bits: Seq<char>) -> Result<
    Seq<char>,
    Seq<char>,
>
    decreases bits.len(),
{
    if bits.len() == 0 {
        Ok(Seq::empty())
    } else {
        let next = if bits[0] == '0' {
            at.left
        } else {
            at.right
        };
        if bits[0] != '0' && bits[0] != '1' {
            Err(invalid_bit_message(bits[0]))
        } else if next is None {
            Err(
                if bits[0] == '0' {
                    no_left_message()
                } else {
                    no_right_message()
                },
            )
        } else if next->0.character is Some && next->0.leaf() {
            after(seq![next->0.character->0], decode_steps(tree, tree, bits.drop_first()))
        } else {
            decode_steps(tree, *next->0, bits.drop_first())
        }
    }
}

/// What `bits` stand for in the code of `tree`. In a tree of one leaf every
/// bit, whatever it is, stands for the character of the leaf.
pub open spec fn decoded(tree: TreeNode, bits: Seq<char>) -> Result<Seq<char>, Seq<char>> {
    if tree.leaf() {
        match tree.character {
            Some(ch) => Ok(Seq::new(bits.len(), |i: int| ch)),
            None => Ok(Seq::empty()),
        }
    } else {
        decode_steps(tree, tree, bits)
    }
}

/// Reads the text out of its code, along the tree of the code. A bit that
/// leads to no child, or a character that is no bit, stops the decoding
/// with an error.
pub fn decode(encoded: &str, tree: &TreeNode) -> (result: Result<String, String>)
    ensures
        match result {
            Ok(text) => decoded(*tree, encoded@) == Ok::<Seq<char>, Seq<char>>(text@),
            Err(message) => decoded(*tree, encoded@) == Err::<Seq<char>, Seq<char>>(message@),
        },
{
    let mut result = String::new();
    let mut current_node = tree;

    if current_node.is_leaf() {
        if let Some(ch) = current_node.character {
            for _bit in bits: encoded.chars()
                invariant
                    bits.seq() == encoded@,
                    result@ == Seq::new(bits.index() as nat, |i: int| ch),
            {
                result.push(ch);
                proof {
                    assert(result@ =~= Seq::new((bits.index() + 1) as nat, |i: int| ch));
                }
            }
        }
        return Ok(result);
    }
    proof {
        let all = decode_steps(*tree, *tree, encoded@);
        assert(encoded@.skip(0) =~= encoded@);
        if all is Ok {
            assert(result@ + all->Ok_0 =~= all->Ok_0);
        }
    }
    for bit in bits: encoded.chars()
        invariant
            bits.seq() == encoded@,
            !tree.leaf(),
            decoded(*tree, encoded@) == after(
                result@,
                decode_steps(*tree, *current_node, encoded@.skip(bits.index() as int)),
            ),
    {
        proof {
            let i = bits.index() as int;
            assert(encoded@.skip(i).drop_first() =~= encoded@.skip(i + 1));
            assert(encoded@.skip(i)[0] == bit);
        }
        if bit == '0' {
            if let Some(left) = &current_node.left {
                current_node = left;
            } else {
                return Err(
                    "Invalid encoded string: tried to go left but no left child".to_string(),
                );
            }
        } else if bit == '1' {
            if let Some(right) = &current_node.right {
                current_node = right;
            } else {
                return Err(
                    "Invalid encoded string: tried to go right but no right child".to_string(),
                );
            }
        } else {
            return Err(invalid_bit(bit));
        }
        if let Some(char) = current_node.character {
            if current_node.is_leaf() {
                let ghost before = result@;
                result.push(char);
                current_node = tree;
                proof {
                    let rest = decode_steps(*tree, *tree, encoded@.skip(bits.index() + 1));
                    assert(after(before, after(seq![char], rest)) =~= after(result@, rest)) by {
                        if rest is Ok {
                            assert(before + (seq![char] + rest->Ok_0) =~= before.push(char)
                                + rest->Ok_0);
                        }
                    }
                }
            }
        }
    }
    proof {
        assert(encoded@.skip(encoded@.len() as int) =~= Seq::<char>::empty());
        assert(result@ + Seq::<char>::empty() =~= result@);
    }

    Ok(result)
}

} // verus!
