//! The binary tree of a prefix code: a leaf stands for a character, an inner
//! node joins two subtrees.

use vstd::prelude::*;

verus! {

/// A node of a code tree: a character at a leaf, the frequency of the
/// characters below the node, and the two subtrees.
pub struct TreeNode {
    pub character: Option<char>,
    pub frequency: usize,
    pub left: Option<Box<TreeNode>>,
    pub right: Option<Box<TreeNode>>,
}

impl TreeNode {
    /// The node has no child.
    pub open spec fn leaf(self) -> bool {
        self.left is None && self.right is None
    }

    // Leaf, must have a char.
    pub fn new_leaf(character: char, frequency: usize) -> (node: Box<Self>)
        ensures
            *node == (TreeNode { character: Some(character), frequency, left: None, right: None }),
    {
        Box::new(Self { character: Some(character), frequency, left: None, right: None })
    }

    // internal node, no char just connects to other nodes
    pub fn new_internal(frequency: usize, left: Box<TreeNode>, right: Box<TreeNode>) -> (node: Box<
        Self,
    >)
        ensures
            *node == (TreeNode { character: None, frequency, left: Some(left), right: Some(right) }),
    {
        Box::new(Self { character: None, frequency, left: Some(left), right: Some(right) })
    }

    /// Has the node no child?
    pub fn is_leaf(&self) -> (leaf: bool)
        ensures
            leaf == self.leaf(),
    {
        self.left.is_none() && self.right.is_none()
    }
}

} // verus!
