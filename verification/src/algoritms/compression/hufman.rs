//simple Hufman algorithm for compressing text
use crate::data_structures::tree::TreeNode;
use std::cmp::Ordering;

use std::collections::HashMap;
use vstd::prelude::*;
use vstd::std_specs::cmp::{PartialEqSpecImpl, PartialOrdSpecImpl};

verus! {

/// How often each character occurs in `text`, by code point.
pub open spec fn tally(text: Seq<char>) -> Map<u32, i32>
    decreases text.len(),
{
    if text.len() == 0 {
        Map::empty()
    } else {
        let before = tally(text.drop_last());
        let key = text.last() as u32;
        before.insert(
            key,
            if before.contains_key(key) {
                (before[key] + 1) as i32
            } else {
                1
            },
        )
    }
}

/// No character is counted more often than the text is long.
pub proof fn lemma_tally_bounded(text: Seq<char>, key: u32)
    ensures
        tally(text).contains_key(key) ==> 1 <= tally(text)[key] <= text.len() || text.len()
            > i32::MAX,
    decreases text.len(),
{
    if text.len() > 0 {
        lemma_tally_bounded(text.drop_last(), key);
    }
}

/// Counts the characters of a text that is no longer than an `i32` can
/// count.
pub fn count_frequencies(text: &str) -> (freq_map: HashMap<u32, i32>)
    requires
        text@.len() <= i32::MAX,
    ensures
        freq_map@ == tally(text@),
{
    let mut freq_map: HashMap<u32, i32> = HashMap::new();

    for c in chars: text.chars()
        invariant
            chars.seq() == text@,
            text@.len() <= i32::MAX,
            freq_map@ == tally(text@.take(chars.index() as int)),
    {
        proof {
            let i = chars.index() as int;
            assert(text@.take(i + 1).drop_last() =~= text@.take(i));
            lemma_tally_bounded(text@.take(i), c as u32);
        }
        let count = freq_map.entry(c as u32).or_insert(0);
        *count += 1;
    }
    proof {
        assert(text@.take(text@.len() as int) =~= text@);
    }

    freq_map
}

/// A tree as it waits in a heap. Of two nodes the one with the lower
/// frequency is the greater.
pub struct HeapNode {
    pub node: Box<TreeNode>,
}

impl PartialOrd for HeapNode {
    // Reverse ordering: lower frequencies have higher priority
    fn partial_cmp(&self, other: &Self) -> (order: Option<Ordering>) {
        if other.node.frequency < self.node.frequency {
            Some(Ordering::Less)
        } else if other.node.frequency > self.node.frequency {
            Some(Ordering::Greater)
        } else {
            Some(Ordering::Equal)
        }
    }
}

impl PartialOrdSpecImpl for HeapNode {
    open spec fn obeys_partial_cmp_spec() -> bool {
        true
    }

    open spec fn partial_cmp_spec(&self, other: &Self) -> Option<Ordering> {
        if other.node.frequency < self.node.frequency {
            Some(Ordering::Less)
        } else if other.node.frequency > self.node.frequency {
            Some(Ordering::Greater)
        } else {
            Some(Ordering::Equal)
        }
    }
}

impl PartialEq for HeapNode {
    /// Two nodes are equal when their frequencies are.
    fn eq(&self, other: &Self) -> (same: bool) {
        self.node.frequency == other.node.frequency
    }
}

impl PartialEqSpecImpl for HeapNode {
    open spec fn obeys_eq_spec() -> bool {
        true
    }

    open spec fn eq_spec(&self, other: &Self) -> bool {
        self.node.frequency == other.node.frequency
    }
}

} // verus!
