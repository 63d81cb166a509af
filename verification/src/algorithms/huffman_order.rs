use vstd::prelude::*;

use std::cmp::Ordering;

use super::huffman::{precedes, HuffmanNode};
use vstd::std_specs::cmp::{PartialEqSpecImpl, PartialOrdSpecImpl};

verus! {

/// Nodes compare equal when their frequencies are equal.
impl PartialEq for HuffmanNode {
    fn eq(&self, other: &Self) -> (r: bool) {
        self.frequency == other.frequency
    }
}

impl Eq for HuffmanNode {}

impl PartialEqSpecImpl for HuffmanNode {
    open spec fn obeys_eq_spec() -> bool {
        true
    }

    open spec fn eq_spec(&self, other: &HuffmanNode) -> bool {
        self.frequency == other.frequency
    }
}

/// The order in which a max-first queue would hand out nodes for combining: the node that
/// precedes the other (lower frequency, then lower least symbol) is the greater.
pub open spec fn node_order(a: HuffmanNode, b: HuffmanNode) -> Ordering {
    if precedes(b, a) {
        Ordering::Less
    } else if precedes(a, b) {
        Ordering::Greater
    } else {
        Ordering::Equal
    }
}

impl PartialOrd for HuffmanNode {
    fn partial_cmp(&self, other: &Self) -> (r: Option<Ordering>) {
        if HuffmanNode::precedes(other, self) {
            Some(Ordering::Less)
        } else if HuffmanNode::precedes(self, other) {
            Some(Ordering::Greater)
        } else {
            Some(Ordering::Equal)
        }
    }
}

impl PartialOrdSpecImpl for HuffmanNode {
    open spec fn obeys_partial_cmp_spec() -> bool {
        true
    }

    open spec fn partial_cmp_spec(&self, other: &HuffmanNode) -> Option<Ordering> {
        Some(node_order(*self, *other))
    }
}

} // verus!
