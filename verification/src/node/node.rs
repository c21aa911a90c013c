//! What the search records for an itemset.
use vstd::prelude::*;
use crate::mining::Attribute;

verus! {

/// The search's record for an itemset. Errors are numbers of misclassified
/// transactions; `u64::MAX` stands for "no tree found (yet)".
#[derive(Clone, Copy)]
pub struct Node {
    pub is_explored: bool,
    pub current_depth: u64,
    pub test: Attribute,
    pub leaf_error: u64,
    pub current_discrepancy: Option<u64>,
    pub node_error: u64,
    pub lower_bound: u64,
    pub max_class: usize,
    pub is_leaf: bool,
}

/// The record of an itemset that has not been looked at: no error known.
pub open spec fn fresh_node(test: Attribute, current_depth: u64) -> Node {
    Node {
        is_explored: false,
        current_depth,
        test,
        current_discrepancy: None,
        leaf_error: u64::MAX,
        node_error: u64::MAX,
        lower_bound: 0,
        max_class: usize::MAX,
        is_leaf: false,
    }
}

impl Node {
    pub fn new(test: Attribute, current_depth: u64) -> (r: Node)
        ensures
            r == fresh_node(test, current_depth),
    {
        Node {
            is_explored: false,
            current_depth,
            test,
            current_discrepancy: None,
            leaf_error: u64::MAX,
            node_error: u64::MAX,
            lower_bound: 0,
            max_class: usize::MAX,
            is_leaf: false,
        }
    }
}

} // verus!
