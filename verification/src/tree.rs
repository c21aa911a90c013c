//! The decision tree read out of the cache.
use vstd::prelude::*;
use crate::mining::Attribute;

verus! {

/// A node of the decision tree: a leaf predicts `max_class` with `error`
/// misclassified transactions; an inner node tests `root` and has one tree
/// in `left` (attribute false) and one in `right` (attribute true).
pub struct Tree {
    pub root: Attribute,
    pub left: Vec<Tree>,
    pub right: Vec<Tree>,
    pub is_leaf: bool,
    pub max_class: usize,
    pub error: Option<u64>,
}

impl Tree {
    pub fn new(root: Attribute) -> (r: Tree)
        ensures
            r.root == root,
            r.left@ == Seq::<Tree>::empty(),
            r.right@ == Seq::<Tree>::empty(),
            !r.is_leaf,
            r.max_class == 0,
            r.error is None,
    {
        Tree { root, left: Vec::new(), right: Vec::new(), is_leaf: false, max_class: 0, error: None }
    }
}

} // verus!
