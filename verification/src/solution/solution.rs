//! Reading the best tree out of the cache that the search filled.
use vstd::prelude::*;
use crate::cache::trie::{child_index, lemma_child_index_bounds, node_at, Trie, TrieNode};
use crate::mining::{copy_items, lemma_sorted_items_in_order, sort_items, sorted_items, Attribute, Item};
use crate::tree::Tree;

verus! {

/// The itemset of a child: `parent` with `(test, value)`, in order.
pub open spec fn child_path(parent: Seq<Item>, test: Attribute, value: bool) -> Seq<Item> {
    sorted_items(parent.push((test, value)))
}

/// Whether the tree below the itemset `path` can be read out of the trie
/// rooted at `root` within `fuel` levels: the itemset is held, and unless
/// its node ends the tree (its test is the path's last attribute, or it is
/// a leaf), both children can be read.
pub open spec fn extractable(root: TrieNode, path: Seq<Item>, fuel: nat) -> bool
    decreases fuel,
{
    match node_at(root, path) {
        None => false,
        Some(n) => {
            &&& path.len() > 0
            &&& (path.last().0 == n.data.test || n.data.is_leaf || (fuel > 0 && extractable(
                root,
                child_path(path, n.data.test, false),
                (fuel - 1) as nat,
            ) && extractable(root, child_path(path, n.data.test, true), (fuel - 1) as nat)))
        },
    }
}

/// `t` is the tree read below the itemset `path`.
pub open spec fn tree_below(t: Tree, root: TrieNode, path: Seq<Item>, fuel: nat) -> bool
    decreases fuel,
{
    match node_at(root, path) {
        None => false,
        Some(n) => {
            let d = n.data;
            &&& t.root == d.test
            &&& if path.last().0 == d.test || d.is_leaf {
                &&& t.is_leaf
                &&& t.max_class == d.max_class
                &&& t.error == Some(d.node_error)
                &&& t.left@.len() == 0
                &&& t.right@.len() == 0
            } else {
                &&& fuel > 0
                &&& !t.is_leaf
                &&& t.max_class == 0
                &&& t.error is None
                &&& t.left@.len() == 1
                &&& t.right@.len() == 1
                &&& tree_below(t.left@[0], root, child_path(path, d.test, false), (fuel - 1) as nat)
                &&& tree_below(t.right@[0], root, child_path(path, d.test, true), (fuel - 1) as nat)
            }
        },
    }
}

/// Whether the search left a tree in the cache: it finished and found a
/// test at the root.
pub open spec fn has_solution(cache: Trie) -> bool {
    cache.is_done && cache.root.data.test != usize::MAX
}

/// Enough levels to read both subtrees of the root.
pub open spec fn solution_fuel(cache: Trie) -> nat {
    choose|f: nat|
        extractable(cache.root, seq![(cache.root.data.test, false)], f) && extractable(
            cache.root,
            seq![(cache.root.data.test, true)],
            f,
        )
}

/// The trees below the root's two children can be read out of the cache.
pub open spec fn solution_extractable(cache: Trie) -> bool {
    has_solution(cache) ==> exists|f: nat|
        extractable(cache.root, seq![(cache.root.data.test, false)], f) && extractable(
            cache.root,
            seq![(cache.root.data.test, true)],
            f,
        )
}

/// The number of levels of the trie below `node`, `node` included.
pub open spec fn height(node: TrieNode) -> nat
    decreases node, 1nat, 0int,
{
    1 + heights_below(node, 0)
}

/// The largest height of the children of `node` from the `i`-th on.
pub open spec fn heights_below(node: TrieNode, i: int) -> nat
    decreases node, 0nat, node.sub_trie.edges@.len() - i,
{
    let e = node.sub_trie.edges@;
    if 0 <= i < e.len() {
        let h = height(e[i]);
        let rest = heights_below(node, i + 1);
        if h > rest {
            h
        } else {
            rest
        }
    } else {
        0
    }
}

proof fn lemma_child_lower(node: TrieNode, j: int, i: int)
    requires
        0 <= j <= i < node.sub_trie.edges@.len(),
    ensures
        height(node.sub_trie.edges@[i]) <= heights_below(node, j),
    decreases i - j,
{
    if j < i {
        lemma_child_lower(node, j + 1, i);
    }
}

/// An itemset that the trie below `node` holds is shorter than its height.
proof fn lemma_held_below_height(node: TrieNode, key: Seq<Item>)
    requires
        node_at(node, key) is Some,
    ensures
        key.len() < height(node),
    decreases key.len(),
{
    if key.len() > 0 {
        let i = child_index(node.sub_trie.edges@, key[0]);
        lemma_child_index_bounds(node.sub_trie.edges@, key[0]);
        lemma_held_below_height(node.sub_trie.edges@[i], key.drop_first());
        lemma_child_lower(node, 0, i);
    }
}

/// More levels read no less.
proof fn lemma_extractable_more_fuel(root: TrieNode, path: Seq<Item>, f: nat, g: nat)
    requires
        extractable(root, path, f),
        f <= g,
    ensures
        extractable(root, path, g),
    decreases f,
{
    let n = node_at(root, path).unwrap();
    if !(path.last().0 == n.data.test || n.data.is_leaf) {
        lemma_extractable_more_fuel(root, child_path(path, n.data.test, false), (f - 1) as nat, (g - 1) as nat);
        lemma_extractable_more_fuel(root, child_path(path, n.data.test, true), (f - 1) as nat, (g - 1) as nat);
    }
}

/// Whether the tree below the itemset `path` can be read out of the cache,
/// within some number of levels.
fn readable_below(cache: &Trie, path: Vec<Item>) -> (r: bool)
    ensures
        r == (exists|f: nat| extractable(cache.root, path@, f)),
    decreases height(cache.root) - path@.len(),
{
    let node = match cache.get(&path) {
        None => {
            assert forall|f: nat| !extractable(cache.root, path@, f) by {}
            return false;
        },
        Some(n) => n,
    };
    let len = path.len();
    if len == 0 {
        assert forall|f: nat| !extractable(cache.root, path@, f) by {}
        return false;
    }
    let d = node.data;
    if path[len - 1].0 == d.test || d.is_leaf {
        assert(extractable(cache.root, path@, 0));
        return true;
    }
    proof {
        lemma_held_below_height(cache.root, path@);
    }
    let mut left = copy_items(&path);
    left.push((d.test, false));
    sort_items(&mut left);
    let mut right = copy_items(&path);
    right.push((d.test, true));
    sort_items(&mut right);
    proof {
        lemma_sorted_items_in_order(path@.push((d.test, false)));
        lemma_sorted_items_in_order(path@.push((d.test, true)));
    }
    assert(left@ == child_path(path@, d.test, false));
    assert(right@ == child_path(path@, d.test, true));
    assert(node_at(cache.root, path@).unwrap().data == d);
    let l = readable_below(cache, left);
    if !l {
        assert forall|f: nat| !extractable(cache.root, path@, f) by {
            if f > 0 {
                assert(!extractable(cache.root, child_path(path@, d.test, false), (f - 1) as nat));
            }
        }
        return false;
    }
    let r = readable_below(cache, right);
    if !r {
        assert forall|f: nat| !extractable(cache.root, path@, f) by {
            if f > 0 {
                assert(!extractable(cache.root, child_path(path@, d.test, true), (f - 1) as nat));
            }
        }
        return false;
    }
    proof {
        let fl = choose|f: nat| extractable(cache.root, child_path(path@, d.test, false), f);
        let fr = choose|f: nat| extractable(cache.root, child_path(path@, d.test, true), f);
        let g = if fl > fr { fl } else { fr };
        lemma_extractable_more_fuel(cache.root, child_path(path@, d.test, false), fl, g);
        lemma_extractable_more_fuel(cache.root, child_path(path@, d.test, true), fr, g);
        assert(extractable(cache.root, path@, g + 1));
    }
    true
}

/// Whether the best tree can be read out of the cache: where the search left
/// a tree, the trees below both children of the root can be read.
pub fn solution_readable(cache: &Trie) -> (r: bool)
    ensures
        r == solution_extractable(*cache),
{
    if !cache.is_done || cache.root.data.test == usize::MAX {
        return true;
    }
    let b = cache.root.data.test;
    let mut left: Vec<Item> = Vec::new();
    left.push((b, false));
    let mut right: Vec<Item> = Vec::new();
    right.push((b, true));
    assert(left@ =~= seq![(b, false)]);
    assert(right@ =~= seq![(b, true)]);
    let l = readable_below(cache, left);
    let r = readable_below(cache, right);
    proof {
        if l && r {
            let fl = choose|f: nat| extractable(cache.root, seq![(b, false)], f);
            let fr = choose|f: nat| extractable(cache.root, seq![(b, true)], f);
            let g = if fl > fr { fl } else { fr };
            lemma_extractable_more_fuel(cache.root, seq![(b, false)], fl, g);
            lemma_extractable_more_fuel(cache.root, seq![(b, true)], fr, g);
        }
    }
    l && r
}

/// Reads the best tree out of the cache: a tree with the root's test and
/// the two trees below it, or the lone node `usize::MAX` where the search
/// left none. The cache comes back unchanged.
pub fn get_solution_tree(cache: Trie) -> (r: (Tree, Trie))
    requires
        solution_extractable(cache),
    ensures
        r.1 == cache,
        !has_solution(cache) ==> {
            &&& r.0.root == usize::MAX
            &&& r.0.left@.len() == 0
            &&& r.0.right@.len() == 0
            &&& !r.0.is_leaf
            &&& r.0.max_class == 0
            &&& r.0.error is None
        },
        has_solution(cache) ==> {
            let b = cache.root.data.test;
            let f = solution_fuel(cache);
            &&& r.0.root == b
            &&& !r.0.is_leaf
            &&& r.0.max_class == 0
            &&& r.0.error is None
            &&& r.0.left@.len() == 1
            &&& r.0.right@.len() == 1
            &&& tree_below(r.0.left@[0], cache.root, seq![(b, false)], f)
            &&& tree_below(r.0.right@[0], cache.root, seq![(b, true)], f)
        },
{
    if !cache.is_done || cache.root.data.test == usize::MAX {
        (Tree::new(usize::MAX), cache)
    } else {
        let ghost f = solution_fuel(cache);
        let best_attribute = cache.root.data.test;
        let mut tree = Tree::new(best_attribute);
        let mut left_branch: Vec<Item> = Vec::new();
        left_branch.push((best_attribute, false));
        let mut right_branch: Vec<Item> = Vec::new();
        right_branch.push((best_attribute, true));
        assert(left_branch@ =~= seq![(best_attribute, false)]);
        assert(right_branch@ =~= seq![(best_attribute, true)]);
        let ghost root = cache.root;

        let data = get_sub_tree(left_branch, cache, Ghost(f));
        tree.left.push(data.1);

        let data = get_sub_tree(right_branch, data.0, Ghost(f));
        tree.right.push(data.1);

        (tree, data.0)
    }
}

/// Reads the tree below the itemset `parent`.
fn get_sub_tree(parent: Vec<Item>, cache: Trie, Ghost(fuel): Ghost<nat>) -> (r: (Trie, Tree))
    requires
        extractable(cache.root, parent@, fuel),
    ensures
        r.0 == cache,
        tree_below(r.1, cache.root, parent@, fuel),
    decreases fuel,
{
    let parent_node = cache.get(&parent).unwrap();
    let len = parent.len();

    let parent_attribute = parent[len - 1].0;
    let parent_node_data = parent_node.data;
    let mut final_tree = Tree::new(parent_node_data.test);
    if parent_attribute == parent_node_data.test || parent_node_data.is_leaf {
        final_tree.is_leaf = true;
        final_tree.max_class = parent_node_data.max_class;
        final_tree.error = Some(parent_node_data.node_error);
        (cache, final_tree)
    } else {
        let mut item_set_vec = copy_items(&parent);
        item_set_vec.push((parent_node_data.test, false));
        sort_items(&mut item_set_vec);

        let data = get_sub_tree(item_set_vec, cache, Ghost((fuel - 1) as nat));
        final_tree.left.push(data.1);

        let mut item_set_vec = copy_items(&parent);
        item_set_vec.push((parent_node_data.test, true));
        sort_items(&mut item_set_vec);

        let data = get_sub_tree(item_set_vec, data.0, Ghost((fuel - 1) as nat));
        final_tree.right.push(data.1);
        proof {
            assert(final_tree.left@ =~= seq![final_tree.left@[0]]);
        }
        (data.0, final_tree)
    }
}


} // verus!
