//! The cache of the search: a trie keyed by itemsets (sequences of items),
//! which holds at each node the search's record for that itemset.
use vstd::prelude::*;
use crate::mining::Item;
use crate::node::node::{fresh_node, Node};

verus! {

pub struct TrieEdges {
    pub edges: Vec<TrieNode>,
}

pub struct TrieNode {
    pub item: Item,
    pub data: Node,
    pub sub_trie: TrieEdges,
    pub is_new: bool,
}

pub struct Trie {
    pub root: TrieNode,
    pub cachesize: u64,
    pub is_done: bool,
    pub has_timeout: bool,
    pub max_discrepancy: Option<usize>,
    pub discrepancy: Option<usize>,
    pub recursion_count: usize,
}

/// Index of the first edge whose item is `item`; -1 where there is none.
pub open spec fn child_index(edges: Seq<TrieNode>, item: Item) -> int
    decreases edges.len(),
{
    if edges.len() == 0 {
        -1
    } else {
        let i = child_index(edges.drop_last(), item);
        if i >= 0 {
            i
        } else if edges.last().item == item {
            edges.len() - 1
        } else {
            -1
        }
    }
}

/// The node reached from `node` along `key`.
pub open spec fn node_at(node: TrieNode, key: Seq<Item>) -> Option<TrieNode>
    decreases key.len(),
{
    if key.len() == 0 {
        Some(node)
    } else {
        let i = child_index(node.sub_trie.edges@, key[0]);
        if i < 0 {
            None
        } else {
            node_at(node.sub_trie.edges@[i], key.drop_first())
        }
    }
}

/// Length of the longest prefix of `key` that the trie below `node` holds.
pub open spec fn existing_depth(node: TrieNode, key: Seq<Item>) -> nat
    decreases key.len(),
{
    if key.len() == 0 {
        0
    } else {
        let i = child_index(node.sub_trie.edges@, key[0]);
        if i < 0 {
            0
        } else {
            1 + existing_depth(node.sub_trie.edges@[i], key.drop_first())
        }
    }
}

pub open spec fn is_prefix(k: Seq<Item>, s: Seq<Item>) -> bool {
    k.len() <= s.len() && k == s.take(k.len() as int)
}

/// `after` holds every itemset that `before` holds, with the same record.
pub open spec fn keeps_entries(before: TrieNode, after: TrieNode) -> bool {
    forall|k: Seq<Item>|
        #[trigger] node_at(before, k) is Some ==> {
            &&& node_at(after, k) is Some
            &&& node_at(after, k).unwrap().data == node_at(before, k).unwrap().data
            &&& node_at(after, k).unwrap().is_new == node_at(before, k).unwrap().is_new
        }
}

/// `after` holds the same itemsets as `before`, with the same record, but
/// at `key`.
pub open spec fn same_entries_but(before: TrieNode, after: TrieNode, key: Seq<Item>) -> bool {
    &&& forall|k: Seq<Item>| #[trigger] node_at(after, k) is Some <==> node_at(before, k) is Some
    &&& forall|k: Seq<Item>|
        k != key && #[trigger] node_at(before, k) is Some ==> {
            &&& node_at(after, k).unwrap().data == node_at(before, k).unwrap().data
            &&& node_at(after, k).unwrap().is_new == node_at(before, k).unwrap().is_new
        }
}

pub proof fn lemma_child_index_bounds(edges: Seq<TrieNode>, item: Item)
    ensures
        -1 <= child_index(edges, item) < edges.len(),
        child_index(edges, item) >= 0 ==> edges[child_index(edges, item)].item == item,
        child_index(edges, item) < 0 ==> forall|j: int|
            0 <= j < edges.len() ==> (#[trigger] edges[j]).item != item,
        forall|j: int| 0 <= j < child_index(edges, item) ==> (#[trigger] edges[j]).item != item,
    decreases edges.len(),
{
    if edges.len() > 0 {
        let d = edges.drop_last();
        lemma_child_index_bounds(d, item);
        assert forall|j: int| 0 <= j < edges.len() - 1 implies #[trigger] edges[j] == d[j] by {}
        if child_index(edges, item) < 0 {
            assert forall|j: int| 0 <= j < edges.len() implies (#[trigger] edges[j]).item != item by {
                if j < edges.len() - 1 {
                    assert(edges[j] == d[j]);
                }
            }
        }
        assert forall|j: int| 0 <= j < child_index(edges, item) implies (#[trigger] edges[j]).item
            != item by {
            assert(edges[j] == d[j]);
        }
    }
}

/// The first index with the item, found by scanning.
proof fn lemma_child_index_first(edges: Seq<TrieNode>, item: Item, j: int)
    requires
        0 <= j < edges.len(),
        edges[j].item == item,
        forall|m: int| 0 <= m < j ==> (#[trigger] edges[m]).item != item,
    ensures
        child_index(edges, item) == j,
    decreases edges.len(),
{
    lemma_child_index_bounds(edges, item);
    if j < edges.len() - 1 {
        lemma_child_index_first(edges.drop_last(), item, j);
    } else {
        lemma_child_index_bounds(edges.drop_last(), item);
        if child_index(edges.drop_last(), item) >= 0 {
            let i = child_index(edges.drop_last(), item);
            assert(edges[i] == edges.drop_last()[i]);
        }
    }
}

/// Edges with the same items at the same places find the same children.
proof fn lemma_child_index_same_items(e1: Seq<TrieNode>, e2: Seq<TrieNode>, item: Item)
    requires
        e1.len() == e2.len(),
        forall|j: int| 0 <= j < e1.len() ==> (#[trigger] e1[j]).item == e2[j].item,
    ensures
        child_index(e1, item) == child_index(e2, item),
    decreases e1.len(),
{
    if e1.len() > 0 {
        lemma_child_index_same_items(e1.drop_last(), e2.drop_last(), item);
    }
}

proof fn lemma_child_index_push(edges: Seq<TrieNode>, c: TrieNode, item: Item)
    ensures
        child_index(edges.push(c), item) == if child_index(edges, item) >= 0 {
            child_index(edges, item)
        } else if c.item == item {
            edges.len() as int
        } else {
            -1
        },
{
    assert(edges.push(c).drop_last() =~= edges);
}

/// Replacing a child by one with the same item and entries that keep the
/// old ones keeps every entry of the node.
proof fn lemma_keeps_entries_child(before: TrieNode, after: TrieNode, p: int)
    requires
        0 <= p < before.sub_trie.edges@.len(),
        after.sub_trie.edges@.len() == before.sub_trie.edges@.len(),
        forall|j: int|
            0 <= j < before.sub_trie.edges@.len() && j != p ==> #[trigger] after.sub_trie.edges@[j]
                == before.sub_trie.edges@[j],
        after.sub_trie.edges@[p].item == before.sub_trie.edges@[p].item,
        keeps_entries(before.sub_trie.edges@[p], after.sub_trie.edges@[p]),
        after.data == before.data,
        after.is_new == before.is_new,
    ensures
        keeps_entries(before, after),
{
    assert forall|k: Seq<Item>| #[trigger] node_at(before, k) is Some implies {
        &&& node_at(after, k) is Some
        &&& node_at(after, k).unwrap().data == node_at(before, k).unwrap().data
        &&& node_at(after, k).unwrap().is_new == node_at(before, k).unwrap().is_new
    } by {
        if k.len() > 0 {
            lemma_child_index_same_items(before.sub_trie.edges@, after.sub_trie.edges@, k[0]);
            lemma_child_index_bounds(before.sub_trie.edges@, k[0]);
            let j = child_index(before.sub_trie.edges@, k[0]);
            if j != p {
                assert(after.sub_trie.edges@[j] == before.sub_trie.edges@[j]);
            } else {
                assert(node_at(before.sub_trie.edges@[p], k.drop_first()) is Some);
            }
        }
    }
}

impl TrieEdges {
    pub fn new() -> (r: TrieEdges)
        ensures
            r.edges@ == Seq::<TrieNode>::empty(),
    {
        TrieEdges { edges: Vec::new() }
    }
}

impl TrieNode {
    /// A leaf for `item`, not yet looked at.
    pub fn new(item: Item) -> (r: TrieNode)
        ensures
            r.item == item,
            r.data == fresh_node(item.0, 0),
            r.is_new,
            r.sub_trie.edges@ == Seq::<TrieNode>::empty(),
    {
        TrieNode { item, sub_trie: TrieEdges::new(), data: Node::new(item.0, 0), is_new: true }
    }
}

/// Index of the first edge with `item`, by scanning.
fn find_child(edges: &Vec<TrieNode>, item: &Item) -> (r: Option<usize>)
    ensures
        r matches Some(i) ==> i as int == child_index(edges@, *item) && i < edges@.len(),
        r is None ==> child_index(edges@, *item) < 0,
{
    let mut j: usize = 0;
    while j < edges.len()
        invariant
            j <= edges@.len(),
            forall|m: int| 0 <= m < j ==> (#[trigger] edges@[m]).item != *item,
        decreases edges@.len() - j,
    {
        if edges[j].item.0 == item.0 && edges[j].item.1 == item.1 {
            proof {
                lemma_child_index_first(edges@, *item, j as int);
            }
            return Some(j);
        }
        j = j + 1;
    }
    proof {
        lemma_child_index_bounds(edges@, *item);
        if child_index(edges@, *item) >= 0 {
            let i = child_index(edges@, *item);
            assert(edges@[i].item == *item);
        }
    }
    None
}

/// Creates the nodes of `key[i..]` that are missing below `node`; returns
/// how many it created.
fn insert_below(node: &mut TrieNode, key: &Vec<Item>, i: usize) -> (created: usize)
    requires
        i <= key@.len(),
    ensures
        node_at(*final(node), key@.skip(i as int)) is Some,
        keeps_entries(*old(node), *final(node)),
        forall|k: Seq<Item>|
            #[trigger] node_at(*final(node), k) is Some && node_at(*old(node), k) is None ==> {
                &&& k.len() > 0
                &&& is_prefix(k, key@.skip(i as int))
                &&& node_at(*final(node), k).unwrap().data == fresh_node(k.last().0, 0)
                &&& node_at(*final(node), k).unwrap().is_new
            },
        created == key@.len() - i - existing_depth(*old(node), key@.skip(i as int)),
        final(node).item == old(node).item,
        node_at(*old(node), key@.skip(i as int)) is None ==> node_at(*final(node), key@.skip(i as int)).unwrap().sub_trie.edges@.len()
            == 0,
        i == key@.len() ==> *final(node) == *old(node),
    decreases key@.len() - i,
{
    let ghost s = key@.skip(i as int);
    if i == key.len() {
        assert(s.len() == 0);
        return 0;
    }
    let item = key[i];
    assert(s[0] == item);
    assert(s.drop_first() =~= key@.skip(i + 1));
    let ghost before = *node;
    let found = find_child(&node.sub_trie.edges, &item);
    let mut here: usize = 0;
    let pos = match found {
        Some(p) => p,
        None => {
            let fresh = TrieNode::new(item);
            let ghost e = node.sub_trie.edges@;
            node.sub_trie.edges.push(fresh);
            here = 1;
            proof {
                assert forall|x: Item| #[trigger] child_index(node.sub_trie.edges@, x) == if x == item {
                    e.len() as int
                } else {
                    child_index(e, x)
                } by {
                    lemma_child_index_push(e, fresh, x);
                    if x == item {
                    }
                }
                assert forall|k: Seq<Item>| #[trigger] node_at(before, k) is Some implies {
                    &&& node_at(*node, k) is Some
                    &&& node_at(*node, k).unwrap().data == node_at(before, k).unwrap().data
                    &&& node_at(*node, k).unwrap().is_new == node_at(before, k).unwrap().is_new
                } by {
                    if k.len() > 0 {
                        let j = child_index(e, k[0]);
                        assert(j >= 0);
                        assert(k[0] != item);
                        lemma_child_index_bounds(e, k[0]);
                        assert(node.sub_trie.edges@[j] == e[j]);
                    }
                }
            }
            node.sub_trie.edges.len() - 1
        },
    };
    let ghost mid = *node;
    proof {
        lemma_child_index_bounds(mid.sub_trie.edges@, item);
    }
    assert(pos as int == child_index(mid.sub_trie.edges@, item));
    let created_below = insert_below(&mut node.sub_trie.edges[pos], key, i + 1);
    proof {
        let e_mid = mid.sub_trie.edges@;
        let e_fin = node.sub_trie.edges@;
        assert(e_fin.len() == e_mid.len());
        assert forall|j: int| 0 <= j < e_mid.len() && j != pos implies #[trigger] e_fin[j]
            == e_mid[j] by {}
        lemma_keeps_entries_child(mid, *node, pos as int);
        assert(keeps_entries(before, *node)) by {
            assert forall|k: Seq<Item>| #[trigger] node_at(before, k) is Some implies {
                &&& node_at(*node, k) is Some
                &&& node_at(*node, k).unwrap().data == node_at(before, k).unwrap().data
                &&& node_at(*node, k).unwrap().is_new == node_at(before, k).unwrap().is_new
            } by {
                assert(node_at(mid, k) is Some);
            }
        }
        lemma_child_index_same_items(e_mid, e_fin, item);
        // the key is now held
        assert(node_at(*node, s) == node_at(e_fin[pos as int], s.drop_first()));
        if node_at(before, s) is None {
            if found is None && s.drop_first().len() == 0 {
                assert(e_fin[pos as int] == e_mid[pos as int]);
            } else if found is None {
                assert(node_at(e_mid[pos as int], s.drop_first()) is None);
            } else {
                assert(node_at(before, s) == node_at(e_mid[pos as int], s.drop_first()));
            }
        }
        // new entries lie along the key
        assert forall|k: Seq<Item>|
            #[trigger] node_at(*node, k) is Some && node_at(before, k) is None implies {
                &&& k.len() > 0
                &&& is_prefix(k, s)
                &&& node_at(*node, k).unwrap().data == fresh_node(k.last().0, 0)
                &&& node_at(*node, k).unwrap().is_new
            } by {
            assert(k.len() > 0);
            lemma_child_index_same_items(e_mid, e_fin, k[0]);
            lemma_child_index_bounds(e_fin, k[0]);
            lemma_child_index_bounds(e_mid, k[0]);
            let j = child_index(e_fin, k[0]);
            if j != pos {
                if found is None {
                    lemma_child_index_bounds(before.sub_trie.edges@, k[0]);
                    assert(e_fin[j] == before.sub_trie.edges@[j]);
                    assert(child_index(before.sub_trie.edges@, k[0]) == j);
                } else {
                    assert(e_fin[j] == e_mid[j]);
                }
                assert(false);
            }
            assert(k[0] == item);
            let rest = k.drop_first();
            assert(node_at(*node, k) == node_at(e_fin[pos as int], rest));
            assert(node_at(mid, k) == node_at(e_mid[pos as int], rest));
            assert(node_at(e_fin[pos as int], rest) is Some);
            if node_at(e_mid[pos as int], rest) is Some {
                // the child was created here: rest is empty
                assert(found is None);
                assert(e_mid[pos as int].sub_trie.edges@.len() == 0);
                if rest.len() > 0 {
                    assert(child_index(e_mid[pos as int].sub_trie.edges@, rest[0]) == -1);
                }
                assert(rest.len() == 0);
                assert(node_at(e_mid[pos as int], rest) == Some(e_mid[pos as int]));
                assert(k =~= s.take(1));
            } else {
                assert(is_prefix(rest, s.drop_first()));
                assert(k =~= seq![item] + rest);
                assert(k.last() == rest.last());
                assert(k =~= s.take(k.len() as int));
            }
        }
        if found is None {
            assert(existing_depth(before, s) == 0);
            assert(e_mid[pos as int].sub_trie.edges@.len() == 0);
            if s.drop_first().len() > 0 {
                assert(child_index(e_mid[pos as int].sub_trie.edges@, s.drop_first()[0]) == -1);
            }
        } else {
            assert(e_mid[pos as int] == before.sub_trie.edges@[pos as int]);
        }
    }
    here + created_below
}

/// The size of the cache once `key` is inserted into `before`: one more for
/// each missing nonempty prefix of `key`, up to `u64::MAX`.
pub open spec fn cachesize_after_insert(before: Trie, key: Seq<Item>) -> int {
    if before.cachesize + key.len() - existing_depth(before.root, key) <= u64::MAX {
        before.cachesize + key.len() - existing_depth(before.root, key)
    } else {
        u64::MAX as int
    }
}

/// What inserting `key` into `before` gives: every itemset held stays with
/// its record; the itemsets added are the missing nonempty prefixes of
/// `key`, each new with a fresh record; `cachesize` grows by their number
/// (up to `u64::MAX`); the other fields stay.
pub open spec fn insert_outcome(before: Trie, after: Trie, key: Seq<Item>) -> bool {
    &&& node_at(after.root, key) is Some
    &&& keeps_entries(before.root, after.root)
    &&& forall|k: Seq<Item>|
        #[trigger] node_at(after.root, k) is Some && node_at(before.root, k) is None ==> {
            &&& k.len() > 0
            &&& is_prefix(k, key)
            &&& node_at(after.root, k).unwrap().data == fresh_node(k.last().0, 0)
            &&& node_at(after.root, k).unwrap().is_new
        }
    &&& after.cachesize == cachesize_after_insert(before, key)
    &&& after.root.item == before.root.item
    &&& after.is_done == before.is_done
    &&& after.has_timeout == before.has_timeout
    &&& after.max_discrepancy == before.max_discrepancy
    &&& after.discrepancy == before.discrepancy
    &&& after.recursion_count == before.recursion_count
}

proof fn lemma_held_prefix(node: TrieNode, key: Seq<Item>, k: Seq<Item>)
    requires
        node_at(node, key) is Some,
        is_prefix(k, key),
    ensures
        node_at(node, k) is Some,
    decreases key.len(),
{
    if k.len() > 0 {
        assert(k[0] == key[0]);
        let i = child_index(node.sub_trie.edges@, key[0]);
        assert(k.drop_first() =~= key.drop_first().take(k.len() - 1));
        lemma_held_prefix(node.sub_trie.edges@[i], key.drop_first(), k.drop_first());
    }
}

proof fn lemma_held_depth(node: TrieNode, key: Seq<Item>)
    requires
        node_at(node, key) is Some,
    ensures
        existing_depth(node, key) == key.len(),
    decreases key.len(),
{
    if key.len() > 0 {
        let i = child_index(node.sub_trie.edges@, key[0]);
        lemma_held_depth(node.sub_trie.edges@[i], key.drop_first());
    }
}

/// Inserting an itemset that the cache already holds adds nothing: the
/// cache holds the same itemsets with the same records, and its size is
/// unchanged.
pub proof fn insert_of_held_itemset_adds_nothing(before: Trie, after: Trie, key: Seq<Item>)
    requires
        node_at(before.root, key) is Some,
        insert_outcome(before, after, key),
    ensures
        after.cachesize == before.cachesize,
        forall|k: Seq<Item>| #[trigger] node_at(after.root, k) is Some <==> node_at(before.root, k) is Some,
        keeps_entries(before.root, after.root),
{
    lemma_held_depth(before.root, key);
    assert forall|k: Seq<Item>| #[trigger] node_at(after.root, k) is Some implies node_at(before.root, k) is Some by {
        if node_at(before.root, k) is None {
            lemma_held_prefix(before.root, key, k);
        }
    }
}

impl Trie {
    /// The record held for the itemset `key`, if the trie holds it.
    pub open spec fn entry(self, key: Seq<Item>) -> Option<Node> {
        match node_at(self.root, key) {
            Some(n) => Some(n.data),
            None => None,
        }
    }

    /// An empty cache.
    pub fn new() -> (r: Trie)
        ensures
            r.root.item == (usize::MAX, false),
            r.root.data == fresh_node(usize::MAX, 0),
            r.root.is_new,
            r.root.sub_trie.edges@ == Seq::<TrieNode>::empty(),
            r.cachesize == 0,
            !r.is_done,
            !r.has_timeout,
            r.max_discrepancy is None,
            r.discrepancy is None,
            r.recursion_count == 0,
    {
        Trie {
            root: TrieNode::new((usize::MAX, false)),
            cachesize: 0,
            is_done: false,
            has_timeout: false,
            max_discrepancy: None,
            discrepancy: None,
            recursion_count: 0,
        }
    }

    /// The node of the itemset `key`, if the trie holds it.
    pub fn get(&self, key: &Vec<Item>) -> (r: Option<&TrieNode>)
        ensures
            r matches Some(n) ==> node_at(self.root, key@) == Some(*n),
            r is None ==> node_at(self.root, key@) is None,
    {
        let mut node = &self.root;
        let mut i: usize = 0;
        assert(key@.skip(0) =~= key@);
        while i < key.len()
            invariant
                i <= key@.len(),
                node_at(self.root, key@) == node_at(*node, key@.skip(i as int)),
            decreases key@.len() - i,
        {
            let ghost s = key@.skip(i as int);
            assert(s.drop_first() =~= key@.skip(i + 1));
            match find_child(&node.sub_trie.edges, &key[i]) {
                None => {
                    return None;
                },
                Some(p) => {
                    node = &node.sub_trie.edges[p];
                },
            }
            i = i + 1;
        }
        assert(key@.skip(key@.len() as int) =~= Seq::<Item>::empty());
        Some(node)
    }

    /// Creates the nodes of `key` that are missing; returns the node of
    /// `key`, which has no children where it was missing. `cachesize`
    /// counts the nodes created (up to `u64::MAX`).
    pub fn insert(&mut self, key: &Vec<Item>) -> (r: &TrieNode)
        ensures
            node_at(final(self).root, key@) == Some(*r),
            insert_outcome(*old(self), *final(self), key@),
            node_at(old(self).root, key@) is None ==> r.sub_trie.edges@.len() == 0,
    {
        assert(key@.skip(0) =~= key@);
        let created = insert_below(&mut self.root, key, 0);
        self.cachesize = self.cachesize.saturating_add(created as u64);
        let r = self.get(key);
        r.unwrap()
    }

    /// Records `node_data` for the itemset `itemset`, which the trie holds,
    /// and marks it as no longer new.
    pub fn update(&mut self, itemset: &Vec<Item>, node_data: Node) -> (r: bool)
        requires
            node_at(old(self).root, itemset@) is Some,
        ensures
            r,
            same_entries_but(old(self).root, final(self).root, itemset@),
            node_at(final(self).root, itemset@).unwrap().data == node_data,
            !node_at(final(self).root, itemset@).unwrap().is_new,
            final(self).root.item == old(self).root.item,
            final(self).cachesize == old(self).cachesize,
            final(self).is_done == old(self).is_done,
            final(self).has_timeout == old(self).has_timeout,
            final(self).max_discrepancy == old(self).max_discrepancy,
            final(self).discrepancy == old(self).discrepancy,
            final(self).recursion_count == old(self).recursion_count,
    {
        assert(itemset@.skip(0) =~= itemset@);
        store_below(&mut self.root, itemset, 0, node_data, false);
        true
    }

    /// Sets whether the itemset `itemset`, which the trie holds, is explored.
    pub fn set_node_exploration_status(&mut self, itemset: &Vec<Item>, status: bool) -> (r: bool)
        requires
            node_at(old(self).root, itemset@) is Some,
        ensures
            r,
            same_entries_but(old(self).root, final(self).root, itemset@),
            node_at(final(self).root, itemset@).unwrap().data == (Node {
                is_explored: status,
                ..node_at(old(self).root, itemset@).unwrap().data
            }),
            node_at(final(self).root, itemset@).unwrap().is_new == node_at(
                old(self).root,
                itemset@,
            ).unwrap().is_new,
            final(self).root.item == old(self).root.item,
            final(self).cachesize == old(self).cachesize,
            final(self).is_done == old(self).is_done,
            final(self).has_timeout == old(self).has_timeout,
            final(self).max_discrepancy == old(self).max_discrepancy,
            final(self).discrepancy == old(self).discrepancy,
            final(self).recursion_count == old(self).recursion_count,
    {
        let node = self.get(itemset);
        let node_ref = node.unwrap();
        let mut data = node_ref.data;
        let keep_new = node_ref.is_new;
        data.is_explored = status;
        assert(itemset@.skip(0) =~= itemset@);
        store_below(&mut self.root, itemset, 0, data, keep_new);
        true
    }
}

/// Records `data` and `is_new` at `key[i..]` below `node`, which holds it.
fn store_below(node: &mut TrieNode, key: &Vec<Item>, i: usize, data: Node, is_new: bool)
    requires
        i <= key@.len(),
        node_at(*old(node), key@.skip(i as int)) is Some,
    ensures
        same_entries_but(*old(node), *final(node), key@.skip(i as int)),
        node_at(*final(node), key@.skip(i as int)).unwrap().data == data,
        node_at(*final(node), key@.skip(i as int)).unwrap().is_new == is_new,
        final(node).item == old(node).item,
    decreases key@.len() - i,
{
    let ghost s = key@.skip(i as int);
    let ghost before = *node;
    if i == key.len() {
        assert(s.len() == 0);
        node.data = data;
        node.is_new = is_new;
        proof {
            assert forall|k: Seq<Item>| #[trigger] node_at(*node, k) is Some <==> node_at(
                before,
                k,
            ) is Some by {
                if k.len() > 0 {
                }
            }
            assert forall|k: Seq<Item>| k != s && #[trigger] node_at(before, k) is Some implies {
                &&& node_at(*node, k).unwrap().data == node_at(before, k).unwrap().data
                &&& node_at(*node, k).unwrap().is_new == node_at(before, k).unwrap().is_new
            } by {
                if k.len() == 0 {
                    assert(k =~= s);
                }
            }
        }
        return;
    }
    assert(s.drop_first() =~= key@.skip(i + 1));
    let p = find_child(&node.sub_trie.edges, &key[i]).unwrap();
    store_below(&mut node.sub_trie.edges[p], key, i + 1, data, is_new);
    proof {
        let e0 = before.sub_trie.edges@;
        let e1 = node.sub_trie.edges@;
        assert(e1.len() == e0.len());
        assert forall|j: int| 0 <= j < e0.len() && j != p implies #[trigger] e1[j] == e0[j] by {}
        assert forall|j: int| 0 <= j < e0.len() implies (#[trigger] e0[j]).item == e1[j].item by {}
        assert(node.data == before.data && node.is_new == before.is_new);
        lemma_child_index_same_items(e0, e1, key@[i as int]);
        assert(node_at(*node, s) == node_at(e1[p as int], s.drop_first()));
        assert forall|k: Seq<Item>| #[trigger] node_at(*node, k) is Some <==> node_at(
            before,
            k,
        ) is Some by {
            if k.len() > 0 {
                lemma_child_index_same_items(e0, e1, k[0]);
                lemma_child_index_bounds(e0, k[0]);
                let j = child_index(e0, k[0]);
                if j >= 0 && j != p {
                    assert(e1[j] == e0[j]);
                } else if j == p {
                    assert(node_at(e1[p as int], k.drop_first()) is Some <==> node_at(
                        e0[p as int],
                        k.drop_first(),
                    ) is Some);
                }
            }
        }
        assert forall|k: Seq<Item>| k != s && #[trigger] node_at(before, k) is Some implies {
            &&& node_at(*node, k).unwrap().data == node_at(before, k).unwrap().data
            &&& node_at(*node, k).unwrap().is_new == node_at(before, k).unwrap().is_new
        } by {
            if k.len() == 0 {
                assert(node_at(*node, k) == Some(*node));
                assert(node_at(before, k) == Some(before));
            } else {
                lemma_child_index_same_items(e0, e1, k[0]);
                lemma_child_index_bounds(e0, k[0]);
                let j = child_index(e0, k[0]);
                if j != p {
                    assert(e1[j] == e0[j]);
                } else {
                    lemma_child_index_bounds(e0, key@[i as int]);
                    assert(s[0] == key@[i as int]);
                    assert(k[0] == s[0]);
                    let rest = k.drop_first();
                    assert(node_at(*node, k) == node_at(e1[p as int], rest));
                    assert(node_at(before, k) == node_at(e0[p as int], rest));
                    assert(node_at(e0[p as int], rest) is Some);
                    if k.drop_first() == s.drop_first() {
                        assert(k.len() == s.len());
                        assert forall|m: int| 0 <= m < k.len() implies k[m] == s[m] by {
                            if m > 0 {
                                assert(k[m] == k.drop_first()[m - 1]);
                                assert(s[m] == s.drop_first()[m - 1]);
                            }
                        }
                        assert(k =~= s);
                    }
                }
            }
        }
    }
}

} // verus!
