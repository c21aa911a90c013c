//! The DL8.5 search for an optimal decision tree: a depth-first search over
//! itemsets, with a cache of the itemsets met, upper bounds, and optionally
//! a limited discrepancy search, a time limit and a limit on the number of
//! recursive calls.
use vstd::prelude::*;
use std::time::Instant;
use crate::cache::trie::{
    cachesize_after_insert, insert_of_held_itemset_adds_nothing, keeps_entries, node_at, same_entries_but, Trie,
};
use crate::mining::itemset_bitvector_trait::{class_supports, first_max_index, same_dataset, ItemsetBitvector};
use crate::mining::{
    copy_attributes, copy_items, lemma_sorted_items_eq, lemma_sorted_items_in_order, sort_items,
    sorted_items, Attribute, Item,
};
use crate::node::node::{fresh_node, Node};
use crate::dl85::ranking::{insert_pos, orders_by_rank, ranked, ranked_orders_by_rank};
use crate::dl85::optimum::{
    all_split, best_split, cache_consistent, covers_splits, leaf_error_of,
    lemma_best_from_candidates, lemma_child_covered, lemma_consistent_same_dataset,
    lemma_covers_same_dataset, lemma_leaf_nonneg, lemma_opt_bounds, lemma_opt_nonneg,
    lemma_opt_same_dataset, lemma_perm_candidates, lemma_best_split_char, lemma_split_error_same_dataset, lemma_update_consistent,
    lemma_record_order, opt, record_consistent, split_error, splits_on,
};
use crate::timing::{duration_millis, duration_secs, instant_elapsed, instant_now, TimeLimit};

verus! {

/// What the search asks of its caller besides the dataset: a rank of the
/// information gain of a split (a larger rank for a larger gain), and a
/// place to leave the error of the best tree found so far.
pub trait SearchHeuristics {
    /// The rank of the information gain of splitting a cover whose class
    /// counts are `actual_cover` into `left_cover` and the rest.
    fn information_gain_rank(&self, actual_cover: &Vec<usize>, left_cover: &Vec<usize>, nclasses: usize) -> u64;

    /// Called with the error of the best tree found so far at each step of
    /// the search.
    fn record_current_error(&self, error: u64);
}

#[allow(dead_code)]
pub struct DL85 {
    ntransactions: usize,
    nattributes: usize,
    nclasses: usize,
}

/// The trie `after` holds every itemset that `before` holds.
pub open spec fn holds_all(before: Trie, after: Trie) -> bool {
    forall|k: Seq<Item>| #[trigger] node_at(before.root, k) is Some ==> node_at(after.root, k) is Some
}

/// The outcome of the stop test on a node: whether the search stops there,
/// and the node as the test leaves it.
pub open spec fn stop_outcome(
    node: Node,
    upper_bond: u64,
    min_support: u64,
    current_support: u64,
    depth: u64,
    max_depth: u64,
    out_of_time: bool,
    reload_cache: bool,
    current_discrepancy: Option<u64>,
    max_discrepancy: Option<u64>,
) -> (bool, Node) {
    if out_of_time {
        (true, Node { node_error: node.leaf_error, is_explored: false, ..node })
    } else {
        let (stop1, n1) = if reload_cache {
            if current_discrepancy is Some {
                if current_discrepancy.unwrap() > max_discrepancy.unwrap() && node.is_explored {
                    (true, Node { current_discrepancy: max_discrepancy, ..node })
                } else if node.node_error == 0 {
                    (true, node)
                } else {
                    (false, node)
                }
            } else if node.is_explored {
                (true, node)
            } else {
                (false, Node { node_error: u64::MAX, ..node })
            }
        } else {
            (false, node)
        };
        if stop1 {
            (true, n1)
        } else if current_discrepancy is Some && current_discrepancy.unwrap()
            > max_discrepancy.unwrap() && n1.is_explored {
            (true, n1)
        } else if depth == max_depth || current_support < 2 * min_support {
            (true, Node { node_error: n1.leaf_error, is_leaf: true, is_explored: true, ..n1 })
        } else if upper_bond <= n1.lower_bound {
            (true, Node { node_error: n1.leaf_error, is_explored: true, ..n1 })
        } else if n1.leaf_error == 0 {
            (true, Node { node_error: n1.leaf_error, is_leaf: true, is_explored: true, ..n1 })
        } else {
            (false, n1)
        }
    }
}

/// Whether the search keeps `c` as a candidate below the current itemset of
/// `ops`: not the last attribute tested, and both of its values keep at
/// least `min_support` transactions.
pub open spec fn keeps_candidate<T: ItemsetBitvector>(
    ops: T,
    last_attribute: Attribute,
    min_support: u64,
    c: Attribute,
) -> bool {
    let left = ops.support_of(ops.items().push((c, false)));
    &&& c != last_attribute
    &&& left >= (min_support as usize)
    &&& ops.support_of(ops.items()) - left >= (min_support as usize)
}

/// The candidates below the current itemset of `ops`, in their order.
pub open spec fn successors<T: ItemsetBitvector>(
    ops: T,
    candidates: Seq<Attribute>,
    last_attribute: Attribute,
    min_support: u64,
) -> Seq<Attribute> {
    candidates.filter(|c: Attribute| keeps_candidate(ops, last_attribute, min_support, c))
}

/// All candidates are attributes of the dataset.
pub open spec fn attributes_below(candidates: Seq<Attribute>, n: nat) -> bool {
    forall|i: int| 0 <= i < candidates.len() ==> #[trigger] candidates[i] < n
}

/// The operator ends where it started.
pub open spec fn restored<T: ItemsetBitvector>(after: T, before: T) -> bool {
    &&& after.wf()
    &&& same_dataset(after, before)
    &&& after.items() == before.items()
}

/// The node keeps what it knows of its itemset.
pub open spec fn keeps_leaf_data(after: Node, before: Node) -> bool {
    &&& after.leaf_error == before.leaf_error
    &&& after.max_class == before.max_class
    &&& after.current_depth == before.current_depth
    &&& after.lower_bound == before.lower_bound
}

proof fn lemma_restored_trans<T: ItemsetBitvector>(a: T, b: T, c: T)
    requires
        restored(b, a),
        restored(c, b),
    ensures
        restored(c, a),
{
}

proof fn lemma_same_dataset_trans<T: ItemsetBitvector>(a: T, b: T, c: T)
    requires
        same_dataset(b, a),
        same_dataset(c, b),
    ensures
        same_dataset(c, a),
{
}

proof fn lemma_holds_all_trans(a: Trie, b: Trie, c: Trie)
    requires
        holds_all(a, b),
        holds_all(b, c),
    ensures
        holds_all(a, c),
{
    assert forall|k: Seq<Item>| #[trigger] node_at(a.root, k) is Some implies node_at(c.root, k) is Some by {
        assert(node_at(b.root, k) is Some);
    }
}

proof fn lemma_update_holds_all(a: Trie, b: Trie, key: Seq<Item>)
    requires
        same_entries_but(a.root, b.root, key),
    ensures
        holds_all(a, b),
{
}

/// Operators over the same dataset at the same itemset keep the same
/// candidates.
proof fn lemma_successors_same<T: ItemsetBitvector>(
    a: T,
    b: T,
    candidates: Seq<Attribute>,
    last_attribute: Attribute,
    min_support: u64,
)
    requires
        restored(b, a),
    ensures
        successors(a, candidates, last_attribute, min_support) == successors(
            b,
            candidates,
            last_attribute,
            min_support,
        ),
{
    let pa = |c: Attribute| keeps_candidate(a, last_attribute, min_support, c);
    let pb = |c: Attribute| keeps_candidate(b, last_attribute, min_support, c);
    assert forall|c: Attribute| #[trigger] pa(c) == pb(c) by {
        assert(a.support_of(a.items().push((c, false))) == b.support_of(b.items().push((c, false))));
        assert(a.support_of(a.items()) == b.support_of(b.items()));
    }
    assert(pa =~= pb);
}

/// The child itemset in order is the current itemset in order with the
/// new item placed.
proof fn lemma_child_itemset(items: Seq<Item>, item: Item)
    ensures
        sorted_items(sorted_items(items).push(item)) == sorted_items(items.push(item)),
{
    broadcast use vstd::seq_lib::group_to_multiset_ensures;

    lemma_sorted_items_in_order(items);
    lemma_sorted_items_eq(sorted_items(items).push(item), items.push(item));
}

/// The candidates at the root: every attribute where the minimum support is
/// one, else the attributes whose two values both keep at least
/// `min_support` transactions of the current itemset of `ops`.
pub open spec fn root_candidates<T: ItemsetBitvector>(ops: T, nattributes: nat, min_support: u64) -> Seq<Attribute> {
    let all = Seq::new(nattributes, |i: int| i as usize);
    if min_support == 1 {
        all
    } else {
        all.filter(|i: Attribute| root_keeps(ops, min_support, i))
    }
}

pub open spec fn root_keeps<T: ItemsetBitvector>(ops: T, min_support: u64, i: Attribute) -> bool {
    &&& ops.support_of(ops.items().push((i, false))) >= (min_support as usize)
    &&& ops.support_of(ops.items().push((i, true))) >= (min_support as usize)
}

/// The largest discrepancy of a search over `ncandidates` candidates down to
/// `max_depth`: `l + (l - 1) + ... + (l - (max_depth - 1))` with `l` one less
/// than the number of candidates.
pub open spec fn discrepancy_span(l: nat, max_depth: nat) -> int
    decreases max_depth,
{
    if max_depth <= 1 {
        l as int
    } else {
        discrepancy_span(l, (max_depth - 1) as nat) + (l - (max_depth - 1))
    }
}

/// The discrepancy search over `ncandidates` candidates down to `max_depth`
/// can count its discrepancies: there is a candidate, the depth does not
/// exceed the candidates, and the largest discrepancy and the candidates
/// together fit in the counters.
pub open spec fn discrepancy_fits_spec(ncandidates: nat, max_depth: nat) -> bool {
    &&& ncandidates >= 1
    &&& max_depth <= ncandidates
    &&& discrepancy_span((ncandidates - 1) as nat, max_depth) < usize::MAX
    &&& discrepancy_span((ncandidates - 1) as nat, max_depth) + ncandidates <= u64::MAX
}

/// The largest discrepancy that the search uses.
pub open spec fn max_discrepancy_of(ncandidates: nat, max_depth: nat, limit: Option<usize>) -> int {
    let span = discrepancy_span((ncandidates - 1) as nat, max_depth);
    match limit {
        Some(l) => if l < span { l as int } else { span },
        None => span,
    }
}

proof fn lemma_discrepancy_span_mono(l: nat, a: nat, b: nat)
    requires
        a <= b,
        b <= l + 1,
    ensures
        discrepancy_span(l, a) <= discrepancy_span(l, b),
        discrepancy_span(l, a) >= 0,
    decreases b - a,
{
    if a < b {
        lemma_discrepancy_span_mono(l, a, (b - 1) as nat);
    } else {
        lemma_discrepancy_span_nonneg(l, a);
    }
}

proof fn lemma_discrepancy_span_nonneg(l: nat, a: nat)
    requires
        a <= l + 1,
    ensures
        discrepancy_span(l, a) >= 0,
    decreases a,
{
    if a > 1 {
        lemma_discrepancy_span_nonneg(l, (a - 1) as nat);
    }
}

/// The candidates kept below the current itemset are exactly the attributes
/// that split there, where the candidates given cover them.
proof fn lemma_successors_split<T: ItemsetBitvector>(ops: T, cands: Seq<Attribute>, last: Attribute, ms: u64)
    requires
        ops.wf(),
        attributes_below(cands, ops.n_attributes()),
        covers_splits(ops, ops.items(), cands, last, ms),
    ensures
        all_split(ops, ops.items(), successors(ops, cands, last, ms), ms),
        covers_splits(ops, ops.items(), successors(ops, cands, last, ms), last, ms),
{
    broadcast use vstd::seq_lib::group_filter_ensures;

    let p = |c: Attribute| keeps_candidate(ops, last, ms, c);
    let succ = successors(ops, cands, last, ms);
    assert forall|j: int| 0 <= j < succ.len() implies (#[trigger] succ[j]) < ops.n_attributes() && splits_on(
        ops,
        ops.items(),
        succ[j],
        ms,
    ) by {
        let c = succ[j];
        assert(succ.contains(c));
        cands.lemma_filter_contains_rev(p, c);
        assert(cands.contains(c));
        assert(p(c));
        ops.lemma_support_split(ops.items(), c);
    }
    assert forall|c: Attribute| c < ops.n_attributes() && #[trigger] splits_on(ops, ops.items(), c, ms) implies succ.contains(
        c,
    ) && c != last by {
        ops.lemma_support_split(ops.items(), c);
        assert(p(c));
        let i = choose|i: int| 0 <= i < cands.len() && cands[i] == c;
        cands.lemma_filter_contains(p, i);
    }
}

proof fn lemma_same_dataset_sym<T: ItemsetBitvector>(a: T, b: T)
    requires
        same_dataset(a, b),
    ensures
        same_dataset(b, a),
{
}

/// Before a child of the plain search, once the child's item is added: the
/// child's place is right.
proof fn lemma_child_ready<T: ItemsetBitvector>(
    start: T,
    ops1: T,
    ops2: T,
    cands: Seq<Attribute>,
    last: Attribute,
    c: Attribute,
    v: bool,
    depth: u64,
    ms: u64,
    maxd: u64,
)
    requires
        start.wf(),
        1 <= ms <= usize::MAX,
        depth == start.items().len(),
        depth < maxd,
        same_dataset(ops1, start),
        ops1.items() == start.items().push((c, v)),
        restored(ops2, ops1),
        c < start.n_attributes(),
        covers_splits(start, start.items(), cands, last, ms),
    ensures
        search_shape(ops2, c, cands, (depth + 1) as u64, ms),
{
    let child = ops1.items();
    lemma_child_covered(start, start.items(), cands, last, ms, c, v);
    lemma_same_dataset_trans(start, ops1, ops2);
    lemma_same_dataset_sym(ops2, start);
    lemma_covers_same_dataset(start, ops2, child, cands, c, ms);
}

/// After a child of the plain search: the child's error is its optimum
/// where that is below the bound.
proof fn lemma_child_done<T: ItemsetBitvector>(
    start: T,
    ops2: T,
    cache3: Trie,
    rec: Node,
    ret: Node,
    ub: u64,
    ms: u64,
    maxd: u64,
)
    requires
        same_dataset(ops2, start),
        search_done(ops2, cache3, ret, ub, rec.leaf_error, ms, maxd),
        rec.leaf_error == leaf_error_of(ops2, ops2.items()),
    ensures
        ({
            let oc = opt(start, ops2.items(), leaf_error_of(start, ops2.items()), ms, maxd);
            oc < ub ==> ret.node_error == oc
        }),
{
    let child = ops2.items();
    assert(class_supports(ops2, child) =~= class_supports(start, child));
    lemma_opt_same_dataset(ops2, start, child, rec.leaf_error as int, ms, maxd);
}

/// The plain search: no discrepancy, no reloading of the cache, no time
/// limit, no limit on the recursive calls, and a minimum support of at
/// least one (and within `usize`).
pub open spec fn plain_search(
    use_discrepancy: bool,
    reload_cache: bool,
    time_limit: TimeLimit,
    recursion_limit: usize,
    min_support: u64,
) -> bool {
    &&& !use_discrepancy
    &&& !reload_cache
    &&& time_limit.secs is None
    &&& recursion_limit == 0
    &&& 1 <= min_support <= usize::MAX
}

/// What the plain search needs of its place: the depth is the number of
/// items, and the candidates cover the attributes that split.
pub open spec fn search_shape<T: ItemsetBitvector>(ops: T, last: Attribute, cands: Seq<Attribute>, depth: u64, ms: u64) -> bool {
    &&& depth == ops.items().len()
    &&& covers_splits(ops, ops.items(), cands, last, ms)
}

/// What the plain search needs of the record of its itemset: a lower bound
/// of zero, its leaf error (the root may have none), and an error that is
/// "none" or no smaller than the optimum.
pub open spec fn parent_ready<T: ItemsetBitvector>(ops: T, parent: Node, depth: u64, ms: u64, maxd: u64) -> bool {
    let items = ops.items();
    &&& parent.lower_bound == 0
    &&& (parent.leaf_error == u64::MAX || parent.leaf_error == leaf_error_of(ops, items))
    &&& (depth >= 1 ==> parent.leaf_error == leaf_error_of(ops, items))
    &&& (parent.node_error == u64::MAX || parent.node_error >= opt(
        ops,
        items,
        parent.leaf_error as int,
        ms,
        maxd,
    ))
}

/// What the plain search gives at an itemset, under the upper bound `ub`:
/// a cache it can rely on; the optimum, where the optimum is below `ub`;
/// else "none" or an error no smaller than the optimum.
pub open spec fn search_done<T: ItemsetBitvector>(ops: T, cache: Trie, node: Node, ub: u64, leaf: u64, ms: u64, maxd: u64) -> bool {
    let o = opt(ops, ops.items(), leaf as int, ms, maxd);
    &&& cache_consistent(ops, cache, ms, maxd)
    &&& (o < ub ==> node.node_error == o)
    &&& (node.node_error == u64::MAX || node.node_error >= o)
}

/// What any search, in any mode, gives at an itemset: a cache it can rely
/// on, and an error that is "none" or no smaller than the optimum (the
/// error of a tree that exists).
pub open spec fn search_sound<T: ItemsetBitvector>(ops: T, cache: Trie, node: Node, leaf: u64, ms: u64, maxd: u64) -> bool {
    &&& cache_consistent(ops, cache, ms, maxd)
    &&& (node.node_error == u64::MAX || node.node_error >= opt(ops, ops.items(), leaf as int, ms, maxd))
}

/// A record of the root that the search can rely on: no leaf error (the
/// search never stops at the root for its leaf), a lower bound of zero, and
/// an error that is "none" or no smaller than that of the best tree with a
/// test at the root.
pub open spec fn root_ready<T: ItemsetBitvector>(ops: T, cache: Trie, ms: u64, maxd: u64) -> bool {
    let d = cache.root.data;
    &&& d.lower_bound == 0
    &&& d.leaf_error == u64::MAX
    &&& (d.node_error == u64::MAX || d.node_error >= opt(
        ops,
        Seq::<Item>::empty(),
        u64::MAX as int,
        ms,
        maxd,
    ))
}

/// A cache that the search can rely on, its root included. A new cache is
/// one.
pub open spec fn reliable_cache<T: ItemsetBitvector>(ops: T, cache: Trie, ms: u64, maxd: u64) -> bool {
    &&& cache_consistent(ops, cache, ms, maxd)
    &&& root_ready(ops, cache, ms, maxd)
}

/// Operators over the same dataset rely on the same root record.
proof fn lemma_root_ready_same_dataset<T: ItemsetBitvector>(a: T, b: T, cache: Trie, ms: u64, maxd: u64)
    requires
        same_dataset(a, b),
        root_ready(a, cache, ms, maxd),
    ensures
        root_ready(b, cache, ms, maxd),
{
    lemma_opt_same_dataset(a, b, Seq::<Item>::empty(), u64::MAX as int, ms, maxd);
}

/// A leaf error of the itemset is no smaller than the optimum below it.
proof fn lemma_leaf_not_below_opt<T: ItemsetBitvector>(ops: T, items: Seq<Item>, lam: u64, ms: u64, maxd: u64)
    requires
        ops.wf(),
        lam == u64::MAX || lam == leaf_error_of(ops, items),
    ensures
        lam == u64::MAX || lam >= opt(ops, items, lam as int, ms, maxd),
{
    if lam != u64::MAX {
        lemma_opt_bounds(ops, items, lam as int, ms, maxd);
    }
}

/// The stop test leaves a record the search can rely on where it was one.
proof fn lemma_stop_ready<T: ItemsetBitvector>(
    ops: T,
    node: Node,
    depth: u64,
    ms: u64,
    maxd: u64,
    upper_bond: u64,
    current_support: u64,
    out_of_time: bool,
    reload_cache: bool,
    current_discrepancy: Option<u64>,
    max_discrepancy: Option<u64>,
)
    requires
        ops.wf(),
        parent_ready(ops, node, depth, ms, maxd),
    ensures
        parent_ready(
            ops,
            stop_outcome(
                node,
                upper_bond,
                ms,
                current_support,
                depth,
                maxd,
                out_of_time,
                reload_cache,
                current_discrepancy,
                max_discrepancy,
            ).1,
            depth,
            ms,
            maxd,
        ),
{
    lemma_leaf_not_below_opt(ops, ops.items(), node.leaf_error, ms, maxd);
}

/// Storing a record the search can rely on for the current itemset keeps
/// the cache one it can rely on, the root included where the record is the
/// root's and has no leaf error.
proof fn lemma_store_ready<T: ItemsetBitvector>(
    ops: T,
    before: Trie,
    after: Trie,
    key: Seq<Item>,
    d: Node,
    depth: u64,
    ms: u64,
    maxd: u64,
)
    requires
        ops.wf(),
        cache_consistent(ops, before, ms, maxd),
        same_entries_but(before.root, after.root, key),
        node_at(after.root, key) is Some,
        node_at(after.root, key).unwrap().data == d,
        key == sorted_items(ops.items()),
        depth == ops.items().len(),
        parent_ready(ops, d, depth, ms, maxd),
    ensures
        cache_consistent(ops, after, ms, maxd),
        root_ready(ops, before, ms, maxd) && (key.len() == 0 ==> d.leaf_error == u64::MAX) ==> root_ready(
            ops,
            after,
            ms,
            maxd,
        ),
{
    let items = ops.items();
    lemma_sorted_items_in_order(items);
    if key.len() >= 1 {
        assert(record_consistent(ops, items, d, ms, maxd));
        lemma_record_order(ops, items, key, d, ms, maxd);
        assert(node_at(before.root, Seq::<Item>::empty()) is Some);
        assert(Seq::<Item>::empty() != key);
    } else {
        assert(items =~= Seq::<Item>::empty());
    }
    lemma_update_consistent(ops, before, after, key, d, ms, maxd);
}

/// Where the cache grows or changes at a nonempty itemset only, the root's
/// record stays.
proof fn lemma_root_kept(before: Trie, after: Trie, key: Seq<Item>)
    requires
        key.len() >= 1,
        same_entries_but(before.root, after.root, key) || keeps_entries(before.root, after.root),
    ensures
        after.root.data == before.root.data,
{
    assert(node_at(before.root, Seq::<Item>::empty()) is Some);
    assert(Seq::<Item>::empty() != key);
}

/// Every candidate kept below the current itemset splits there.
proof fn lemma_successors_all_split<T: ItemsetBitvector>(ops: T, cands: Seq<Attribute>, last: Attribute, ms: u64)
    requires
        ops.wf(),
        attributes_below(cands, ops.n_attributes()),
    ensures
        all_split(ops, ops.items(), successors(ops, cands, last, ms), ms),
{
    broadcast use vstd::seq_lib::group_filter_ensures;

    let p = |c: Attribute| keeps_candidate(ops, last, ms, c);
    let succ = successors(ops, cands, last, ms);
    assert forall|j: int| 0 <= j < succ.len() implies (#[trigger] succ[j]) < ops.n_attributes() && splits_on(
        ops,
        ops.items(),
        succ[j],
        ms,
    ) by {
        let c = succ[j];
        assert(succ.contains(c));
        cands.lemma_filter_contains_rev(p, c);
        assert(cands.contains(c));
        assert(p(c));
        ops.lemma_support_split(ops.items(), c);
    }
}

/// A reordering of candidates that all split all split.
proof fn lemma_perm_all_split<T: ItemsetBitvector>(ops: T, its: Seq<Item>, a: Seq<Attribute>, b: Seq<Attribute>, ms: u64)
    requires
        a.to_multiset() == b.to_multiset(),
        all_split(ops, its, a, ms),
    ensures
        all_split(ops, its, b, ms),
{
    broadcast use vstd::seq_lib::group_to_multiset_ensures;

    assert forall|j: int| 0 <= j < b.len() implies (#[trigger] b[j]) < ops.n_attributes() && splits_on(
        ops,
        its,
        b[j],
        ms,
    ) by {
        assert(b.contains(b[j]));
        assert(b.to_multiset().count(b[j]) > 0);
        assert(a.contains(b[j]));
        let i = choose|i: int| 0 <= i < a.len() && a[i] == b[j];
        assert(a[i] < ops.n_attributes());
    }
}

/// The optimum below an itemset with room for a test is no larger than the
/// error of a split on any attribute that splits.
proof fn lemma_opt_le_split<T: ItemsetBitvector>(ops: T, its: Seq<Item>, lam: int, c: Attribute, ms: u64, maxd: u64)
    requires
        ops.wf(),
        lam >= 0,
        c < ops.n_attributes(),
        splits_on(ops, its, c, ms),
        its.len() < maxd,
        ops.support_of(its) >= 2 * ms,
    ensures
        opt(ops, its, lam, ms, maxd) <= split_error(ops, its, c, ms, maxd),
{
    let l = its.push((c, false));
    let r = its.push((c, true));
    lemma_leaf_nonneg(ops, l);
    lemma_leaf_nonneg(ops, r);
    lemma_opt_nonneg(ops, l, leaf_error_of(ops, l), ms, maxd);
    lemma_opt_nonneg(ops, r, leaf_error_of(ops, r), ms, maxd);
    if lam != 0 {
        lemma_best_split_char(ops, its, ms, maxd, 0);
        let x = c as nat;
        assert(splits_on(ops, its, x as usize, ms));
    }
}

/// Before a child, once its item is added and its record retrieved: the
/// child's depth is its number of items, and where the cache is reliable,
/// so is the child's record.
proof fn lemma_child_ready_sound<T: ItemsetBitvector>(
    start: T,
    ops1: T,
    ops2: T,
    cache2: Trie,
    c: Attribute,
    v: bool,
    depth: u64,
    key: Seq<Item>,
    rec: Node,
    ms: u64,
    maxd: u64,
)
    requires
        depth == start.items().len(),
        ops1.items() == start.items().push((c, v)),
        restored(ops2, ops1),
        key == sorted_items(ops1.items()),
        node_at(cache2.root, key) is Some,
        node_at(cache2.root, key).unwrap().data == rec,
        !node_at(cache2.root, key).unwrap().is_new,
    ensures
        depth + 1 == ops2.items().len(),
        cache_consistent(ops2, cache2, ms, maxd) ==> parent_ready(ops2, rec, (depth + 1) as u64, ms, maxd),
{
    let child = ops1.items();
    lemma_sorted_items_in_order(child);
    if cache_consistent(ops2, cache2, ms, maxd) {
        assert(record_consistent(ops2, key, rec, ms, maxd));
        lemma_record_order(ops2, key, child, rec, ms, maxd);
    }
}

/// After a child, its record stored under `key`: the cache stays reliable,
/// the root's record stays, and the child's error is "none" or no smaller
/// than its optimum.
proof fn lemma_child_sound<T: ItemsetBitvector>(
    start: T,
    ops2: T,
    cache3: Trie,
    cache4: Trie,
    key: Seq<Item>,
    rec: Node,
    ret: Node,
    stored: Node,
    ms: u64,
    maxd: u64,
)
    requires
        start.wf(),
        same_dataset(ops2, start),
        ops2.items().len() >= 1,
        key.to_multiset() == ops2.items().to_multiset(),
        key.len() >= 1,
        search_sound(ops2, cache3, ret, rec.leaf_error, ms, maxd),
        keeps_leaf_data(ret, rec),
        rec.leaf_error == leaf_error_of(ops2, ops2.items()),
        rec.lower_bound == 0,
        keeps_leaf_data(stored, ret),
        stored.node_error == ret.node_error,
        same_entries_but(cache3.root, cache4.root, key),
        node_at(cache4.root, key) is Some,
        node_at(cache4.root, key).unwrap().data == stored,
    ensures
        cache_consistent(start, cache4, ms, maxd),
        cache4.root.data == cache3.root.data,
        ({
            let oc = opt(start, ops2.items(), leaf_error_of(start, ops2.items()), ms, maxd);
            &&& (ret.node_error == u64::MAX || ret.node_error >= oc)
            &&& oc >= 0
        }),
{
    let child = ops2.items();
    assert(class_supports(ops2, child) =~= class_supports(start, child));
    lemma_opt_same_dataset(ops2, start, child, rec.leaf_error as int, ms, maxd);
    lemma_consistent_same_dataset(ops2, start, cache3, ms, maxd);
    lemma_leaf_nonneg(start, child);
    lemma_opt_nonneg(start, child, leaf_error_of(start, child), ms, maxd);
    assert(record_consistent(start, child, stored, ms, maxd));
    lemma_record_order(start, child, key, stored, ms, maxd);
    lemma_update_consistent(start, cache3, cache4, key, stored, ms, maxd);
    lemma_root_kept(cache3, cache4, key);
}

/// `after` holds every itemset shorter than `n` that `before` holds, with
/// the same record.
pub open spec fn keeps_below(before: Trie, after: Trie, n: nat) -> bool {
    forall|k: Seq<Item>|
        k.len() < n && #[trigger] node_at(before.root, k) is Some ==> {
            &&& node_at(after.root, k) is Some
            &&& node_at(after.root, k).unwrap().data == node_at(before.root, k).unwrap().data
        }
}

proof fn lemma_keeps_below_trans(a: Trie, b: Trie, c: Trie, n: nat, m: nat)
    requires
        keeps_below(a, b, n),
        keeps_below(b, c, m),
    ensures
        keeps_below(a, c, if n <= m { n } else { m }),
{
    assert forall|k: Seq<Item>|
        k.len() < (if n <= m { n } else { m }) && #[trigger] node_at(a.root, k) is Some implies {
            &&& node_at(c.root, k) is Some
            &&& node_at(c.root, k).unwrap().data == node_at(a.root, k).unwrap().data
        } by {
        assert(node_at(b.root, k) is Some);
    }
}

/// Recording at an itemset of `n` items or more keeps every shorter one.
proof fn lemma_update_keeps_below(before: Trie, after: Trie, key: Seq<Item>, n: nat)
    requires
        same_entries_but(before.root, after.root, key) || keeps_entries(before.root, after.root),
        key.len() >= n,
    ensures
        keeps_below(before, after, n),
{
    assert forall|k: Seq<Item>| k.len() < n && #[trigger] node_at(before.root, k) is Some implies {
        &&& node_at(after.root, k) is Some
        &&& node_at(after.root, k).unwrap().data == node_at(before.root, k).unwrap().data
    } by {
        assert(k != key);
    }
}

/// What the plain search gives besides the error: the record keeps its
/// test and carries the leaf error, or, where the optimum is not below the
/// bound, comes back as it was given; else the optimum is below the bound,
/// the record tests an attribute that splits and whose split gives the
/// optimum, and the cache is marked done; where the candidates were tried
/// in the order `order` (`ordered`), it is the first of them whose split
/// gives the optimum.
pub open spec fn plain_outcome<T: ItemsetBitvector>(
    ops: T,
    cache: Trie,
    node: Node,
    parent: Node,
    ub: u64,
    ms: u64,
    maxd: u64,
    order: Seq<Attribute>,
    ordered: bool,
) -> bool {
    let items = ops.items();
    let o = opt(ops, items, parent.leaf_error as int, ms, maxd);
    ||| node.test == parent.test && (node.node_error == parent.leaf_error || (o >= ub && node == parent))
    ||| {
        &&& o < ub
        &&& node.test < ops.n_attributes()
        &&& splits_on(ops, items, node.test, ms)
        &&& split_error(ops, items, node.test, ms, maxd) == o
        &&& cache.is_done
        &&& ordered ==> first_best(ops, order, node.test, ms, maxd)
    }
}

/// `t` is the first attribute of `order` whose split below the current
/// itemset of `ops` gives the optimum: every attribute before it gives a
/// larger error.
pub open spec fn first_best<T: ItemsetBitvector>(ops: T, order: Seq<Attribute>, t: Attribute, ms: u64, maxd: u64) -> bool {
    let items = ops.items();
    exists|k: int|
        0 <= k < order.len() && #[trigger] order[k] == t && forall|j: int|
            0 <= j < k ==> split_error(ops, items, #[trigger] order[j], ms, maxd) > split_error(
                ops,
                items,
                t,
                ms,
                maxd,
            )
}

/// What the plain search leaves at the root: the cache's root holds the
/// record returned (or, where the search found no tree, the root record it
/// had, and the record returned is a new one); where the best tree with a
/// test at the root errs less than `max_error`, the cache is marked done and
/// the record tests an attribute that splits and whose split gives that
/// error, the first such attribute in the order the root's candidates were
/// tried where they were not reordered (`ordered`); else the record carries
/// no error and no test.
pub open spec fn plain_root<T: ItemsetBitvector>(
    ops: T,
    cache_before: Trie,
    cache: Trie,
    node: Node,
    max_error: u64,
    ms: u64,
    maxd: u64,
    ordered: bool,
) -> bool {
    let empty = Seq::<Item>::empty();
    let o = opt(ops, empty, u64::MAX as int, ms, maxd);
    &&& (cache.root.data == node || (node == fresh_node(usize::MAX, 0) && cache.root.data
        == cache_before.root.data))
    &&& (ordered && o < max_error) ==> first_best(
        ops,
        successors(ops, root_candidates(ops, ops.n_attributes(), ms), usize::MAX, ms),
        node.test,
        ms,
        maxd,
    )
    &&& o < max_error ==> {
        &&& cache.is_done
        &&& node.test < ops.n_attributes()
        &&& splits_on(ops, empty, node.test, ms)
        &&& split_error(ops, empty, node.test, ms, maxd) == o
    }
    &&& o >= max_error ==> node.node_error == u64::MAX && node.test == usize::MAX
}

/// A node the stop test lets through comes back as it was, but for the
/// error that reloading without a discrepancy clears.
proof fn lemma_stop_keeps(
    node: Node,
    upper_bond: u64,
    min_support: u64,
    current_support: u64,
    depth: u64,
    max_depth: u64,
    out_of_time: bool,
    reload_cache: bool,
    current_discrepancy: Option<u64>,
    max_discrepancy: Option<u64>,
)
    ensures
        ({
            let out = stop_outcome(
                node,
                upper_bond,
                min_support,
                current_support,
                depth,
                max_depth,
                out_of_time,
                reload_cache,
                current_discrepancy,
                max_discrepancy,
            );
            !out.0 ==> out.1 == node || (reload_cache && current_discrepancy is None && out.1 == (Node {
                node_error: u64::MAX,
                ..node
            }))
        }),
{
}

/// Operators over the same dataset at the same itemset agree on the first
/// best attribute of an order.
proof fn lemma_first_best_same<T: ItemsetBitvector>(a: T, b: T, order: Seq<Attribute>, t: Attribute, ms: u64, maxd: u64)
    requires
        same_dataset(a, b),
        a.items() == b.items(),
        first_best(a, order, t, ms, maxd),
    ensures
        first_best(b, order, t, ms, maxd),
{
    let items = a.items();
    let k = choose|k: int|
        0 <= k < order.len() && #[trigger] order[k] == t && forall|j: int|
            0 <= j < k ==> split_error(a, items, #[trigger] order[j], ms, maxd) > split_error(
                a,
                items,
                t,
                ms,
                maxd,
            );
    lemma_split_error_same_dataset(a, b, items, t, ms, maxd);
    assert forall|j: int| 0 <= j < k implies split_error(b, items, #[trigger] order[j], ms, maxd) > split_error(
        b,
        items,
        t,
        ms,
        maxd,
    ) by {
        lemma_split_error_same_dataset(a, b, items, order[j], ms, maxd);
    }
    assert(order[k] == t);
}

/// The result of the search: the cache, the operator, the root's record, the
/// start time and the duration in milliseconds.
pub type SearchOutput<T> = (Trie, T, Node, Instant, u128);

impl DL85 {
    /// Runs the search from the empty itemset: with `use_discrepancy`, a
    /// limited discrepancy search that raises the discrepancy allowed until
    /// it finds a tree of error 0, runs out of time or reaches the largest
    /// discrepancy; else one depth-first search. Returns the cache, the
    /// operator back at the empty itemset, the root's record, the start of
    /// the (last) search and its duration in milliseconds.
    ///
    /// The plain search (no discrepancy, no reloading, no time limit, no
    /// limit on recursive calls, a minimum support of at least one), over
    /// the dataset's attributes and a cache it can rely on (a new one is),
    /// finds the best tree: where the smallest error of a tree with a test
    /// at the root is below `max_error`, the root's record carries exactly
    /// that error; else "none" (`u64::MAX`) or an error no smaller. The
    /// cache's root then holds the record returned (`plain_root`): where
    /// the error is below `max_error`, the cache is marked done and the
    /// root tests an attribute whose split gives that error; else the
    /// root's record carries no error and no test.
    ///
    /// Without reordering by information gain, the root tests the first
    /// candidate, in attribute order, whose split gives that error.
    ///
    /// Without a time limit (`secs` is `None`) the search never reports a
    /// timeout, and from a new root record the record returned is the one
    /// the cache's root holds, in every mode; with a limit, a finished plain
    /// search reports a timeout from `final_millis` milliseconds on. A
    /// discrepancy search ends at a discrepancy no larger than the largest
    /// it allows, and stops before that only on an error of zero or a
    /// timeout; without a limit on the recursive calls it has searched once
    /// at each discrepancy from 0 to the one it ends at (the count of calls
    /// grows by at least one per search). With a limit on the recursive
    /// calls, the count of calls never passes it.
    ///
    /// In every mode (discrepancy, reloading, time limit, limit on the
    /// recursive calls, any minimum support), over a cache it can rely on,
    /// its root included (a new one is), the cache stays one it can rely on
    /// and the root's record carries "none" or an error no smaller than that
    /// of the best tree with a test at the root: the error of a tree found.
    pub fn run<T: ItemsetBitvector, H: SearchHeuristics>(
        &mut self,
        min_support: u64,
        max_depth: u64,
        max_error: u64,
        time_limit: &TimeLimit,
        use_info_gain: bool,
        use_discrepancy: bool,
        discrepancy_limit: Option<usize>,
        recursion_limit: Option<usize>,
        reload_cache: bool,
        its_ops: T,
        cache: Trie,
        heuristics: &H,
    ) -> (r: SearchOutput<T>)
        requires
            its_ops.wf(),
            its_ops.items() == Seq::<Item>::empty(),
            old(self).infos().1 <= its_ops.n_attributes(),
            use_discrepancy ==> discrepancy_fits_spec(
                root_candidates(its_ops, old(self).infos().1 as nat, min_support).len(),
                max_depth as nat,
            ),
        ensures
            final(self).infos() == old(self).infos(),
            restored(r.1, its_ops),
            holds_all(cache, r.0),
            r.0.root.item == cache.root.item,
            !use_discrepancy ==> r.0.has_timeout == (cache.has_timeout || (time_limit.secs is Some && r.4
                >= time_limit.final_millis)),
            time_limit.secs is None ==> r.0.has_timeout == (!use_discrepancy && cache.has_timeout),
            !use_discrepancy ==> r.0.discrepancy == cache.discrepancy,
            !use_discrepancy ==> r.0.max_discrepancy == cache.max_discrepancy,
            !use_discrepancy ==> keeps_leaf_data(r.2, fresh_node(usize::MAX, 0)),
            use_discrepancy ==> r.0.max_discrepancy == Some(
                max_discrepancy_of(
                    root_candidates(its_ops, old(self).infos().1 as nat, min_support).len(),
                    max_depth as nat,
                    discrepancy_limit,
                ) as usize,
            ),
            use_discrepancy ==> r.0.discrepancy is Some,
            plain_search(
                use_discrepancy,
                reload_cache,
                *time_limit,
                match recursion_limit {
                    Some(l) => l,
                    None => 0,
                },
                min_support,
            ) && old(self).infos().1 == its_ops.n_attributes() && cache_consistent(
                its_ops,
                cache,
                min_support,
                max_depth,
            ) ==> search_done(its_ops, r.0, r.2, max_error, u64::MAX, min_support, max_depth)
                && plain_root(its_ops, cache, r.0, r.2, max_error, min_support, max_depth, !use_info_gain),
            use_discrepancy ==> (r.0.discrepancy matches Some(d) && r.0.max_discrepancy matches Some(m) && d
                <= m),
            use_discrepancy ==> r.0.discrepancy == r.0.max_discrepancy || r.0.has_timeout
                || r.0.root.data.node_error == 0,
            (recursion_limit matches Some(l) && l > 0 && cache.recursion_count <= l) ==> r.0.recursion_count
                <= recursion_limit.unwrap(),
            time_limit.secs is None && cache.root.data == fresh_node(usize::MAX, 0) ==> r.2
                == r.0.root.data,
            use_discrepancy && recursion_limit is None ==> (r.0.discrepancy matches Some(d) && (
            r.0.recursion_count >= cache.recursion_count + d + 1 || r.0.recursion_count == usize::MAX)),
            reliable_cache(its_ops, cache, min_support, max_depth) ==> reliable_cache(
                its_ops,
                r.0,
                min_support,
                max_depth,
            ) && (r.2.node_error == u64::MAX || r.2.node_error >= opt(
                its_ops,
                Seq::<Item>::empty(),
                u64::MAX as int,
                min_support,
                max_depth,
            )),
    {
        let mut its_ops = its_ops;
        let mut cache = cache;
        let ghost start_ops = its_ops;
        let ghost start_cache = cache;
        let mut candidates_list = self.root_candidate_list(&mut its_ops, min_support);
        let ghost root_list = candidates_list@;
        let ghost ncand = candidates_list@.len();
        proof {
            let all = Seq::new(self.nattributes as nat, |i: int| i as usize);
            let p = |i: Attribute| root_keeps(start_ops, min_support, i);
            assert(attributes_below(candidates_list@, start_ops.n_attributes())) by {
                if min_support != 1 {
                    assert forall|k: int| 0 <= k < candidates_list@.len() implies #[trigger] candidates_list@[k]
                        < start_ops.n_attributes() by {
                        broadcast use vstd::seq_lib::group_filter_ensures;

                        assert(all.filter(p).contains(candidates_list@[k]));
                        all.lemma_filter_contains_rev(p, candidates_list@[k]);
                    }
                }
            }
        }

        if use_info_gain {
            let ghost before_sort = candidates_list@;
            let data = DL85::sort_by_information_gain(its_ops, candidates_list, heuristics);
            its_ops = data.0;
            candidates_list = data.1;
            proof {
                broadcast use vstd::seq_lib::group_to_multiset_ensures;

                assert forall|k: int| 0 <= k < candidates_list@.len() implies #[trigger] candidates_list@[k]
                    < its_ops.n_attributes() by {
                    assert(candidates_list@.to_multiset().count(candidates_list@[k]) > 0);
                    assert(before_sort.contains(candidates_list@[k]));
                }
            }
        }

        let rlimit = match recursion_limit {
            Some(limit) => limit,
            None => 0,
        };
        proof {
            lemma_sorted_items_in_order(its_ops.items());
            assert(sorted_items(its_ops.items()) =~= Seq::<Item>::empty());
        }
        let empty_itemset: Vec<Item> = Vec::new();

        let ghost plain = plain_search(use_discrepancy, reload_cache, *time_limit, rlimit, min_support)
            && self.nattributes == start_ops.n_attributes();
        proof {
            broadcast use vstd::seq_lib::group_to_multiset_ensures;

            if plain {
                start_ops.lemma_shape();
                assert(candidates_list@.to_multiset() == root_list.to_multiset());
                let all = Seq::new(self.nattributes as nat, |i: int| i as usize);
                let p = |i: Attribute| root_keeps(start_ops, min_support, i);
                assert forall|c: Attribute|
                    c < its_ops.n_attributes() && #[trigger] splits_on(its_ops, its_ops.items(), c, min_support)
                        implies candidates_list@.contains(c) && c != usize::MAX by {
                    assert(all[c as int] == c);
                    if min_support != 1 {
                        assert(p(c));
                        all.lemma_filter_contains(p, c as int);
                    }
                    assert(root_list.contains(c));
                    assert(root_list.to_multiset().count(c) > 0);
                }
                assert(search_shape(its_ops, usize::MAX, candidates_list@, 0, min_support));
            }
        }
        if !use_discrepancy {
            let now = instant_now();
            let ghost ops_call = its_ops;
            proof {
                if cache_consistent(start_ops, start_cache, min_support, max_depth) {
                    lemma_same_dataset_sym(ops_call, start_ops);
                    lemma_consistent_same_dataset(start_ops, ops_call, cache, min_support, max_depth);
                    if root_ready(start_ops, start_cache, min_support, max_depth) {
                        lemma_root_ready_same_dataset(start_ops, ops_call, cache, min_support, max_depth);
                    }
                }
            }
            let data = DL85::recursion(
                cache,
                its_ops,
                empty_itemset,
                usize::MAX,
                candidates_list,
                max_error,
                0,
                max_depth,
                use_discrepancy,
                None,
                None,
                rlimit,
                min_support,
                max_error,
                Node::new(usize::MAX, 0),
                now,
                time_limit,
                use_info_gain,
                reload_cache,
                heuristics,
                Ghost(plain),
                Ghost(true),
            );
            proof {
                if cache_consistent(start_ops, start_cache, min_support, max_depth) {
                    lemma_consistent_same_dataset(ops_call, start_ops, data.0, min_support, max_depth);
                    lemma_opt_same_dataset(
                        ops_call,
                        start_ops,
                        ops_call.items(),
                        u64::MAX as int,
                        min_support,
                        max_depth,
                    );
                    if root_ready(start_ops, start_cache, min_support, max_depth) {
                        lemma_root_ready_same_dataset(ops_call, start_ops, data.0, min_support, max_depth);
                    }
                    if plain {
                        let empty = Seq::<Item>::empty();
                        assert(ops_call.items() == empty);
                        assert(node_at(data.0.root, empty) == Some(data.0.root));
                        assert(node_at(start_cache.root, empty) == Some(start_cache.root));
                        lemma_split_error_same_dataset(ops_call, start_ops, empty, data.2.test, min_support, max_depth);
                        if !use_info_gain {
                            lemma_successors_same(start_ops, ops_call, root_list, usize::MAX, min_support);
                            let order = successors(start_ops, root_list, usize::MAX, min_support);
                            if first_best(ops_call, order, data.2.test, min_support, max_depth) {
                                lemma_first_best_same(ops_call, start_ops, order, data.2.test, min_support, max_depth);
                            }
                        }
                    }
                }
            }
            cache = data.0;
            let final_duration = duration_millis(&instant_elapsed(&data.3));
            if time_limit.secs.is_some() && final_duration >= time_limit.final_millis {
                cache.has_timeout = true;
            }
            (cache, data.1, data.2, data.3, final_duration)
        } else {
            let len = candidates_list.len() - 1;
            let mut max_discrepancy = len;
            let mut i: u64 = 1;
            while i < max_depth
                invariant
                    1 <= i,
                    i <= max_depth || max_depth == 0,
                    max_depth == 0 ==> i == 1,
                    len == ncand - 1,
                    discrepancy_fits_spec(ncand, max_depth as nat),
                    max_discrepancy == discrepancy_span(len as nat, i as nat),
                decreases max_depth - i,
            {
                proof {
                    lemma_discrepancy_span_mono(len as nat, (i + 1) as nat, max_depth as nat);
                }
                max_discrepancy += len - i as usize;
                i = i + 1;
            }
            proof {
                if max_depth == 0 {
                    assert(discrepancy_span(len as nat, 0) == len);
                } else {
                    assert(i == max_depth);
                }
            }
            if let Some(limit) = discrepancy_limit {
                if limit < max_discrepancy {
                    max_discrepancy = limit;
                }
            }
            cache.max_discrepancy = Some(max_discrepancy);
            cache.discrepancy = Some(0);
            let ghost first_cache = cache;
            let ghost ops_first = its_ops;
            let ghost reliable = reliable_cache(start_ops, start_cache, min_support, max_depth);
            proof {
                if reliable {
                    assert(cache.root == start_cache.root);
                    lemma_same_dataset_sym(ops_first, start_ops);
                    lemma_consistent_same_dataset(start_ops, ops_first, cache, min_support, max_depth);
                    lemma_root_ready_same_dataset(start_ops, ops_first, cache, min_support, max_depth);
                }
            }
            let mut reload = false;
            let mut now = instant_now();
            let mut data = DL85::recursion(
                cache,
                its_ops,
                copy_items(&empty_itemset),
                usize::MAX,
                copy_attributes(&candidates_list),
                max_error,
                0,
                max_depth,
                use_discrepancy,
                Some(0),
                Some(0),
                rlimit,
                min_support,
                max_error,
                Node::new(usize::MAX, 0),
                now,
                time_limit,
                use_info_gain,
                reload,
                heuristics,
                Ghost(false),
                Ghost(true),
            );
            proof {
                if reliable {
                    lemma_consistent_same_dataset(ops_first, start_ops, data.0, min_support, max_depth);
                    lemma_opt_same_dataset(
                        ops_first,
                        start_ops,
                        ops_first.items(),
                        u64::MAX as int,
                        min_support,
                        max_depth,
                    );
                    lemma_root_ready_same_dataset(ops_first, start_ops, data.0, min_support, max_depth);
                }
            }
            reload = true;
            let mut has_timeout = false;
            let mut discrepancy: usize = 1;
            while discrepancy < max_discrepancy + 1
                invariant
                    1 <= discrepancy <= max_discrepancy + 1,
                    max_discrepancy < usize::MAX,
                    max_discrepancy as int + candidates_list@.len() <= u64::MAX,
                    attributes_below(candidates_list@, start_ops.n_attributes()),
                    start_ops.wf(),
                    start_ops.items() == Seq::<Item>::empty(),
                    empty_itemset@ == Seq::<Item>::empty(),
                    restored(data.1, start_ops),
                    holds_all(cache, data.0),
                    data.0.root.item == cache.root.item,
                    data.0.max_discrepancy == Some(max_discrepancy),
                    data.0.discrepancy is Some,
                    use_discrepancy,
                    reliable == reliable_cache(start_ops, start_cache, min_support, max_depth),
                    has_timeout ==> time_limit.secs is Some,
                    data.0.discrepancy matches Some(d) && d <= max_discrepancy && (d + 1 == discrepancy || (d
                        == discrepancy && (data.0.root.data.node_error == 0 || has_timeout))),
                    rlimit > 0 && start_cache.recursion_count <= rlimit ==> data.0.recursion_count <= rlimit,
                    time_limit.secs is None && start_cache.root.data == fresh_node(usize::MAX, 0) ==> data.2
                        == data.0.root.data,
                    recursion_limit is None ==> rlimit == 0 && (data.0.discrepancy matches Some(d) && (
                    data.0.recursion_count >= start_cache.recursion_count + d + 1 || data.0.recursion_count
                        == usize::MAX)),
                    reliable ==> reliable_cache(start_ops, data.0, min_support, max_depth) && (data.2.node_error
                        == u64::MAX || data.2.node_error >= opt(
                        start_ops,
                        Seq::<Item>::empty(),
                        u64::MAX as int,
                        min_support,
                        max_depth,
                    )),
                ensures
                    data.0.discrepancy == Some(max_discrepancy) || has_timeout || data.0.root.data.node_error
                        == 0,
                decreases max_discrepancy + 1 - discrepancy,
            {
                let ghost before = data.0;
                let mut next_cache = data.0;
                next_cache.discrepancy = Some(discrepancy);
                let new_parent_node = next_cache.root.data;
                let current_error = next_cache.root.data.node_error;
                let new_upper_bound = if current_error < max_error {
                    current_error
                } else {
                    max_error
                };
                let mut next_ops = data.1;
                next_ops.reset();
                now = data.3;
                proof {
                    lemma_restored_trans(start_ops, data.1, next_ops);
                    lemma_sorted_items_in_order(next_ops.items());
                    assert(sorted_items(next_ops.items()) =~= Seq::<Item>::empty());
                    assert(holds_all(before, next_cache));
                    if reliable {
                        assert(next_cache.root == before.root);
                        lemma_same_dataset_sym(next_ops, start_ops);
                        lemma_consistent_same_dataset(start_ops, next_ops, next_cache, min_support, max_depth);
                        lemma_root_ready_same_dataset(start_ops, next_ops, next_cache, min_support, max_depth);
                    }
                }
                let ghost ops_iter = next_ops;
                data = DL85::recursion(
                    next_cache,
                    next_ops,
                    copy_items(&empty_itemset),
                    usize::MAX,
                    copy_attributes(&candidates_list),
                    new_upper_bound,
                    0,
                    max_depth,
                    use_discrepancy,
                    Some(0),
                    Some(discrepancy as u64),
                    rlimit,
                    min_support,
                    new_upper_bound,
                    new_parent_node,
                    now,
                    time_limit,
                    use_info_gain,
                    reload,
                    heuristics,
                    Ghost(false),
                    Ghost(reliable),
                );
                proof {
                    lemma_holds_all_trans(cache, before, next_cache);
                    lemma_holds_all_trans(cache, next_cache, data.0);
                    if reliable {
                        lemma_consistent_same_dataset(ops_iter, start_ops, data.0, min_support, max_depth);
                        lemma_opt_same_dataset(
                            ops_iter,
                            start_ops,
                            ops_iter.items(),
                            u64::MAX as int,
                            min_support,
                            max_depth,
                        );
                        lemma_root_ready_same_dataset(ops_iter, start_ops, data.0, min_support, max_depth);
                    }
                }
                if data.0.root.data.node_error == 0 {
                    break;
                }
                if time_limit.secs.is_some() {
                    if time_limit.is_exceeded(duration_secs(&instant_elapsed(&data.3))) {
                        has_timeout = true;
                        break;
                    }
                }
                discrepancy = discrepancy + 1;
            }
            let final_duration = duration_millis(&instant_elapsed(&data.3));
            let mut final_cache = data.0;
            final_cache.has_timeout = has_timeout;
            (final_cache, data.1, data.2, data.3, final_duration)
        }
    }

    /// Whether a discrepancy search over `ncandidates` candidates down to
    /// `max_depth` can count its discrepancies.
    pub fn discrepancy_fits(ncandidates: usize, max_depth: u64) -> (r: bool)
        ensures
            r == discrepancy_fits_spec(ncandidates as nat, max_depth as nat),
    {
        if ncandidates < 1 || max_depth > ncandidates as u64 {
            return false;
        }
        let len = ncandidates - 1;
        let mut span: u128 = len as u128;
        let mut i: u64 = 1;
        while i < max_depth
            invariant
                1 <= i,
                i <= max_depth || max_depth == 0,
                max_depth == 0 ==> i == 1,
                max_depth <= ncandidates,
                len == ncandidates - 1,
                span == discrepancy_span(len as nat, i as nat),
                span <= u64::MAX as u128 * (i as u128),
            decreases max_depth - i,
        {
            assert(i as usize <= len);
            span = span + (len - i as usize) as u128;
            i = i + 1;
            assert(span == discrepancy_span(len as nat, i as nat));
        }
        proof {
            if max_depth == 0 {
                assert(discrepancy_span(len as nat, 0) == len);
                assert(discrepancy_span(len as nat, 1) == len);
            } else {
                assert(i == max_depth);
            }
            assert(len as nat == (ncandidates - 1) as nat);
            assert(span == discrepancy_span(len as nat, max_depth as nat));
        }
        span < usize::MAX as u128 && span + ncandidates as u128 <= u64::MAX as u128
    }

    /// The candidates at the root: every attribute where the minimum support
    /// is one, else those whose two values both keep at least `min_support`
    /// transactions.
    pub fn root_candidate_list<T: ItemsetBitvector>(&self, its_ops: &mut T, min_support: u64) -> (r: Vec<
        Attribute,
    >)
        requires
            old(its_ops).wf(),
            self.infos().1 <= old(its_ops).n_attributes(),
        ensures
            restored(*final(its_ops), *old(its_ops)),
            r@ == root_candidates(*old(its_ops), self.infos().1 as nat, min_support),
    {
        let ghost start = *its_ops;
        let ghost all = Seq::new(self.nattributes as nat, |i: int| i as usize);
        let mut candidates_list: Vec<Attribute> = Vec::new();
        if min_support == 1 {
            let mut i: usize = 0;
            while i < self.nattributes
                invariant
                    i <= self.nattributes,
                    all == Seq::new(self.nattributes as nat, |i: int| i as usize),
                    candidates_list@ == all.take(i as int),
                decreases self.nattributes - i,
            {
                candidates_list.push(i);
                i = i + 1;
            }
            assert(all.take(self.nattributes as int) =~= all);
        } else {
            let mut i: usize = 0;
            while i < self.nattributes
                invariant
                    i <= self.nattributes,
                    self.nattributes <= start.n_attributes(),
                    start.wf(),
                    restored(*its_ops, start),
                    all == Seq::new(self.nattributes as nat, |i: int| i as usize),
                    candidates_list@ == all.take(i as int).filter(
                        |i: Attribute| root_keeps(start, min_support, i),
                    ),
                decreases self.nattributes - i,
            {
                proof {
                    reveal_with_fuel(Seq::<_>::filter, 1);
                    assert(all.take(i as int + 1).drop_last() =~= all.take(i as int));
                }
                let ghost before = *its_ops;
                if its_ops.temp_intersection(&(i, false)) >= min_support as usize
                    && its_ops.temp_intersection(&(i, true)) >= min_support as usize {
                    candidates_list.push(i);
                }
                proof {
                    lemma_restored_trans(start, before, *its_ops);
                }
                i = i + 1;
            }
            assert(all.take(self.nattributes as int) =~= all);
        }
        candidates_list
    }
}

impl DL85 {
    /// The numbers of transactions, attributes and classes the search was
    /// set up for.
    pub closed spec fn infos(&self) -> (usize, usize, usize) {
        (self.ntransactions, self.nattributes, self.nclasses)
    }

    pub fn new(data: (usize, usize, usize)) -> (r: DL85)
        ensures
            r.infos() == data,
    {
        DL85 { ntransactions: data.0, nattributes: data.1, nclasses: data.2 }
    }

    /// Whether the search stops at `node`, and the node as it leaves it.
    fn check_if_stop_condition_reached(
        node: Node,
        upper_bond: u64,
        min_support: u64,
        current_support: u64,
        depth: u64,
        max_depth: u64,
        out_of_time: bool,
        reload_cache: bool,
        current_discrepancy: Option<u64>,
        max_discrepancy: Option<u64>,
    ) -> (r: (bool, Node))
        requires
            !out_of_time && current_discrepancy is Some ==> max_discrepancy is Some,
        ensures
            r == stop_outcome(
                node,
                upper_bond,
                min_support,
                current_support,
                depth,
                max_depth,
                out_of_time,
                reload_cache,
                current_discrepancy,
                max_discrepancy,
            ),
    {
        let mut node = node;
        if out_of_time {
            node.node_error = node.leaf_error;
            node.is_explored = false;
            return (true, node);
        }
        if reload_cache {
            if current_discrepancy.is_some() {
                if (current_discrepancy.unwrap() > max_discrepancy.unwrap()) && node.is_explored {
                    node.current_discrepancy = max_discrepancy;
                    return (true, node);
                }
                if node.node_error == 0 {
                    return (true, node);
                }
            } else {
                if node.is_explored {
                    return (true, node);
                }
                node.node_error = u64::MAX;
            }
        }
        if current_discrepancy.is_some() {
            if (current_discrepancy.unwrap() > max_discrepancy.unwrap()) && node.is_explored {
                return (true, node);
            }
        }
        if depth == max_depth || current_support / 2 < min_support {
            node.node_error = node.leaf_error;
            node.is_leaf = true;
            node.is_explored = true;
            return (true, node);
        }
        if upper_bond <= node.lower_bound {
            node.node_error = node.leaf_error;
            node.is_explored = true;
            return (true, node);
        }
        if node.leaf_error == 0 {
            node.node_error = node.leaf_error;
            node.is_leaf = true;
            node.is_explored = true;
            return (true, node);
        }
        (false, node)
    }

    /// The search below the current itemset (`current_itemset`, in order, the
    /// itemset the operator holds), whose record is `parent_node_data`.
    /// Returns the cache, the operator back at the current itemset, the
    /// itemset's record with the error of the best tree found, and the start
    /// of the search. Where `vouched` holds (where the cache can be relied
    /// on, so can the itemset's record) and the cache can be relied on, it
    /// still can (its root too, where it could), and the error found is
    /// "none" or no smaller than the optimum, in every mode. Where `law`
    /// holds as well (the plain search, from the right place), the error
    /// found is the optimum under the upper bound.
    #[verifier::spinoff_prover]
    #[verifier::rlimit(100)]
    fn recursion<T: ItemsetBitvector, H: SearchHeuristics>(
        cache_in: Trie,
        its_op_in: T,
        current_itemset: Vec<Item>,
        last_attribute: Attribute,
        next_candidates: Vec<Attribute>,
        upper_bound: u64,
        depth: u64,
        max_depth: u64,
        use_discrepancy: bool,
        current_discrepancy: Option<u64>,
        max_discrepancy: Option<u64>,
        recursion_limit: usize,
        min_support: u64,
        max_error: u64,
        parent_node_data_in: Node,
        instant_in: Instant,
        time_limit: &TimeLimit,
        use_info_gain: bool,
        reload_cache: bool,
        heuristics: &H,
        Ghost(law): Ghost<bool>,
        Ghost(vouched): Ghost<bool>,
    ) -> (r: (Trie, T, Node, Instant))
        requires
            its_op_in.wf(),
            current_itemset@ == sorted_items(its_op_in.items()),
            node_at(cache_in.root, current_itemset@) is Some,
            attributes_below(next_candidates@, its_op_in.n_attributes()),
            depth <= max_depth,
            use_discrepancy ==> {
                &&& current_discrepancy is Some
                &&& max_discrepancy is Some
                &&& current_discrepancy.unwrap() <= max_discrepancy.unwrap()
                &&& max_discrepancy.unwrap() + next_candidates@.len() <= u64::MAX
            },
            current_discrepancy is Some ==> max_discrepancy is Some,
            current_discrepancy is Some ==> use_discrepancy,
            depth == its_op_in.items().len(),
            law ==> plain_search(use_discrepancy, reload_cache, *time_limit, recursion_limit, min_support)
                && search_shape(
                its_op_in,
                last_attribute,
                next_candidates@,
                depth,
                min_support,
            ),
            law ==> vouched,
            vouched && cache_consistent(its_op_in, cache_in, min_support, max_depth) ==> parent_ready(
                its_op_in,
                parent_node_data_in,
                depth,
                min_support,
                max_depth,
            ),
        ensures
            vouched && cache_consistent(its_op_in, cache_in, min_support, max_depth) ==> search_sound(
                its_op_in,
                r.0,
                r.2,
                parent_node_data_in.leaf_error,
                min_support,
                max_depth,
            ),
            vouched && cache_consistent(its_op_in, cache_in, min_support, max_depth) && root_ready(
                its_op_in,
                cache_in,
                min_support,
                max_depth,
            ) && (depth == 0 ==> parent_node_data_in.leaf_error == u64::MAX) ==> root_ready(
                its_op_in,
                r.0,
                min_support,
                max_depth,
            ),
            law && cache_consistent(its_op_in, cache_in, min_support, max_depth) ==> search_done(
                its_op_in,
                r.0,
                r.2,
                upper_bound,
                parent_node_data_in.leaf_error,
                min_support,
                max_depth,
            ),
            restored(r.1, its_op_in),
            holds_all(cache_in, r.0),
            keeps_leaf_data(r.2, parent_node_data_in),
            r.0.root.item == cache_in.root.item,
            r.0.discrepancy == cache_in.discrepancy,
            r.0.max_discrepancy == cache_in.max_discrepancy,
            r.0.has_timeout == cache_in.has_timeout,
            r.3 == instant_in,
            cache_in.is_done ==> r.0.is_done,
            keeps_below(cache_in, r.0, depth as nat),
            node_at(r.0.root, current_itemset@) is Some,
            r.0.recursion_count >= cache_in.recursion_count,
            recursion_limit > 0 && cache_in.recursion_count >= recursion_limit ==> {
                &&& r.2 == (Node {
                    is_explored: false,
                    node_error: parent_node_data_in.leaf_error,
                    ..parent_node_data_in
                })
                &&& node_at(r.0.root, current_itemset@).unwrap().data == r.2
                &&& r.0.recursion_count == cache_in.recursion_count
            },
            !(recursion_limit > 0 && cache_in.recursion_count >= recursion_limit) && cache_in.recursion_count
                < usize::MAX ==> r.0.recursion_count > cache_in.recursion_count,
            time_limit.secs is None ==> node_at(r.0.root, current_itemset@).unwrap().data == r.2 || (node_at(
                r.0.root,
                current_itemset@,
            ).unwrap().data == node_at(cache_in.root, current_itemset@).unwrap().data && (r.2
                == parent_node_data_in || (reload_cache && !use_discrepancy && r.2 == (Node {
                node_error: u64::MAX,
                ..parent_node_data_in
            })))),
            recursion_limit > 0 && cache_in.recursion_count <= recursion_limit ==> r.0.recursion_count
                <= recursion_limit,
            law && cache_consistent(its_op_in, cache_in, min_support, max_depth) ==> plain_outcome(
                its_op_in,
                r.0,
                r.2,
                parent_node_data_in,
                upper_bound,
                min_support,
                max_depth,
                successors(its_op_in, next_candidates@, last_attribute, min_support),
                !use_info_gain,
            ),
        decreases max_depth - depth,
    {
        let mut cache = cache_in;
        let mut its_op = its_op_in;
        let mut parent_node_data = parent_node_data_in;
        let ghost start_ops = its_op;
        let ghost start_cache = cache;
        let ghost start_parent = parent_node_data;
        let ghost shaped = law;
        let ghost plain = shaped && cache_consistent(start_ops, start_cache, min_support, max_depth);
        let ghost items = start_ops.items();
        let ghost lam = parent_node_data_in.leaf_error;
        let ghost o = opt(start_ops, items, lam as int, min_support, max_depth);
        let ghost sound = vouched && cache_consistent(start_ops, start_cache, min_support, max_depth);
        let ghost rooted = sound && root_ready(start_ops, start_cache, min_support, max_depth) && (depth
            == 0 ==> lam == u64::MAX);
        proof {
            lemma_sorted_items_in_order(items);
            if sound {
                lemma_opt_nonneg(start_ops, items, lam as int, min_support, max_depth);
                lemma_leaf_not_below_opt(start_ops, items, lam, min_support, max_depth);
                if lam != u64::MAX {
                    lemma_leaf_nonneg(start_ops, items);
                    lemma_opt_bounds(start_ops, items, lam as int, min_support, max_depth);
                }
            }
        }
        let instant = instant_in;
        heuristics.record_current_error(cache.root.data.node_error);
        if recursion_limit > 0 && cache.recursion_count >= recursion_limit {
            parent_node_data.is_explored = false;
            parent_node_data.node_error = parent_node_data.leaf_error;
            let ghost before_update = cache;
            cache.update(&current_itemset, parent_node_data);
            proof {
                assert(before_update.root == start_cache.root);
                lemma_update_keeps_below(before_update, cache, current_itemset@, depth as nat);
                if sound {
                    lemma_store_ready(
                        start_ops,
                        before_update,
                        cache,
                        current_itemset@,
                        parent_node_data,
                        depth,
                        min_support,
                        max_depth,
                    );
                }
            }
            return (cache, its_op, parent_node_data, instant);
        }
        cache.recursion_count = cache.recursion_count.saturating_add(1);
        let mut child_upper_bound = upper_bound;
        let time_bundle = DL85::check_time_out(instant, time_limit);
        let out_of_time = time_bundle.0;
        let instant = time_bundle.1;

        if use_discrepancy && out_of_time {
            parent_node_data.is_explored = false;
            parent_node_data.node_error = parent_node_data.leaf_error;
            let ghost before_update = cache;
            cache.update(&current_itemset, parent_node_data);
            proof {
                assert(before_update.root == start_cache.root);
                lemma_update_keeps_below(before_update, cache, current_itemset@, depth as nat);
                if sound {
                    lemma_store_ready(
                        start_ops,
                        before_update,
                        cache,
                        current_itemset@,
                        parent_node_data,
                        depth,
                        min_support,
                        max_depth,
                    );
                }
            }
            return (cache, its_op, parent_node_data, instant);
        }

        let current_support = its_op.support() as u64;
        let data = if !use_discrepancy {
            DL85::check_if_stop_condition_reached(
                parent_node_data,
                upper_bound,
                min_support,
                current_support,
                depth,
                max_depth,
                out_of_time,
                reload_cache,
                None,
                None,
            )
        } else {
            DL85::check_if_stop_condition_reached(
                parent_node_data,
                upper_bound,
                min_support,
                current_support,
                depth,
                max_depth,
                out_of_time,
                reload_cache,
                current_discrepancy,
                max_discrepancy,
            )
        };

        proof {
            if sound {
                if !use_discrepancy {
                    lemma_stop_ready(
                        start_ops,
                        parent_node_data,
                        depth,
                        min_support,
                        max_depth,
                        upper_bound,
                        current_support,
                        out_of_time,
                        reload_cache,
                        None,
                        None,
                    );
                } else {
                    lemma_stop_ready(
                        start_ops,
                        parent_node_data,
                        depth,
                        min_support,
                        max_depth,
                        upper_bound,
                        current_support,
                        out_of_time,
                        reload_cache,
                        current_discrepancy,
                        max_discrepancy,
                    );
                }
            }
        }
        if data.0 {
            let ghost before_update = cache;
            cache.update(&current_itemset, data.1);
            proof {
                assert(before_update.root == start_cache.root);
                lemma_update_keeps_below(before_update, cache, current_itemset@, depth as nat);
                if sound {
                    lemma_store_ready(
                        start_ops,
                        before_update,
                        cache,
                        current_itemset@,
                        data.1,
                        depth,
                        min_support,
                        max_depth,
                    );
                }
                if plain {
                    assert(data.1.node_error == lam);
                }
            }
            return (cache, its_op, data.1, instant);
        }
        parent_node_data = data.1;
        let ghost stop_node = data.1;
        assert(depth < max_depth);
        proof {
            if law {
                assert(parent_node_data == start_parent);
            }
            if !use_discrepancy {
                lemma_stop_keeps(
                    start_parent,
                    upper_bound,
                    min_support,
                    current_support,
                    depth,
                    max_depth,
                    out_of_time,
                    reload_cache,
                    None,
                    None,
                );
            } else {
                lemma_stop_keeps(
                    start_parent,
                    upper_bound,
                    min_support,
                    current_support,
                    depth,
                    max_depth,
                    out_of_time,
                    reload_cache,
                    current_discrepancy,
                    max_discrepancy,
                );
            }
        }

        let ghost ops_before_succ = its_op;
        let mut new_candidates = DL85::retrieve_next_successors(
            &next_candidates,
            last_attribute,
            &mut its_op,
            min_support,
        );
        proof {
            lemma_restored_trans(start_ops, ops_before_succ, its_op);
            let p = |c: Attribute| keeps_candidate(ops_before_succ, last_attribute, min_support, c);
            assert(new_candidates@ == next_candidates@.filter(p));
            next_candidates@.lemma_filter_len(p);
            assert(attributes_below(new_candidates@, its_op.n_attributes())) by {
                broadcast use vstd::seq_lib::group_filter_ensures;

                assert forall|i: int| 0 <= i < new_candidates@.len() implies #[trigger] new_candidates@[i]
                    < its_op.n_attributes() by {
                    assert(next_candidates@.filter(p).contains(new_candidates@[i]));
                    next_candidates@.lemma_filter_contains_rev(p, new_candidates@[i]);
                }
            }
        }

        proof {
            lemma_successors_same(start_ops, ops_before_succ, next_candidates@, last_attribute, min_support);
            lemma_successors_all_split(start_ops, next_candidates@, last_attribute, min_support);
            if shaped {
                lemma_successors_split(start_ops, next_candidates@, last_attribute, min_support);
                lemma_best_from_candidates(start_ops, items, new_candidates@, last_attribute, min_support, max_depth);
                assert(o == match best_split(start_ops, items, min_support, max_depth, 0) {
                    Some(b) => b,
                    None => lam as int,
                });
            }
        }
        if new_candidates.len() == 0 {
            parent_node_data.node_error = parent_node_data.leaf_error;
            parent_node_data.is_explored = true;
            let ghost before_update = cache;
            cache.update(&current_itemset, parent_node_data);
            proof {
                assert(before_update.root == start_cache.root);
                lemma_update_keeps_below(before_update, cache, current_itemset@, depth as nat);
                if sound {
                    lemma_store_ready(
                        start_ops,
                        before_update,
                        cache,
                        current_itemset@,
                        parent_node_data,
                        depth,
                        min_support,
                        max_depth,
                    );
                }
            }
            return (cache, its_op, parent_node_data, instant);
        }

        if use_info_gain {
            let ghost before_sort = new_candidates@;
            let data = DL85::sort_by_information_gain(its_op, new_candidates, heuristics);
            its_op = data.0;
            new_candidates = data.1;
            proof {
                broadcast use vstd::seq_lib::group_to_multiset_ensures;

                assert forall|i: int| 0 <= i < new_candidates@.len() implies #[trigger] new_candidates@[i]
                    < its_op.n_attributes() by {
                    assert(new_candidates@.to_multiset().count(new_candidates@[i]) > 0);
                    assert(before_sort.contains(new_candidates@[i]));
                }
                lemma_perm_all_split(start_ops, items, before_sort, new_candidates@, min_support);
                if shaped {
                    lemma_perm_candidates(start_ops, items, before_sort, new_candidates@, last_attribute, min_support);
                }
            }
        }
        proof {
            if shaped {
                lemma_best_from_candidates(start_ops, items, new_candidates@, last_attribute, min_support, max_depth);
            }
        }

        let mut idx: usize = 0;
        while idx < new_candidates.len()
            invariant
                restored(its_op, start_ops),
                start_ops == its_op_in,
                start_cache == cache_in,
                start_parent == parent_node_data_in,
                instant == instant_in,
                start_ops.wf(),
                current_itemset@ == sorted_items(its_op.items()),
                node_at(cache.root, current_itemset@) is Some,
                holds_all(start_cache, cache),
                attributes_below(new_candidates@, its_op.n_attributes()),
                new_candidates@.len() <= next_candidates@.len(),
                keeps_leaf_data(parent_node_data, start_parent),
                depth < max_depth,
                use_discrepancy ==> {
                    &&& current_discrepancy is Some
                    &&& max_discrepancy is Some
                    &&& current_discrepancy.unwrap() <= max_discrepancy.unwrap()
                    &&& max_discrepancy.unwrap() + next_candidates@.len() <= u64::MAX
                },
                current_discrepancy is Some ==> max_discrepancy is Some,
                cache.root.item == start_cache.root.item,
                cache.discrepancy == start_cache.discrepancy,
                cache.max_discrepancy == start_cache.max_discrepancy,
                cache.has_timeout == start_cache.has_timeout,
                idx <= new_candidates@.len(),
                shaped == law,
                !use_info_gain ==> new_candidates@ == successors(start_ops, next_candidates@, last_attribute, min_support),
                shaped ==> plain_search(use_discrepancy, reload_cache, *time_limit, recursion_limit, min_support),
                plain == (shaped && cache_consistent(start_ops, start_cache, min_support, max_depth)),
                shaped ==> {
                    &&& all_split(start_ops, items, new_candidates@, min_support)
                    &&& covers_splits(start_ops, items, new_candidates@, last_attribute, min_support)
                    &&& depth == items.len()
                    &&& depth < max_depth
                },
                current_discrepancy is Some ==> use_discrepancy,
                items == start_ops.items(),
                lam == start_parent.leaf_error,
                o == opt(start_ops, items, lam as int, min_support, max_depth),
                depth == items.len(),
                current_itemset@.len() == depth,
                start_ops.support_of(items) >= 2 * min_support,
                all_split(start_ops, items, new_candidates@, min_support),
                sound == (vouched && cache_consistent(start_ops, start_cache, min_support, max_depth)),
                law ==> vouched,
                rooted == (sound && root_ready(start_ops, start_cache, min_support, max_depth) && (depth == 0
                    ==> lam == u64::MAX)),
                sound ==> cache_consistent(start_ops, cache, min_support, max_depth) && parent_ready(
                    start_ops,
                    parent_node_data,
                    depth,
                    min_support,
                    max_depth,
                ),
                rooted ==> root_ready(start_ops, cache, min_support, max_depth),
                sound ==> (lam == u64::MAX || lam >= o),
                plain ==> {
                    &&& all_split(start_ops, items, new_candidates@, min_support)
                    &&& covers_splits(start_ops, items, new_candidates@, last_attribute, min_support)
                    &&& cache_consistent(start_ops, cache, min_support, max_depth)
                    &&& 0 < upper_bound
                    &&& child_upper_bound <= upper_bound
                    &&& depth == items.len()
                    &&& depth < max_depth
                    &&& new_candidates@.len() > 0
                    &&& (depth >= 1 ==> lam == leaf_error_of(start_ops, items))
                    &&& start_parent.lower_bound == 0
                    &&& best_split(start_ops, items, min_support, max_depth, 0) matches Some(b) && o == b
                    &&& forall|j: int|
                        0 <= j < new_candidates@.len() ==> split_error(
                            start_ops,
                            items,
                            #[trigger] new_candidates@[j],
                            min_support,
                            max_depth,
                        ) >= o
                    &&& exists|j: int|
                        0 <= j < new_candidates@.len() && split_error(
                            start_ops,
                            items,
                            #[trigger] new_candidates@[j],
                            min_support,
                            max_depth,
                        ) == o
                    &&& forall|j: int|
                        0 <= j < idx ==> split_error(
                            start_ops,
                            items,
                            #[trigger] new_candidates@[j],
                            min_support,
                            max_depth,
                        ) >= child_upper_bound
                    &&& child_upper_bound < upper_bound ==> parent_node_data.node_error == child_upper_bound
                        && exists|j: int|
                        0 <= j < idx && #[trigger] new_candidates@[j] == parent_node_data.test && split_error(
                            start_ops,
                            items,
                            new_candidates@[j],
                            min_support,
                            max_depth,
                        ) == child_upper_bound && forall|i: int|
                            0 <= i < j ==> split_error(
                                start_ops,
                                items,
                                #[trigger] new_candidates@[i],
                                min_support,
                                max_depth,
                            ) > child_upper_bound
                    &&& child_upper_bound == upper_bound ==> parent_node_data == start_parent
                },
                start_cache.is_done ==> cache.is_done,
                keeps_below(start_cache, cache, depth as nat),
                cache.recursion_count >= start_cache.recursion_count,
                start_cache.recursion_count < usize::MAX ==> cache.recursion_count > start_cache.recursion_count,
                !(recursion_limit > 0 && start_cache.recursion_count >= recursion_limit),
                time_limit.secs is None ==> node_at(cache.root, current_itemset@).unwrap().data
                    == parent_node_data || (parent_node_data == stop_node && node_at(
                    cache.root,
                    current_itemset@,
                ).unwrap().data == node_at(start_cache.root, current_itemset@).unwrap().data),
                stop_node == start_parent || (reload_cache && !use_discrepancy && stop_node == (Node {
                    node_error: u64::MAX,
                    ..start_parent
                })),
                law ==> stop_node == start_parent,
                recursion_limit > 0 && start_cache.recursion_count <= recursion_limit ==> cache.recursion_count
                    <= recursion_limit,
            ensures
                plain ==> idx == new_candidates@.len(),
            decreases new_candidates@.len() - idx,
        {
            if recursion_limit > 0 && cache.recursion_count >= recursion_limit {
                break;
            }
            let attribute = new_candidates[idx];
            let ghost old_cub = child_upper_bound;
            let ghost old_parent_error = parent_node_data.node_error;
            let ghost c_split = split_error(start_ops, items, attribute, min_support, max_depth);
            let child_discrepancy = if !use_discrepancy {
                None
            } else {
                Some(current_discrepancy.unwrap() + idx as u64)
            };
            if use_discrepancy && child_discrepancy.unwrap() > max_discrepancy.unwrap() {
                break;
            }
            let first_item: Item = (attribute, false);
            let second_item: Item = (attribute, true);
            let ghost ops_before_first = its_op;
            let ghost cache_before_first = cache;
            let _first_item_sup = its_op.intersection_cover(&first_item);
            let ghost ops1 = its_op;
            let mut child_item_set = copy_items(&current_itemset);
            child_item_set.push(first_item);
            sort_items(&mut child_item_set);
            proof {
                lemma_child_itemset(ops_before_first.items(), first_item);
            }
            let mut first_node_data = DL85::retrieve_cache_emplacement_for_current_its(
                &mut cache,
                &mut its_op,
                &first_item,
                depth,
                current_discrepancy,
            );
            let ghost ops2 = its_op;
            let ghost cache2 = cache;
            let ghost first_rec = first_node_data;
            proof {
                lemma_same_dataset_trans(start_ops, ops_before_first, ops1);
                lemma_child_itemset(items, first_item);
                lemma_child_ready_sound(
                    start_ops,
                    ops1,
                    ops2,
                    cache2,
                    attribute,
                    false,
                    depth,
                    child_item_set@,
                    first_rec,
                    min_support,
                    max_depth,
                );
                if shaped {
                    lemma_child_ready(
                        start_ops,
                        ops1,
                        ops2,
                        new_candidates@,
                        last_attribute,
                        attribute,
                        false,
                        depth,
                        min_support,
                        max_depth,
                    );
                }
                if sound {
                    lemma_same_dataset_sym(ops1, start_ops);
                    lemma_consistent_same_dataset(start_ops, ops1, cache_before_first, min_support, max_depth);
                    lemma_consistent_same_dataset(ops1, ops2, cache2, min_support, max_depth);
                    lemma_same_dataset_trans(start_ops, ops1, ops2);
                    lemma_same_dataset_sym(ops2, start_ops);
                    if rooted {
                        lemma_root_ready_same_dataset(start_ops, ops2, cache2, min_support, max_depth);
                    }
                }
            }
            let child_candidates = copy_attributes(&new_candidates);
            let data = DL85::recursion(
                cache,
                its_op,
                copy_items(&child_item_set),
                attribute,
                child_candidates,
                child_upper_bound,
                depth + 1,
                max_depth,
                use_discrepancy,
                child_discrepancy,
                max_discrepancy,
                recursion_limit,
                min_support,
                max_error,
                first_node_data,
                instant,
                time_limit,
                use_info_gain,
                reload_cache,
                heuristics,
                Ghost(law),
                Ghost(vouched),
            );
            cache = data.0;
            its_op = data.1;
            first_node_data = data.2;
            first_node_data.is_explored = true;
            let ghost cache3 = cache;
            cache.update(&child_item_set, first_node_data);
            let first_split_error = first_node_data.node_error;
            let ghost ops3 = its_op;
            its_op.backtrack();
            proof {
                assert(its_op.items() =~= ops_before_first.items());
                lemma_same_dataset_trans(ops_before_first, ops1, ops2);
                lemma_same_dataset_trans(ops_before_first, ops2, ops3);
                lemma_same_dataset_trans(ops_before_first, ops3, its_op);
                lemma_restored_trans(start_ops, ops_before_first, its_op);
                lemma_holds_all_trans(cache_before_first, cache2, cache3);
                lemma_update_holds_all(cache3, cache, child_item_set@);
                lemma_holds_all_trans(cache_before_first, cache3, cache);
                lemma_holds_all_trans(start_cache, cache_before_first, cache);
                lemma_sorted_items_in_order(ops1.items());
                lemma_update_keeps_below(cache3, cache, child_item_set@, (depth + 1) as nat);
                lemma_keeps_below_trans(cache_before_first, cache2, cache3, (depth + 1) as nat, (depth + 1) as nat);
                lemma_keeps_below_trans(cache_before_first, cache3, cache, (depth + 1) as nat, (depth + 1) as nat);
                lemma_keeps_below_trans(start_cache, cache_before_first, cache, depth as nat, (depth + 1) as nat);
                assert(node_at(cache_before_first.root, current_itemset@) is Some);
                if sound {
                    lemma_sorted_items_in_order(ops2.items());
                    lemma_child_sound(
                        start_ops,
                        ops2,
                        cache3,
                        cache,
                        child_item_set@,
                        first_rec,
                        data.2,
                        first_node_data,
                        min_support,
                        max_depth,
                    );
                    if rooted {
                        lemma_root_ready_same_dataset(ops2, start_ops, cache3, min_support, max_depth);
                    }
                }
                if plain {
                    lemma_child_done(
                        start_ops,
                        ops2,
                        cache3,
                        first_rec,
                        data.2,
                        child_upper_bound,
                        min_support,
                        max_depth,
                    );
                }
            }
            let ghost ol = opt(
                start_ops,
                items.push(first_item),
                leaf_error_of(start_ops, items.push(first_item)),
                min_support,
                max_depth,
            );
            let ghost or_ = opt(
                start_ops,
                items.push(second_item),
                leaf_error_of(start_ops, items.push(second_item)),
                min_support,
                max_depth,
            );
            proof {
                if sound {
                    lemma_leaf_nonneg(start_ops, items.push(second_item));
                    lemma_opt_nonneg(
                        start_ops,
                        items.push(second_item),
                        leaf_error_of(start_ops, items.push(second_item)),
                        min_support,
                        max_depth,
                    );
                    assert(c_split == ol + or_);
                }
            }

            if first_node_data.node_error < child_upper_bound {
                let ghost ops_before_second = its_op;
                let ghost cache_before_second = cache;
                let _second_item_sup = its_op.intersection_cover(&second_item);
                let ghost ops5 = its_op;
                let mut child_item_set = copy_items(&current_itemset);
                child_item_set.push(second_item);
                let mut second_node_data = DL85::retrieve_cache_emplacement_for_current_its(
                    &mut cache,
                    &mut its_op,
                    &second_item,
                    depth,
                    current_discrepancy,
                );
                let remaining_ub = child_upper_bound - first_split_error;
                sort_items(&mut child_item_set);
                proof {
                    lemma_child_itemset(ops_before_second.items(), second_item);
                }
                let ghost ops6 = its_op;
                let ghost cache6 = cache;
                let ghost second_rec = second_node_data;
                proof {
                    lemma_same_dataset_trans(start_ops, ops_before_second, ops5);
                    lemma_child_itemset(items, second_item);
                    lemma_child_ready_sound(
                        start_ops,
                        ops5,
                        ops6,
                        cache6,
                        attribute,
                        true,
                        depth,
                        child_item_set@,
                        second_rec,
                        min_support,
                        max_depth,
                    );
                    if shaped {
                        lemma_child_ready(
                            start_ops,
                            ops5,
                            ops6,
                            new_candidates@,
                            last_attribute,
                            attribute,
                            true,
                            depth,
                            min_support,
                            max_depth,
                        );
                    }
                    if sound {
                        lemma_same_dataset_sym(ops5, start_ops);
                        lemma_consistent_same_dataset(start_ops, ops5, cache_before_second, min_support, max_depth);
                        lemma_consistent_same_dataset(ops5, ops6, cache6, min_support, max_depth);
                        lemma_same_dataset_trans(start_ops, ops5, ops6);
                        lemma_same_dataset_sym(ops6, start_ops);
                        if rooted {
                            lemma_root_ready_same_dataset(start_ops, ops6, cache6, min_support, max_depth);
                        }
                    }
                }
                let child_candidates = copy_attributes(&new_candidates);
                let data = DL85::recursion(
                    cache,
                    its_op,
                    copy_items(&child_item_set),
                    attribute,
                    child_candidates,
                    remaining_ub,
                    depth + 1,
                    max_depth,
                    use_discrepancy,
                    child_discrepancy,
                    max_discrepancy,
                    recursion_limit,
                    min_support,
                    max_error,
                    second_node_data,
                    instant,
                    time_limit,
                    use_info_gain,
                    reload_cache,
                    heuristics,
                    Ghost(law),
                    Ghost(vouched),
                );
                cache = data.0;
                its_op = data.1;
                second_node_data = data.2;
                second_node_data.is_explored = true;
                let ghost cache7 = cache;
                cache.update(&child_item_set, second_node_data);
                let second_split_error = second_node_data.node_error;
                let ghost ops7 = its_op;
                its_op.backtrack();
                proof {
                    assert(its_op.items() =~= ops_before_second.items());
                    lemma_same_dataset_trans(ops_before_second, ops5, ops6);
                    lemma_same_dataset_trans(ops_before_second, ops6, ops7);
                    lemma_same_dataset_trans(ops_before_second, ops7, its_op);
                    lemma_restored_trans(start_ops, ops_before_second, its_op);
                    lemma_holds_all_trans(cache_before_second, cache6, cache7);
                    lemma_update_holds_all(cache7, cache, child_item_set@);
                    lemma_holds_all_trans(cache_before_second, cache7, cache);
                    lemma_holds_all_trans(start_cache, cache_before_second, cache);
                    lemma_sorted_items_in_order(ops5.items());
                    lemma_update_keeps_below(cache7, cache, child_item_set@, (depth + 1) as nat);
                    lemma_keeps_below_trans(cache_before_second, cache6, cache7, (depth + 1) as nat, (depth + 1) as nat);
                    lemma_keeps_below_trans(cache_before_second, cache7, cache, (depth + 1) as nat, (depth + 1) as nat);
                    lemma_keeps_below_trans(start_cache, cache_before_second, cache, depth as nat, (depth + 1) as nat);
                    assert(node_at(cache_before_second.root, current_itemset@) is Some);
                    if sound {
                        lemma_sorted_items_in_order(ops6.items());
                        lemma_child_sound(
                            start_ops,
                            ops6,
                            cache7,
                            cache,
                            child_item_set@,
                            second_rec,
                            data.2,
                            second_node_data,
                            min_support,
                            max_depth,
                        );
                        if rooted {
                            lemma_root_ready_same_dataset(ops6, start_ops, cache7, min_support, max_depth);
                        }
                        assert(ops6.items() == items.push(second_item));
                    }
                    if plain {
                        lemma_child_done(
                            start_ops,
                            ops6,
                            cache7,
                            second_rec,
                            data.2,
                            remaining_ub,
                            min_support,
                            max_depth,
                        );
                        assert(first_split_error == ol);
                    }
                }

                let feature_error = first_split_error.saturating_add(second_split_error);
                if feature_error < child_upper_bound {
                    parent_node_data.node_error = feature_error;
                    parent_node_data.test = attribute;
                    child_upper_bound = feature_error;
                    let ghost cache8 = cache;
                    cache.update(&current_itemset, parent_node_data);
                    proof {
                        lemma_update_holds_all(cache8, cache, current_itemset@);
                        lemma_holds_all_trans(start_cache, cache8, cache);
                        lemma_update_keeps_below(cache8, cache, current_itemset@, depth as nat);
                        lemma_keeps_below_trans(start_cache, cache8, cache, depth as nat, depth as nat);
                        if sound {
                            assert(first_split_error >= ol);
                            assert(second_split_error >= or_);
                            assert(new_candidates@[idx as int] == attribute);
                            lemma_opt_le_split(start_ops, items, lam as int, attribute, min_support, max_depth);
                            assert(feature_error >= c_split);
                            assert(c_split >= o);
                            lemma_store_ready(
                                start_ops,
                                cache8,
                                cache,
                                current_itemset@,
                                parent_node_data,
                                depth,
                                min_support,
                                max_depth,
                            );
                        }
                        if plain {
                            assert(second_split_error == or_);
                            assert(feature_error == c_split);
                        }
                    }
                } else {
                    proof {
                        if plain {
                            assert(c_split >= old_cub);
                        }
                    }
                }
            } else {
                let time_bundle = DL85::check_time_out(instant, time_limit);
                let out_of_time = time_bundle.0;
                if use_discrepancy && out_of_time {
                    parent_node_data.is_explored = false;
                    parent_node_data.node_error = parent_node_data.leaf_error;
                    return (cache, its_op, parent_node_data, instant);
                }
            }
            proof {
                if plain {
                    assert(c_split >= child_upper_bound);
                    assert(child_upper_bound < old_cub ==> c_split == child_upper_bound
                        && parent_node_data.node_error == child_upper_bound);
                    assert(child_upper_bound == old_cub ==> parent_node_data.node_error
                        == old_parent_error);
                    assert forall|j: int| 0 <= j < idx + 1 implies split_error(
                        start_ops,
                        items,
                        #[trigger] new_candidates@[j],
                        min_support,
                        max_depth,
                    ) >= child_upper_bound by {
                        if j < idx {
                            assert(split_error(start_ops, items, new_candidates@[j], min_support, max_depth) >= old_cub);
                        }
                    }
                    if child_upper_bound < upper_bound && child_upper_bound == old_cub {
                        let j = choose|j: int|
                            0 <= j < idx && #[trigger] new_candidates@[j] == parent_node_data.test && split_error(
                                start_ops,
                                items,
                                new_candidates@[j],
                                min_support,
                                max_depth,
                            ) == old_cub && forall|i: int|
                                0 <= i < j ==> split_error(
                                    start_ops,
                                    items,
                                    #[trigger] new_candidates@[i],
                                    min_support,
                                    max_depth,
                                ) > old_cub;
                        assert(0 <= j < idx + 1);
                    }
                    if child_upper_bound < old_cub {
                        assert(new_candidates@[idx as int] == attribute);
                        assert forall|i: int| 0 <= i < idx implies split_error(
                            start_ops,
                            items,
                            #[trigger] new_candidates@[i],
                            min_support,
                            max_depth,
                        ) > child_upper_bound by {
                            assert(split_error(start_ops, items, new_candidates@[i], min_support, max_depth) >= old_cub);
                        }
                        assert(0 <= idx < idx + 1 && new_candidates@[idx as int] == parent_node_data.test);
                    }
                }
            }
            idx = idx + 1;
        }
        proof {
            if plain {
                assert(idx == new_candidates@.len());
                let jb = choose|j: int|
                    0 <= j < new_candidates@.len() && split_error(
                        start_ops,
                        items,
                        #[trigger] new_candidates@[j],
                        min_support,
                        max_depth,
                    ) == o;
                assert(o >= child_upper_bound);
                if child_upper_bound < upper_bound {
                    let j = choose|j: int|
                        0 <= j < idx && #[trigger] new_candidates@[j] == parent_node_data.test && split_error(
                            start_ops,
                            items,
                            new_candidates@[j],
                            min_support,
                            max_depth,
                        ) == child_upper_bound && forall|i: int|
                            0 <= i < j ==> split_error(
                                start_ops,
                                items,
                                #[trigger] new_candidates@[i],
                                min_support,
                                max_depth,
                            ) > child_upper_bound;
                    assert(o <= child_upper_bound);
                    assert(new_candidates@[j] == parent_node_data.test);
                    assert(first_best(start_ops, new_candidates@, parent_node_data.test, min_support, max_depth));
                }
            }
        }
        cache.is_done = true;
        (cache, its_op, parent_node_data, instant)
    }

    /// Whether the search is out of time, the instant handed back, and the
    /// milliseconds elapsed since `instant` as read from the clock (0 where
    /// there is no limit, and the clock is not read). The search is out of
    /// time exactly when, under a limit of `l` whole seconds, more than `l`
    /// whole seconds have elapsed: at least `(l + 1) * 1000` milliseconds.
    fn check_time_out(instant: Instant, time_limit: &TimeLimit) -> (r: (bool, Instant, u128))
        ensures
            r.1 == instant,
            r.0 ==> time_limit.secs is Some,
            exists|secs: u64| r.0 == time_limit.exceeded_after(secs),
            time_limit.secs is None ==> r.2 == 0,
            r.0 == (time_limit.secs matches Some(l) && l < u64::MAX && r.2 >= (l + 1) * 1000),
    {
        if time_limit.secs.is_some() {
            let millis = duration_millis(&instant_elapsed(&instant));
            let whole = millis / 1000;
            let secs: u64 = if whole > u64::MAX as u128 {
                u64::MAX
            } else {
                whole as u64
            };
            (time_limit.is_exceeded(secs), instant, millis)
        } else {
            proof {
                assert(!time_limit.exceeded_after(0));
            }
            (false, instant, 0)
        }
    }

    /// The candidates kept below the current itemset, in their order.
    fn retrieve_next_successors<T: ItemsetBitvector>(
        candidates: &Vec<Attribute>,
        last_attribute: Attribute,
        its_op: &mut T,
        min_support: u64,
    ) -> (r: Vec<Attribute>)
        requires
            old(its_op).wf(),
            attributes_below(candidates@, old(its_op).n_attributes()),
        ensures
            restored(*final(its_op), *old(its_op)),
            r@ == successors(*old(its_op), candidates@, last_attribute, min_support),
    {
        let ghost start = *its_op;
        let mut next_candidates: Vec<Attribute> = Vec::new();
        let current_support = its_op.support();
        let mut i: usize = 0;
        while i < candidates.len()
            invariant
                restored(*its_op, start),
                start.wf(),
                attributes_below(candidates@, start.n_attributes()),
                current_support == start.support_of(start.items()),
                i <= candidates@.len(),
                next_candidates@ == candidates@.take(i as int).filter(
                    |c: Attribute| keeps_candidate(start, last_attribute, min_support, c),
                ),
            decreases candidates@.len() - i,
        {
            let candidate = candidates[i];
            proof {
                reveal_with_fuel(Seq::<_>::filter, 1);
                assert(candidates@.take(i as int + 1).drop_last() =~= candidates@.take(i as int));
            }
            if candidate == last_attribute {
                i = i + 1;
                continue;
            }
            proof {
                start.lemma_support_split(start.items(), candidate);
            }
            let left_sup = its_op.temp_intersection(&(candidate, false));
            let right_sup = current_support - left_sup;
            if left_sup >= min_support as usize && right_sup >= min_support as usize {
                next_candidates.push(candidate);
            }
            i = i + 1;
        }
        assert(candidates@.take(candidates@.len() as int) =~= candidates@);
        next_candidates
    }

    /// Reorders the candidates by decreasing rank of information gain of
    /// their split, the order among equal ranks kept. For each candidate,
    /// `heuristics` ranks the split of the current cover's class counts
    /// with the class counts of the candidate's `false` side (returned as
    /// `r.3`, in the order of the candidates) over the dataset's classes; the
    /// ranks it gave are `r.2`, in the order of the candidates, and the
    /// result is `ranked(candidates, r.2)`: each candidate once, in
    /// non-increasing order of those ranks, equal ranks in their order
    /// (`orders_by_rank`). The ranks themselves are the heuristics' own, of
    /// which nothing is stated.
    fn sort_by_information_gain<T: ItemsetBitvector, H: SearchHeuristics>(
        its_op: T,
        candidates: Vec<Attribute>,
        heuristics: &H,
    ) -> (r: (T, Vec<Attribute>, Ghost<Seq<u64>>, Ghost<Seq<Seq<usize>>>))
        requires
            its_op.wf(),
            attributes_below(candidates@, its_op.n_attributes()),
        ensures
            restored(r.0, its_op),
            r.2@.len() == candidates@.len(),
            ranked(candidates@, r.2@).0 == r.1@,
            exists|perm: Seq<int>| #[trigger] orders_by_rank(candidates@, r.2@, r.1@, perm),
            r.3@.len() == candidates@.len(),
            forall|i: int|
                0 <= i < candidates@.len() ==> (#[trigger] r.3@[i]).len() == its_op.n_classes() && forall|k: int|
                    0 <= k < its_op.n_classes() ==> r.3@[i][k] == its_op.class_support_of(
                        its_op.items().push((candidates@[i], false)),
                        k,
                    ),
            r.1@.to_multiset() == candidates@.to_multiset(),
            r.1@.len() == candidates@.len(),
    {
        let mut its_op = its_op;
        let ghost start = its_op;
        let actual_classes_cover = its_op.classes_cover();
        let mut sorted: Vec<Attribute> = Vec::new();
        let mut ranks: Vec<u64> = Vec::new();
        let ghost mut got: Seq<u64> = Seq::empty();
        let ghost mut lefts: Seq<Seq<usize>> = Seq::empty();
        let mut i: usize = 0;
        assert(sorted@ =~= candidates@.take(0));
        assert(candidates@.take(0) =~= Seq::<Attribute>::empty());
        while i < candidates.len()
            invariant
                restored(its_op, start),
                start.wf(),
                attributes_below(candidates@, start.n_attributes()),
                i <= candidates@.len(),
                got.len() == i,
                lefts.len() == i,
                forall|j: int|
                    0 <= j < i ==> (#[trigger] lefts[j]).len() == start.n_classes() && forall|k: int|
                        0 <= k < start.n_classes() ==> lefts[j][k] == start.class_support_of(
                            start.items().push((candidates@[j], false)),
                            k,
                        ),
                (sorted@, ranks@) == ranked(candidates@.take(i as int), got),
                sorted@.len() == ranks@.len(),
                sorted@.len() == i,
                sorted@.to_multiset() == candidates@.take(i as int).to_multiset(),
            decreases candidates@.len() - i,
        {
            let attribute = candidates[i];
            let attribute_classes_cover = its_op.temp_classes_cover(&(attribute, false));
            let nclasses = its_op.get_nclasses();
            let rank = heuristics.information_gain_rank(
                &actual_classes_cover,
                &attribute_classes_cover,
                nclasses,
            );
            let mut p: usize = 0;
            while p < ranks.len() && ranks[p] >= rank
                invariant
                    p <= ranks@.len(),
                    insert_pos(ranks@, rank, 0) == insert_pos(ranks@, rank, p as int),
                decreases ranks@.len() - p,
            {
                p = p + 1;
            }
            let ghost before = sorted@;
            let ghost before_ranks = ranks@;
            sorted.insert(p, attribute);
            ranks.insert(p, rank);
            proof {
                broadcast use vstd::seq_lib::group_to_multiset_ensures;

                let c = candidates@.take(i as int + 1);
                assert(c.drop_last() =~= candidates@.take(i as int));
                assert(got.push(rank).take(i as int) =~= got);
                got = got.push(rank);
                lefts = lefts.push(attribute_classes_cover@);
                assert(candidates@.take(i as int + 1) =~= candidates@.take(i as int).push(attribute));
            }
            i = i + 1;
        }
        assert(candidates@.take(candidates@.len() as int) =~= candidates@);
        assert(ranked(candidates@, got).0 == sorted@);
        proof {
            ranked_orders_by_rank(candidates@, got);
        }
        (its_op, sorted, Ghost(got), Ghost(lefts))
    }

    /// Finds or creates the cache node of the current itemset, which was just
    /// extended by `item`; a new node gets the leaf error and majority class
    /// of the itemset, the test `item.0`, the depth `depth` and the
    /// discrepancy given. Returns the node's record. An itemset already
    /// recorded comes back with its record, the cache holding the same
    /// itemsets with the same records and size.
    fn retrieve_cache_emplacement_for_current_its<T: ItemsetBitvector>(
        cache_ref: &mut Trie,
        its_op: &mut T,
        item: &Item,
        depth: u64,
        current_discrepancy: Option<u64>,
    ) -> (r: Node)
        requires
            old(its_op).wf(),
        ensures
            restored(*final(its_op), *old(its_op)),
            holds_all(*old(cache_ref), *final(cache_ref)),
            node_at(final(cache_ref).root, sorted_items(old(its_op).items())) is Some,
            node_at(final(cache_ref).root, sorted_items(old(its_op).items())).unwrap().data == r,
            !node_at(final(cache_ref).root, sorted_items(old(its_op).items())).unwrap().is_new,
            forall|ms: u64, maxd: u64|
                #[trigger] cache_consistent(*old(its_op), *old(cache_ref), ms, maxd)
                    && old(its_op).items().len() >= 1 ==> cache_consistent(
                    *old(its_op),
                    *final(cache_ref),
                    ms,
                    maxd,
                ) && record_consistent(*old(its_op), old(its_op).items(), r, ms, maxd),
            final(cache_ref).root.item == old(cache_ref).root.item,
            old(its_op).items().len() >= 1 ==> final(cache_ref).root.data == old(cache_ref).root.data,
            keeps_below(*old(cache_ref), *final(cache_ref), old(its_op).items().len()),
            ({
                let key = sorted_items(old(its_op).items());
                let held = node_at(old(cache_ref).root, key);
                if held is Some && !held.unwrap().is_new {
                    &&& r == held.unwrap().data
                    &&& final(cache_ref).cachesize == old(cache_ref).cachesize
                    &&& forall|k: Seq<Item>| #[trigger] node_at(final(cache_ref).root, k) is Some
                        <==> node_at(old(cache_ref).root, k) is Some
                    &&& keeps_entries(old(cache_ref).root, final(cache_ref).root)
                } else {
                    &&& r == (Node {
                        leaf_error: leaf_error_of(*old(its_op), old(its_op).items()) as u64,
                        max_class: first_max_index(class_supports(*old(its_op), old(its_op).items())) as usize,
                        current_discrepancy: current_discrepancy,
                        ..fresh_node(item.0, depth)
                    })
                    &&& final(cache_ref).cachesize == cachesize_after_insert(*old(cache_ref), key)
                }
            }),
            final(cache_ref).recursion_count == old(cache_ref).recursion_count,
            final(cache_ref).is_done == old(cache_ref).is_done,
            final(cache_ref).has_timeout == old(cache_ref).has_timeout,
            final(cache_ref).discrepancy == old(cache_ref).discrepancy,
            final(cache_ref).max_discrepancy == old(cache_ref).max_discrepancy,
    {
        let ghost ops0 = *its_op;
        let ghost cache0 = *cache_ref;
        let mut its = its_op.get_current();
        sort_items(&mut its);
        let node = cache_ref.insert(&its);
        let is_new = node.is_new;
        let data = node.data;
        let ghost inserted = *cache_ref;
        proof {
            lemma_sorted_items_in_order(ops0.items());
            if ops0.items().len() >= 1 {
                lemma_root_kept(cache0, inserted, its@);
            }
            lemma_update_keeps_below(cache0, inserted, its@, ops0.items().len());
            if node_at(cache0.root, its@) is Some {
                insert_of_held_itemset_adds_nothing(cache0, inserted, its@);
            }
            assert forall|ms: u64, maxd: u64| #[trigger]
                cache_consistent(ops0, cache0, ms, maxd) implies cache_consistent(
                ops0,
                inserted,
                ms,
                maxd,
            ) by {
                assert forall|k: Seq<Item>|
                    #[trigger] node_at(inserted.root, k) is Some && k.len() >= 1 && !node_at(
                        inserted.root,
                        k,
                    ).unwrap().is_new implies record_consistent(
                    ops0,
                    k,
                    node_at(inserted.root, k).unwrap().data,
                    ms,
                    maxd,
                ) by {
                    if node_at(cache0.root, k) is None {
                        assert(node_at(inserted.root, k).unwrap().is_new);
                    }
                }
            }
        }
        if is_new {
            let error = its_op.leaf_misclassication_error();
            let mut new_data = Node::new(item.0, depth);
            new_data.leaf_error = error.0 as u64;
            new_data.max_class = error.1;
            if current_discrepancy.is_some() {
                new_data.current_discrepancy = current_discrepancy;
            }
            cache_ref.update(&its, new_data);
            proof {
                let key = its@;
                if ops0.items().len() >= 1 {
                    lemma_root_kept(inserted, *cache_ref, key);
                }
                lemma_update_keeps_below(inserted, *cache_ref, key, ops0.items().len());
                lemma_keeps_below_trans(cache0, inserted, *cache_ref, ops0.items().len(), ops0.items().len());
                assert forall|ms: u64, maxd: u64| #[trigger]
                    cache_consistent(ops0, cache0, ms, maxd) && ops0.items().len() >= 1 implies cache_consistent(
                    ops0,
                    *cache_ref,
                    ms,
                    maxd,
                ) && record_consistent(ops0, ops0.items(), new_data, ms, maxd) by {
                    assert(cache_consistent(ops0, inserted, ms, maxd));
                    assert(new_data.leaf_error == leaf_error_of(ops0, ops0.items()));
                    lemma_record_order(ops0, ops0.items(), key, new_data, ms, maxd);
                    assert forall|k: Seq<Item>|
                        #[trigger] node_at(cache_ref.root, k) is Some && k.len() >= 1 && !node_at(
                            cache_ref.root,
                            k,
                        ).unwrap().is_new implies record_consistent(
                        ops0,
                        k,
                        node_at(cache_ref.root, k).unwrap().data,
                        ms,
                        maxd,
                    ) by {
                        if k != key {
                            assert(node_at(inserted.root, k) is Some);
                        }
                    }
                }
            }
            new_data
        } else {
            proof {
                let key = its@;
                assert forall|ms: u64, maxd: u64| #[trigger]
                    cache_consistent(ops0, cache0, ms, maxd) && ops0.items().len() >= 1 implies record_consistent(
                    ops0,
                    ops0.items(),
                    data,
                    ms,
                    maxd,
                ) by {
                    assert(cache_consistent(ops0, inserted, ms, maxd));
                    assert(node_at(inserted.root, key) is Some);
                    assert(key.len() >= 1);
                    assert(record_consistent(ops0, key, data, ms, maxd));
                    lemma_record_order(ops0, key, ops0.items(), data, ms, maxd);
                }
            }
            data
        }
    }
}

} // verus!
