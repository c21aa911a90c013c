//! The smallest error of a decision tree in the space that DL8.5 searches:
//! trees of bounded depth whose tests leave at least the minimum support on
//! each side, each leaf predicting the largest class of its transactions.
use vstd::prelude::*;
use crate::mining::itemset_bitvector_trait::{
    class_supports, first_max_index, lemma_first_max_index_bounds, lemma_seq_sum_ge_elem,
    same_dataset, seq_sum, ItemsetBitvector,
};
use crate::cache::trie::{node_at, same_entries_but, Trie};
use crate::mining::{Attribute, Item};
use crate::node::node::Node;

verus! {

/// The error of a leaf for `its`: the transactions outside its first
/// largest class.
pub open spec fn leaf_error_of<T: ItemsetBitvector>(ops: T, its: Seq<Item>) -> int {
    let s = class_supports(ops, its);
    seq_sum(s) - s[first_max_index(s)]
}

/// Testing attribute `c` below `its` leaves at least `min_support`
/// transactions on each side.
pub open spec fn splits_on<T: ItemsetBitvector>(ops: T, its: Seq<Item>, c: Attribute, min_support: u64) -> bool {
    &&& ops.support_of(its.push((c, false))) >= (min_support as usize)
    &&& ops.support_of(its.push((c, true))) >= (min_support as usize)
}

/// The smallest error of a tree below the itemset `its`, whose own leaf
/// counts `leaf` errors: the leaf where the depth is reached, too few
/// transactions remain for two sides, the leaf is already exact or no test
/// splits; else the best split.
pub open spec fn opt<T: ItemsetBitvector>(ops: T, its: Seq<Item>, leaf: int, min_support: u64, max_depth: u64) -> int
    decreases max_depth - its.len(), ops.n_attributes() + 2,
{
    if its.len() >= max_depth || ops.support_of(its) < 2 * min_support {
        leaf
    } else if leaf == 0 {
        0
    } else {
        match best_split(ops, its, min_support, max_depth, 0) {
            Some(b) => b,
            None => leaf,
        }
    }
}

/// The smallest error of a tree that tests `c` first below `its`.
pub open spec fn split_error<T: ItemsetBitvector>(ops: T, its: Seq<Item>, c: Attribute, min_support: u64, max_depth: u64) -> int
    decreases max_depth - its.len(), 0int,
{
    if its.len() >= max_depth {
        0
    } else {
        let l = its.push((c, false));
        let r = its.push((c, true));
        opt(ops, l, leaf_error_of(ops, l), min_support, max_depth) + opt(
            ops,
            r,
            leaf_error_of(ops, r),
            min_support,
            max_depth,
        )
    }
}

/// The smallest split error below `its` over the attributes from `c` on
/// that split; `None` where none splits.
pub open spec fn best_split<T: ItemsetBitvector>(ops: T, its: Seq<Item>, min_support: u64, max_depth: u64, c: nat) -> Option<int>
    decreases max_depth - its.len(), ops.n_attributes() - c + 1,
{
    if its.len() >= max_depth || c >= ops.n_attributes() {
        None
    } else {
        let rest = best_split(ops, its, min_support, max_depth, c + 1);
        if splits_on(ops, its, c as usize, min_support) {
            let e = split_error(ops, its, c as usize, min_support, max_depth);
            match rest {
                Some(r) => Some(if e <= r { e } else { r }),
                None => Some(e),
            }
        } else {
            rest
        }
    }
}

/// A record of the search for the itemset `k` that the search can rely on:
/// its leaf error, a lower bound of zero, and an error that is "none" or no
/// smaller than the optimum.
pub open spec fn record_consistent<T: ItemsetBitvector>(ops: T, k: Seq<Item>, d: Node, ms: u64, maxd: u64) -> bool {
    &&& d.leaf_error == leaf_error_of(ops, k)
    &&& d.lower_bound == 0
    &&& (d.node_error == u64::MAX || d.node_error >= opt(ops, k, leaf_error_of(ops, k), ms, maxd))
}

/// Every nonempty itemset of the cache that the search has recorded (no
/// longer new) has a record the search can rely on.
pub open spec fn cache_consistent<T: ItemsetBitvector>(ops: T, cache: Trie, ms: u64, maxd: u64) -> bool {
    forall|k: Seq<Item>|
        #[trigger] node_at(cache.root, k) is Some && k.len() >= 1 && !node_at(cache.root, k).unwrap().is_new
            ==> record_consistent(ops, k, node_at(cache.root, k).unwrap().data, ms, maxd)
}

/// A record that the search can rely on for an itemset holds for any order
/// of its items.
pub proof fn lemma_record_order<T: ItemsetBitvector>(ops: T, x: Seq<Item>, y: Seq<Item>, d: Node, ms: u64, maxd: u64)
    requires
        ops.wf(),
        x.to_multiset() == y.to_multiset(),
        record_consistent(ops, x, d, ms, maxd),
    ensures
        record_consistent(ops, y, d, ms, maxd),
{
    lemma_leaf_order(ops, x, y);
    lemma_opt_order(ops, x, y, leaf_error_of(ops, x), ms, maxd);
}

/// Operators over the same dataset rely on the same records.
pub proof fn lemma_consistent_same_dataset<T: ItemsetBitvector>(a: T, b: T, cache: Trie, ms: u64, maxd: u64)
    requires
        same_dataset(a, b),
        cache_consistent(a, cache, ms, maxd),
    ensures
        cache_consistent(b, cache, ms, maxd),
{
    assert forall|k: Seq<Item>|
        #[trigger] node_at(cache.root, k) is Some && k.len() >= 1 && !node_at(cache.root, k).unwrap().is_new
            implies record_consistent(b, k, node_at(cache.root, k).unwrap().data, ms, maxd) by {
        assert(class_supports(a, k) =~= class_supports(b, k));
        lemma_opt_same_dataset(a, b, k, leaf_error_of(a, k), ms, maxd);
    }
}

/// What the best split is: none where no attribute from `c` on splits;
/// else the error of some splitting attribute, no larger than that of any.
pub proof fn lemma_best_split_char<T: ItemsetBitvector>(ops: T, its: Seq<Item>, ms: u64, maxd: u64, c: nat)
    requires
        its.len() < maxd,
        c <= ops.n_attributes(),
    ensures
        best_split(ops, its, ms, maxd, c) is None <==> forall|x: nat|
            c <= x < ops.n_attributes() ==> !#[trigger] splits_on(ops, its, x as usize, ms),
        best_split(ops, its, ms, maxd, c) matches Some(b) ==> {
            &&& exists|x: nat|
                c <= x < ops.n_attributes() && #[trigger] splits_on(ops, its, x as usize, ms)
                    && split_error(ops, its, x as usize, ms, maxd) == b
            &&& forall|x: nat|
                c <= x < ops.n_attributes() && #[trigger] splits_on(ops, its, x as usize, ms)
                    ==> split_error(ops, its, x as usize, ms, maxd) >= b
        },
    decreases ops.n_attributes() - c,
{
    if c < ops.n_attributes() {
        lemma_best_split_char(ops, its, ms, maxd, c + 1);
        if splits_on(ops, its, c as usize, ms) {
            let e = split_error(ops, its, c as usize, ms, maxd);
            match best_split(ops, its, ms, maxd, c + 1) {
                Some(r) => {
                    if e <= r {
                        assert(splits_on(ops, its, c as usize, ms));
                    } else {
                        let x = choose|x: nat|
                            c + 1 <= x < ops.n_attributes() && #[trigger] splits_on(
                                ops,
                                its,
                                x as usize,
                                ms,
                            ) && split_error(ops, its, x as usize, ms, maxd) == r;
                        assert(c <= x < ops.n_attributes());
                    }
                },
                None => {
                    assert(splits_on(ops, its, c as usize, ms));
                },
            }
        } else {
            match best_split(ops, its, ms, maxd, c + 1) {
                Some(r) => {
                    let x = choose|x: nat|
                        c + 1 <= x < ops.n_attributes() && #[trigger] splits_on(
                            ops,
                            its,
                            x as usize,
                            ms,
                        ) && split_error(ops, its, x as usize, ms, maxd) == r;
                    assert(c <= x < ops.n_attributes());
                },
                None => {},
            }
        }
    }
}

/// Operators over the same dataset have the same optimum.
pub proof fn lemma_opt_same_dataset<T: ItemsetBitvector>(a: T, b: T, its: Seq<Item>, leaf: int, ms: u64, maxd: u64)
    requires
        same_dataset(a, b),
    ensures
        opt(a, its, leaf, ms, maxd) == opt(b, its, leaf, ms, maxd),
    decreases maxd - its.len(), a.n_attributes() + 2,
{
    if !(its.len() >= maxd || a.support_of(its) < 2 * ms) && leaf != 0 {
        lemma_best_split_same_dataset(a, b, its, ms, maxd, 0);
    }
}

pub proof fn lemma_split_error_same_dataset<T: ItemsetBitvector>(a: T, b: T, its: Seq<Item>, c: Attribute, ms: u64, maxd: u64)
    requires
        same_dataset(a, b),
    ensures
        split_error(a, its, c, ms, maxd) == split_error(b, its, c, ms, maxd),
    decreases maxd - its.len(), 0int,
{
    if its.len() < maxd {
        let l = its.push((c, false));
        let r = its.push((c, true));
        assert(class_supports(a, l) =~= class_supports(b, l));
        assert(class_supports(a, r) =~= class_supports(b, r));
        lemma_opt_same_dataset(a, b, l, leaf_error_of(a, l), ms, maxd);
        lemma_opt_same_dataset(a, b, r, leaf_error_of(a, r), ms, maxd);
    }
}

pub proof fn lemma_best_split_same_dataset<T: ItemsetBitvector>(a: T, b: T, its: Seq<Item>, ms: u64, maxd: u64, c: nat)
    requires
        same_dataset(a, b),
    ensures
        best_split(a, its, ms, maxd, c) == best_split(b, its, ms, maxd, c),
    decreases maxd - its.len(), a.n_attributes() - c + 1,
{
    if !(its.len() >= maxd || c >= a.n_attributes()) {
        lemma_best_split_same_dataset(a, b, its, ms, maxd, c + 1);
        if splits_on(a, its, c as usize, ms) {
            lemma_split_error_same_dataset(a, b, its, c as usize, ms, maxd);
        }
    }
}

/// Itemsets with the same items have the same optimum.
pub proof fn lemma_opt_order<T: ItemsetBitvector>(ops: T, x: Seq<Item>, y: Seq<Item>, leaf: int, ms: u64, maxd: u64)
    requires
        ops.wf(),
        x.to_multiset() == y.to_multiset(),
    ensures
        opt(ops, x, leaf, ms, maxd) == opt(ops, y, leaf, ms, maxd),
    decreases maxd - x.len(), ops.n_attributes() + 2,
{
    broadcast use vstd::seq_lib::group_to_multiset_ensures;

    assert(x.len() == y.len()) by {
        assert(x.to_multiset().len() == x.len());
        assert(y.to_multiset().len() == y.len());
    }
    ops.lemma_support_order(x, y);
    if !(x.len() >= maxd || ops.support_of(x) < 2 * ms) && leaf != 0 {
        lemma_best_split_order(ops, x, y, ms, maxd, 0);
    }
}

pub proof fn lemma_leaf_order<T: ItemsetBitvector>(ops: T, x: Seq<Item>, y: Seq<Item>)
    requires
        ops.wf(),
        x.to_multiset() == y.to_multiset(),
    ensures
        leaf_error_of(ops, x) == leaf_error_of(ops, y),
{
    ops.lemma_support_order(x, y);
    assert(class_supports(ops, x) =~= class_supports(ops, y));
}

pub proof fn lemma_split_error_order<T: ItemsetBitvector>(ops: T, x: Seq<Item>, y: Seq<Item>, c: Attribute, ms: u64, maxd: u64)
    requires
        ops.wf(),
        x.to_multiset() == y.to_multiset(),
        x.len() == y.len(),
    ensures
        split_error(ops, x, c, ms, maxd) == split_error(ops, y, c, ms, maxd),
    decreases maxd - x.len(), 0int,
{
    broadcast use vstd::seq_lib::group_to_multiset_ensures;

    if x.len() < maxd {
        let xl = x.push((c, false));
        let yl = y.push((c, false));
        let xr = x.push((c, true));
        let yr = y.push((c, true));
        assert(xl.to_multiset() =~= yl.to_multiset());
        assert(xr.to_multiset() =~= yr.to_multiset());
        lemma_leaf_order(ops, xl, yl);
        lemma_leaf_order(ops, xr, yr);
        lemma_opt_order(ops, xl, yl, leaf_error_of(ops, xl), ms, maxd);
        lemma_opt_order(ops, xr, yr, leaf_error_of(ops, xr), ms, maxd);
    }
}

pub proof fn lemma_best_split_order<T: ItemsetBitvector>(ops: T, x: Seq<Item>, y: Seq<Item>, ms: u64, maxd: u64, c: nat)
    requires
        ops.wf(),
        x.to_multiset() == y.to_multiset(),
        x.len() == y.len(),
    ensures
        best_split(ops, x, ms, maxd, c) == best_split(ops, y, ms, maxd, c),
    decreases maxd - x.len(), ops.n_attributes() - c + 1,
{
    broadcast use vstd::seq_lib::group_to_multiset_ensures;

    if !(x.len() >= maxd || c >= ops.n_attributes()) {
        lemma_best_split_order(ops, x, y, ms, maxd, c + 1);
        let cc = c as usize;
        assert(x.push((cc, false)).to_multiset() =~= y.push((cc, false)).to_multiset());
        assert(x.push((cc, true)).to_multiset() =~= y.push((cc, true)).to_multiset());
        ops.lemma_support_order(x.push((cc, false)), y.push((cc, false)));
        ops.lemma_support_order(x.push((cc, true)), y.push((cc, true)));
        if splits_on(ops, x, cc, ms) {
            lemma_split_error_order(ops, x, y, cc, ms, maxd);
        }
    }
}

/// The first largest value is no smaller than any.
pub proof fn lemma_first_max_is_max(s: Seq<nat>, i: int)
    requires
        0 <= i < s.len(),
    ensures
        s[first_max_index(s)] >= s[i],
    decreases s.len(),
{
    if s.len() > 1 {
        let d = s.drop_last();
        if i < s.len() - 1 {
            lemma_first_max_is_max(d, i);
        } else {
            lemma_first_max_index_bounds(d);
        }
        lemma_first_max_index_bounds(d);
    }
}

pub proof fn lemma_seq_sum_add(l: Seq<nat>, r: Seq<nat>, s: Seq<nat>)
    requires
        l.len() == s.len(),
        r.len() == s.len(),
        forall|k: int| 0 <= k < s.len() ==> #[trigger] s[k] == l[k] + r[k],
    ensures
        seq_sum(l) + seq_sum(r) == seq_sum(s),
    decreases s.len(),
{
    if s.len() > 0 {
        lemma_seq_sum_add(l.drop_last(), r.drop_last(), s.drop_last());
    }
}

/// A leaf error is at least zero.
pub proof fn lemma_leaf_nonneg<T: ItemsetBitvector>(ops: T, its: Seq<Item>)
    requires
        ops.wf(),
    ensures
        leaf_error_of(ops, its) >= 0,
{
    ops.lemma_shape();
    let s = class_supports(ops, its);
    lemma_first_max_index_bounds(s);
    lemma_seq_sum_ge_elem(s, first_max_index(s));
}

/// Splitting never makes the leaves worse.
pub proof fn lemma_split_leaves<T: ItemsetBitvector>(ops: T, its: Seq<Item>, c: Attribute)
    requires
        ops.wf(),
        c < ops.n_attributes(),
    ensures
        leaf_error_of(ops, its.push((c, false))) + leaf_error_of(ops, its.push((c, true)))
            <= leaf_error_of(ops, its),
{
    ops.lemma_shape();
    let s = class_supports(ops, its);
    let l = class_supports(ops, its.push((c, false)));
    let r = class_supports(ops, its.push((c, true)));
    assert forall|k: int| 0 <= k < s.len() implies #[trigger] s[k] == l[k] + r[k] by {
        ops.lemma_class_support_split(its, c, k);
    }
    lemma_seq_sum_add(l, r, s);
    lemma_first_max_index_bounds(s);
    lemma_first_max_index_bounds(l);
    lemma_first_max_index_bounds(r);
    let m = first_max_index(s);
    lemma_first_max_is_max(l, m);
    lemma_first_max_is_max(r, m);
}

/// The optimum lies between zero and the leaf error given, where that is
/// no smaller than the itemset's own leaf error.
pub proof fn lemma_opt_bounds<T: ItemsetBitvector>(ops: T, its: Seq<Item>, leaf: int, ms: u64, maxd: u64)
    requires
        ops.wf(),
        leaf >= leaf_error_of(ops, its),
    ensures
        0 <= opt(ops, its, leaf, ms, maxd) <= leaf,
    decreases maxd - its.len(),
{
    lemma_leaf_nonneg(ops, its);
    if !(its.len() >= maxd || ops.support_of(its) < 2 * ms) && leaf != 0 {
        lemma_best_split_char(ops, its, ms, maxd, 0);
        match best_split(ops, its, ms, maxd, 0) {
            Some(b) => {
                let x = choose|x: nat|
                    0 <= x < ops.n_attributes() && #[trigger] splits_on(ops, its, x as usize, ms)
                        && split_error(ops, its, x as usize, ms, maxd) == b;
                let c = x as usize;
                ops.lemma_shape();
                let l = its.push((c, false));
                let r = its.push((c, true));
                lemma_opt_bounds(ops, l, leaf_error_of(ops, l), ms, maxd);
                lemma_opt_bounds(ops, r, leaf_error_of(ops, r), ms, maxd);
                lemma_split_leaves(ops, its, c);
            },
            None => {},
        }
    }
}

/// Every attribute that splits below `its` is among `cands`, and is not
/// `last`.
pub open spec fn covers_splits<T: ItemsetBitvector>(ops: T, its: Seq<Item>, cands: Seq<Attribute>, last: Attribute, ms: u64) -> bool {
    forall|c: Attribute|
        c < ops.n_attributes() && #[trigger] splits_on(ops, its, c, ms) ==> cands.contains(c) && c != last
}

/// Every attribute of `cands` splits below `its`.
pub open spec fn all_split<T: ItemsetBitvector>(ops: T, its: Seq<Item>, cands: Seq<Attribute>, ms: u64) -> bool {
    forall|j: int|
        0 <= j < cands.len() ==> (#[trigger] cands[j]) < ops.n_attributes() && splits_on(ops, its, cands[j], ms)
}

/// Below a child of `its`, the attributes that split are among those that
/// split below `its`, and the attribute just tested does not split.
pub proof fn lemma_child_covered<T: ItemsetBitvector>(ops: T, its: Seq<Item>, cands: Seq<Attribute>, last: Attribute, ms: u64, c: Attribute, v: bool)
    requires
        ops.wf(),
        1 <= ms <= usize::MAX,
        c < ops.n_attributes(),
        covers_splits(ops, its, cands, last, ms),
    ensures
        covers_splits(ops, its.push((c, v)), cands, c, ms),
{
    broadcast use vstd::seq_lib::group_to_multiset_ensures;

    let child = its.push((c, v));
    assert forall|x: Attribute| x < ops.n_attributes() && #[trigger] splits_on(ops, child, x, ms) implies cands.contains(x)
        && x != c by {
        if x == c {
            assert(child.contains((c, v))) by {
                assert(child[its.len() as int] == (c, v));
            }
            ops.lemma_contradiction(child, c, v);
            if v {
                assert(ops.support_of(child.push((c, false))) == 0);
            } else {
                assert(ops.support_of(child.push((c, true))) == 0);
            }
        }
        assert forall|w: bool| #[trigger] ops.support_of(its.push((x, w))) >= ops.support_of(child.push((x, w))) by {
            let a = child.push((x, w));
            let b = its.push((x, w)).push((c, v));
            assert(a.to_multiset() =~= b.to_multiset());
            ops.lemma_support_order(a, b);
            ops.lemma_support_split(its.push((x, w)), c);
            if v {
                assert(b == its.push((x, w)).push((c, true)));
            } else {
                assert(b == its.push((x, w)).push((c, false)));
            }
        }
        assert(ops.support_of(its.push((x, false))) >= ops.support_of(child.push((x, false))));
        assert(ops.support_of(its.push((x, true))) >= ops.support_of(child.push((x, true))));
        assert(splits_on(ops, its, x, ms));
    }
}

/// The best split below `its` is the best over the candidates, where the
/// candidates are exactly the attributes that split.
pub proof fn lemma_best_from_candidates<T: ItemsetBitvector>(ops: T, its: Seq<Item>, cands: Seq<Attribute>, last: Attribute, ms: u64, maxd: u64)
    requires
        ops.wf(),
        its.len() < maxd,
        covers_splits(ops, its, cands, last, ms),
        all_split(ops, its, cands, ms),
    ensures
        (cands.len() == 0) == (best_split(ops, its, ms, maxd, 0) is None),
        best_split(ops, its, ms, maxd, 0) matches Some(b) ==> {
            &&& forall|j: int|
                0 <= j < cands.len() ==> split_error(ops, its, #[trigger] cands[j], ms, maxd) >= b
            &&& exists|j: int| 0 <= j < cands.len() && split_error(ops, its, #[trigger] cands[j], ms, maxd) == b
        },
{
    ops.lemma_shape();
    lemma_best_split_char(ops, its, ms, maxd, 0);
    if cands.len() > 0 {
        let x = cands[0] as nat;
        assert(splits_on(ops, its, x as usize, ms));
    }
    match best_split(ops, its, ms, maxd, 0) {
        Some(b) => {
            assert forall|j: int| 0 <= j < cands.len() implies split_error(ops, its, #[trigger] cands[j], ms, maxd) >= b by {
                let x = cands[j] as nat;
                assert(splits_on(ops, its, x as usize, ms));
            }
            let x = choose|x: nat|
                0 <= x < ops.n_attributes() && #[trigger] splits_on(ops, its, x as usize, ms)
                    && split_error(ops, its, x as usize, ms, maxd) == b;
            let c = x as usize;
            assert(splits_on(ops, its, c, ms));
            assert(cands.contains(c));
            let j = choose|j: int| 0 <= j < cands.len() && cands[j] == c;
            assert(split_error(ops, its, cands[j], ms, maxd) == b);
        },
        None => {
            if cands.len() > 0 {
                let x = cands[0] as nat;
                assert(!splits_on(ops, its, x as usize, ms));
            }
        },
    }
}

/// An optimum from a leaf error of at least zero is at least zero.
pub proof fn lemma_opt_nonneg<T: ItemsetBitvector>(ops: T, its: Seq<Item>, leaf: int, ms: u64, maxd: u64)
    requires
        ops.wf(),
        leaf >= 0,
    ensures
        opt(ops, its, leaf, ms, maxd) >= 0,
{
    if !(its.len() >= maxd || ops.support_of(its) < 2 * ms) && leaf != 0 {
        lemma_best_split_char(ops, its, ms, maxd, 0);
        match best_split(ops, its, ms, maxd, 0) {
            Some(b) => {
                let x = choose|x: nat|
                    0 <= x < ops.n_attributes() && #[trigger] splits_on(ops, its, x as usize, ms)
                        && split_error(ops, its, x as usize, ms, maxd) == b;
                let c = x as usize;
                let l = its.push((c, false));
                let r = its.push((c, true));
                lemma_leaf_nonneg(ops, l);
                lemma_leaf_nonneg(ops, r);
                lemma_opt_bounds(ops, l, leaf_error_of(ops, l), ms, maxd);
                lemma_opt_bounds(ops, r, leaf_error_of(ops, r), ms, maxd);
            },
            None => {},
        }
    }
}

/// Recording `d` for `key` keeps the cache one the search can rely on, where
/// `d` is such a record (or `key` is the root).
pub proof fn lemma_update_consistent<T: ItemsetBitvector>(ops: T, before: Trie, after: Trie, key: Seq<Item>, d: Node, ms: u64, maxd: u64)
    requires
        cache_consistent(ops, before, ms, maxd),
        same_entries_but(before.root, after.root, key),
        node_at(after.root, key) is Some,
        node_at(after.root, key).unwrap().data == d,
        key.len() >= 1 ==> record_consistent(ops, key, d, ms, maxd),
    ensures
        cache_consistent(ops, after, ms, maxd),
{
    assert forall|k: Seq<Item>|
        #[trigger] node_at(after.root, k) is Some && k.len() >= 1 && !node_at(after.root, k).unwrap().is_new
            implies record_consistent(ops, k, node_at(after.root, k).unwrap().data, ms, maxd) by {
        if k != key {
            assert(node_at(before.root, k) is Some);
        }
    }
}

/// Operators over the same dataset agree on which attributes split.
pub proof fn lemma_covers_same_dataset<T: ItemsetBitvector>(a: T, b: T, its: Seq<Item>, cands: Seq<Attribute>, last: Attribute, ms: u64)
    requires
        same_dataset(a, b),
        covers_splits(a, its, cands, last, ms),
    ensures
        covers_splits(b, its, cands, last, ms),
{
    assert forall|c: Attribute| c < b.n_attributes() && #[trigger] splits_on(b, its, c, ms) implies cands.contains(c)
        && c != last by {
        assert(splits_on(a, its, c, ms));
    }
}

/// A reordering of the candidates covers and splits as they do.
pub proof fn lemma_perm_candidates<T: ItemsetBitvector>(ops: T, its: Seq<Item>, a: Seq<Attribute>, b: Seq<Attribute>, last: Attribute, ms: u64)
    requires
        a.to_multiset() == b.to_multiset(),
        covers_splits(ops, its, a, last, ms),
        all_split(ops, its, a, ms),
    ensures
        covers_splits(ops, its, b, last, ms),
        all_split(ops, its, b, ms),
{
    broadcast use vstd::seq_lib::group_to_multiset_ensures;

    assert forall|c: Attribute| c < ops.n_attributes() && #[trigger] splits_on(ops, its, c, ms) implies b.contains(c)
        && c != last by {
        assert(a.contains(c));
        assert(a.to_multiset().count(c) > 0);
    }
    assert forall|j: int| 0 <= j < b.len() implies (#[trigger] b[j]) < ops.n_attributes() && splits_on(
        ops,
        its,
        b[j],
        ms,
    ) by {
        assert(b.contains(b[j]));
        assert(b.to_multiset().count(b[j]) > 0);
        assert(a.contains(b[j]));
        let i = choose|i: int| 0 <= i < a.len() && a[i] == b[j];
        assert(a[i] < ops.n_attributes());
    }
}

/// Below an itemset with room for a test, the optimum is the smaller of the
/// leaf's error and the best split's: the smallest error of a tree in the
/// space searched.
pub proof fn optimum_is_best_of_leaf_and_splits<T: ItemsetBitvector>(ops: T, its: Seq<Item>, ms: u64, maxd: u64)
    requires
        ops.wf(),
        its.len() < maxd,
        ops.support_of(its) >= 2 * ms,
    ensures
        ({
            let leaf = leaf_error_of(ops, its);
            opt(ops, its, leaf, ms, maxd) == match best_split(ops, its, ms, maxd, 0) {
                Some(b) => if b <= leaf {
                    b
                } else {
                    leaf
                },
                None => leaf,
            }
        }),
{
    let leaf = leaf_error_of(ops, its);
    lemma_leaf_nonneg(ops, its);
    lemma_opt_bounds(ops, its, leaf, ms, maxd);
    lemma_best_split_char(ops, its, ms, maxd, 0);
    match best_split(ops, its, ms, maxd, 0) {
        Some(b) => {
            let x = choose|x: nat|
                0 <= x < ops.n_attributes() && #[trigger] splits_on(ops, its, x as usize, ms)
                    && split_error(ops, its, x as usize, ms, maxd) == b;
            let c = x as usize;
            let l = its.push((c, false));
            let r = its.push((c, true));
            lemma_leaf_nonneg(ops, l);
            lemma_leaf_nonneg(ops, r);
            lemma_opt_bounds(ops, l, leaf_error_of(ops, l), ms, maxd);
            lemma_opt_bounds(ops, r, leaf_error_of(ops, r), ms, maxd);
        },
        None => {},
    }
}

} // verus!
