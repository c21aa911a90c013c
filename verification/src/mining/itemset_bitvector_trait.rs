//! The operations on the cover of an itemset that the search relies on.
use vstd::prelude::*;
use crate::mining::Item;

verus! {

/// The counts per class of the itemset `its`.
pub open spec fn class_supports<T: ItemsetBitvector>(ops: T, its: Seq<Item>) -> Seq<nat> {
    Seq::new(ops.n_classes(), |k: int| ops.class_support_of(its, k))
}

/// Index of the first largest value of `s`.
pub open spec fn first_max_index(s: Seq<nat>) -> int
    decreases s.len(),
{
    if s.len() <= 1 {
        0
    } else {
        let i = first_max_index(s.drop_last());
        if s.last() > s[i] {
            s.len() - 1
        } else {
            i
        }
    }
}

/// Sum of the values of `s`.
pub open spec fn seq_sum(s: Seq<nat>) -> nat
    decreases s.len(),
{
    if s.len() == 0 {
        0
    } else {
        seq_sum(s.drop_last()) + s.last()
    }
}

/// Two operators over the same dataset: they count every itemset alike.
pub open spec fn same_dataset<T: ItemsetBitvector>(a: T, b: T) -> bool {
    &&& a.n_transactions() == b.n_transactions()
    &&& a.n_attributes() == b.n_attributes()
    &&& a.n_classes() == b.n_classes()
    &&& forall|its: Seq<Item>| #[trigger] a.support_of(its) == b.support_of(its)
    &&& forall|its: Seq<Item>, k: int| #[trigger] a.class_support_of(its, k) == b.class_support_of(its, k)
}

/// Number of nodes of the full search tree over `nfeatures` binary features
/// up to depth `max_depth`, level by level, as far as features remain.
pub open spec fn search_level(nfeatures: nat, depth: nat) -> nat
    decreases depth,
{
    if depth <= 1 {
        2 * nfeatures
    } else {
        search_level(nfeatures, (depth - 1) as nat) * 2 * (nfeatures - depth + 1) as nat
    }
}

pub open spec fn search_space(nfeatures: nat, max_depth: nat) -> nat
    decreases max_depth,
{
    if max_depth == 0 {
        0
    } else if max_depth == 1 {
        2 * nfeatures
    } else if nfeatures < max_depth {
        search_space(nfeatures, (max_depth - 1) as nat)
    } else {
        search_space(nfeatures, (max_depth - 1) as nat) + search_level(nfeatures, max_depth)
    }
}

/// The counts of the search space fit in a `u128` at every level.
pub open spec fn search_space_fits(nfeatures: nat, max_depth: nat) -> bool {
    &&& max_depth < u128::MAX
    &&& forall|d: nat|
        1 <= d <= max_depth && (d == 1 || nfeatures >= d) ==> #[trigger] search_space(nfeatures, d)
            <= u128::MAX && search_level(nfeatures, d) <= u128::MAX
}

/// An operator that holds a current itemset and computes its cover over a
/// dataset: its support, and its support per class.
pub trait ItemsetBitvector: Sized {
    /// The operator's invariant.
    spec fn wf(&self) -> bool;

    /// The items of the current itemset, in the order they were added.
    spec fn items(&self) -> Seq<Item>;

    spec fn n_transactions(&self) -> nat;

    spec fn n_attributes(&self) -> nat;

    spec fn n_classes(&self) -> nat;

    /// Number of transactions that hold every item of `its`.
    spec fn support_of(&self, its: Seq<Item>) -> nat;

    /// Number of transactions of class `k` that hold every item of `its`.
    spec fn class_support_of(&self, its: Seq<Item>, k: int) -> nat;

    /// Testing an attribute splits a cover in two.
    proof fn lemma_support_split(&self, its: Seq<Item>, a: usize)
        requires
            self.wf(),
            a < self.n_attributes(),
        ensures
            self.support_of(its.push((a, false))) + self.support_of(its.push((a, true)))
                == self.support_of(its),
    ;

    /// Testing an attribute splits the cover of each class in two.
    proof fn lemma_class_support_split(&self, its: Seq<Item>, a: usize, k: int)
        requires
            self.wf(),
            a < self.n_attributes(),
            0 <= k < self.n_classes(),
        ensures
            self.class_support_of(its.push((a, false)), k) + self.class_support_of(
                its.push((a, true)),
                k,
            ) == self.class_support_of(its, k),
    ;

    /// The counts of an itemset do not depend on the order of its items.
    proof fn lemma_support_order(&self, a: Seq<Item>, b: Seq<Item>)
        requires
            self.wf(),
            a.to_multiset() == b.to_multiset(),
        ensures
            self.support_of(a) == self.support_of(b),
            forall|k: int| #[trigger] self.class_support_of(a, k) == self.class_support_of(b, k),
    ;

    /// No transaction gives an attribute both values.
    proof fn lemma_contradiction(&self, its: Seq<Item>, a: usize, v: bool)
        requires
            self.wf(),
            its.contains((a, v)),
        ensures
            self.support_of(its.push((a, !v))) == 0,
    ;

    /// An operator of the invariant knows at least one class, and its
    /// attributes are numbered within `usize`.
    proof fn lemma_shape(&self)
        requires
            self.wf(),
        ensures
            self.n_classes() >= 1,
            self.n_attributes() <= usize::MAX,
    ;

    /// The empty itemset covers every transaction.
    proof fn lemma_empty_support(&self)
        requires
            self.wf(),
        ensures
            self.support_of(Seq::<Item>::empty()) == self.n_transactions(),
    ;

    /// Adds an item to the current itemset; returns the new support.
    fn intersection_cover(&mut self, second_its: &Item) -> (r: usize)
        requires
            old(self).wf(),
            second_its.0 < old(self).n_attributes(),
        ensures
            final(self).wf(),
            final(self).n_transactions() == old(self).n_transactions(),
            final(self).n_attributes() == old(self).n_attributes(),
            final(self).n_classes() == old(self).n_classes(),
            forall|its: Seq<Item>| #[trigger] final(self).support_of(its) == old(self).support_of(its),
            forall|its: Seq<Item>, k: int|
                #[trigger] final(self).class_support_of(its, k) == old(self).class_support_of(its, k),
            final(self).items() == old(self).items().push(*second_its),
            r == final(self).support_of(final(self).items()),
    ;

    /// The support of the current itemset with one more item; the current
    /// itemset is left as it was.
    fn temp_intersection(&mut self, second_its: &Item) -> (r: usize)
        requires
            old(self).wf(),
            second_its.0 < old(self).n_attributes(),
        ensures
            final(self).wf(),
            final(self).n_transactions() == old(self).n_transactions(),
            final(self).n_attributes() == old(self).n_attributes(),
            final(self).n_classes() == old(self).n_classes(),
            forall|its: Seq<Item>| #[trigger] final(self).support_of(its) == old(self).support_of(its),
            forall|its: Seq<Item>, k: int|
                #[trigger] final(self).class_support_of(its, k) == old(self).class_support_of(its, k),
            final(self).items() == old(self).items(),
            r == old(self).support_of(old(self).items().push(*second_its)),
    ;

    /// Removes the last item added.
    fn backtrack(&mut self)
        requires
            old(self).wf(),
            old(self).items().len() > 0,
        ensures
            final(self).wf(),
            final(self).n_transactions() == old(self).n_transactions(),
            final(self).n_attributes() == old(self).n_attributes(),
            final(self).n_classes() == old(self).n_classes(),
            forall|its: Seq<Item>| #[trigger] final(self).support_of(its) == old(self).support_of(its),
            forall|its: Seq<Item>, k: int|
                #[trigger] final(self).class_support_of(its, k) == old(self).class_support_of(its, k),
            final(self).items() == old(self).items().drop_last(),
    ;

    /// Goes back to the empty itemset.
    fn reset(&mut self)
        requires
            old(self).wf(),
        ensures
            final(self).wf(),
            final(self).n_transactions() == old(self).n_transactions(),
            final(self).n_attributes() == old(self).n_attributes(),
            final(self).n_classes() == old(self).n_classes(),
            forall|its: Seq<Item>| #[trigger] final(self).support_of(its) == old(self).support_of(its),
            forall|its: Seq<Item>, k: int|
                #[trigger] final(self).class_support_of(its, k) == old(self).class_support_of(its, k),
            final(self).items() == Seq::<Item>::empty(),
    ;

    /// The support of the current itemset.
    fn support(&mut self) -> (r: usize)
        requires
            old(self).wf(),
        ensures
            final(self).wf(),
            final(self).n_transactions() == old(self).n_transactions(),
            final(self).n_attributes() == old(self).n_attributes(),
            final(self).n_classes() == old(self).n_classes(),
            forall|its: Seq<Item>| #[trigger] final(self).support_of(its) == old(self).support_of(its),
            forall|its: Seq<Item>, k: int|
                #[trigger] final(self).class_support_of(its, k) == old(self).class_support_of(its, k),
            final(self).items() == old(self).items(),
            r == old(self).support_of(old(self).items()),
    ;

    /// The support of the current itemset in each class.
    fn classes_cover(&mut self) -> (r: Vec<usize>)
        requires
            old(self).wf(),
        ensures
            final(self).wf(),
            final(self).n_transactions() == old(self).n_transactions(),
            final(self).n_attributes() == old(self).n_attributes(),
            final(self).n_classes() == old(self).n_classes(),
            forall|its: Seq<Item>| #[trigger] final(self).support_of(its) == old(self).support_of(its),
            forall|its: Seq<Item>, k: int|
                #[trigger] final(self).class_support_of(its, k) == old(self).class_support_of(its, k),
            final(self).items() == old(self).items(),
            r@.len() == old(self).n_classes(),
            forall|k: int|
                0 <= k < r@.len() ==> #[trigger] r@[k] == old(self).class_support_of(
                    old(self).items(),
                    k,
                ),
    ;

    /// The first class of largest support, and that support.
    fn top_class(&mut self) -> (r: (usize, usize))
        requires
            old(self).wf(),
        ensures
            final(self).wf(),
            final(self).n_transactions() == old(self).n_transactions(),
            final(self).n_attributes() == old(self).n_attributes(),
            final(self).n_classes() == old(self).n_classes(),
            forall|its: Seq<Item>| #[trigger] final(self).support_of(its) == old(self).support_of(its),
            forall|its: Seq<Item>, k: int|
                #[trigger] final(self).class_support_of(its, k) == old(self).class_support_of(its, k),
            final(self).items() == old(self).items(),
            ({
                let s = Seq::new(
                    old(self).n_classes(),
                    |k: int| old(self).class_support_of(old(self).items(), k),
                );
                &&& r.0 == first_max_index(s)
                &&& r.1 == s[first_max_index(s)]
            }),
    ;

    /// The transactions that the majority class misclassifies, and that
    /// class.
    fn leaf_misclassication_error(&mut self) -> (r: (usize, usize))
        requires
            old(self).wf(),
        ensures
            final(self).wf(),
            final(self).n_transactions() == old(self).n_transactions(),
            final(self).n_attributes() == old(self).n_attributes(),
            final(self).n_classes() == old(self).n_classes(),
            forall|its: Seq<Item>| #[trigger] final(self).support_of(its) == old(self).support_of(its),
            forall|its: Seq<Item>, k: int|
                #[trigger] final(self).class_support_of(its, k) == old(self).class_support_of(its, k),
            final(self).items() == old(self).items(),
            ({
                let s = Seq::new(
                    old(self).n_classes(),
                    |k: int| old(self).class_support_of(old(self).items(), k),
                );
                &&& r.0 == seq_sum(s) - s[first_max_index(s)]
                &&& r.1 == first_max_index(s)
            }),
    ;

    /// The number of transactions, attributes and classes.
    fn get_infos(&self) -> (r: (usize, usize, usize))
        requires
            self.wf(),
        ensures
            r.0 == self.n_transactions(),
            r.1 == self.n_attributes(),
            r.2 == self.n_classes(),
    ;

    /// The current itemset.
    fn get_current(&self) -> (r: Vec<Item>)
        requires
            self.wf(),
        ensures
            r@ == self.items(),
    ;

    fn get_nclasses(&self) -> (r: usize)
        requires
            self.wf(),
        ensures
            r == self.n_classes(),
    ;

    /// The support in each class of the current itemset with one more item;
    /// the current itemset is left as it was.
    fn temp_classes_cover(&mut self, second_its: &Item) -> (r: Vec<usize>)
        requires
            old(self).wf(),
            second_its.0 < old(self).n_attributes(),
        ensures
            final(self).wf(),
            final(self).n_transactions() == old(self).n_transactions(),
            final(self).n_attributes() == old(self).n_attributes(),
            final(self).n_classes() == old(self).n_classes(),
            forall|its: Seq<Item>| #[trigger] final(self).support_of(its) == old(self).support_of(its),
            forall|its: Seq<Item>, k: int|
                #[trigger] final(self).class_support_of(its, k) == old(self).class_support_of(its, k),
            final(self).items() == old(self).items(),
            r@.len() == old(self).n_classes(),
            forall|k: int|
                0 <= k < r@.len() ==> #[trigger] r@[k] == old(self).class_support_of(
                    old(self).items().push(*second_its),
                    k,
                ),
    ;

    /// Number of nodes of the search tree over `nfeatures` binary features
    /// down to `max_depth`.
    fn max_search_tree_space(&self, nfeatures: u128, max_depth: u128) -> (r: u128)
        requires
            search_space_fits(nfeatures as nat, max_depth as nat),
        ensures
            r == search_space(nfeatures as nat, max_depth as nat),
    {
        if max_depth == 0 {
            0
        } else {
            assert(search_space(nfeatures as nat, 1) <= u128::MAX);
            let mut count = nfeatures * 2;
            let mut past_depth = count;
            let mut depth: u128 = 2;
            while depth < max_depth + 1
                invariant
                    search_space_fits(nfeatures as nat, max_depth as nat),
                    1 <= max_depth,
                    2 <= depth <= max_depth + 1,
                    count == search_space(nfeatures as nat, (depth - 1) as nat),
                    past_depth == search_level(nfeatures as nat, (depth - 1) as nat),
                    depth - 1 == 1 || nfeatures >= depth - 1,
                ensures
                    count == search_space(nfeatures as nat, max_depth as nat),
                decreases max_depth + 1 - depth,
            {
                if nfeatures.saturating_sub(depth - 1) == 0 {
                    proof {
                        lemma_search_space_flat(nfeatures as nat, (depth - 1) as nat, max_depth as nat);
                    }
                    break;
                }
                assert(search_space(nfeatures as nat, depth as nat) <= u128::MAX);
                assert(search_level(nfeatures as nat, depth as nat) <= u128::MAX);
                proof {
                    let l = past_depth as nat;
                    let f = (nfeatures - depth + 1) as nat;
                    assert(l * 2 * f == search_level(nfeatures as nat, depth as nat));
                    assert(l * 2 <= l * 2 * f) by (nonlinear_arith)
                        requires
                            f >= 1,
                    ;
                }
                past_depth = past_depth * 2 * (nfeatures - depth + 1);
                count += past_depth;
                depth += 1;
            }
            count
        }
    }
}

/// Trying an item and taking it back are in accord: the support that
/// `temp_intersection` gives is the one that `intersection_cover` returns
/// for the same item, and `backtrack` after `intersection_cover` brings the
/// operator back to the itemset it started from, with the same counts.
pub proof fn backtrack_undoes_intersection<T: ItemsetBitvector>(
    start: T,
    added: T,
    back: T,
    item: Item,
    temp_support: nat,
    added_support: nat,
)
    requires
        start.wf(),
        temp_support == start.support_of(start.items().push(item)),
        same_dataset(added, start),
        added.items() == start.items().push(item),
        added_support == added.support_of(added.items()),
        same_dataset(back, added),
        back.items() == added.items().drop_last(),
    ensures
        temp_support == added_support,
        back.items() == start.items(),
        same_dataset(back, start),
        back.support_of(back.items()) == start.support_of(start.items()),
{
    assert(start.items().push(item).drop_last() =~= start.items());
}

/// Index and value of the first largest count.
pub fn first_max(covers: &Vec<usize>) -> (r: (usize, usize))
    requires
        covers@.len() >= 1,
    ensures
        r.0 == first_max_index(covers@.map_values(|v: usize| v as nat)),
        r.1 == covers@[r.0 as int],
        r.0 < covers@.len(),
{
    let ghost s = covers@.map_values(|v: usize| v as nat);
    let mut idxm: usize = 0;
    let mut valm: usize = covers[0];
    let mut idx: usize = 1;
    while idx < covers.len()
        invariant
            s == covers@.map_values(|v: usize| v as nat),
            1 <= idx <= covers@.len(),
            idxm < idx,
            idxm == first_max_index(s.take(idx as int)),
            valm == covers@[idxm as int],
        decreases covers@.len() - idx,
    {
        let ghost t = s.take(idx as int + 1);
        assert(t.drop_last() =~= s.take(idx as int));
        assert(t[idxm as int] == s[idxm as int]);
        if covers[idx] > valm {
            idxm = idx;
            valm = covers[idx];
        }
        idx = idx + 1;
    }
    assert(s.take(covers@.len() as int) =~= s);
    (idxm, valm)
}

/// Sum of the counts.
pub fn sum_counts(covers: &Vec<usize>, bound: usize) -> (r: usize)
    requires
        seq_sum(covers@.map_values(|v: usize| v as nat)) <= bound,
    ensures
        r == seq_sum(covers@.map_values(|v: usize| v as nat)),
{
    let ghost s = covers@.map_values(|v: usize| v as nat);
    let mut total: usize = 0;
    let mut i: usize = 0;
    while i < covers.len()
        invariant
            s == covers@.map_values(|v: usize| v as nat),
            seq_sum(s) <= bound,
            i <= covers@.len(),
            total == seq_sum(s.take(i as int)),
        decreases covers@.len() - i,
    {
        proof {
            assert(s.take(i as int + 1).drop_last() =~= s.take(i as int));
            lemma_seq_sum_prefix(s, i as int + 1);
        }
        total = total + covers[i];
        i = i + 1;
    }
    assert(s.take(covers@.len() as int) =~= s);
    total
}

pub proof fn lemma_first_max_index_bounds(s: Seq<nat>)
    requires
        s.len() >= 1,
    ensures
        0 <= first_max_index(s) < s.len(),
    decreases s.len(),
{
    if s.len() > 1 {
        lemma_first_max_index_bounds(s.drop_last());
    }
}

pub proof fn lemma_seq_sum_prefix(s: Seq<nat>, k: int)
    requires
        0 <= k <= s.len(),
    ensures
        seq_sum(s.take(k)) <= seq_sum(s),
    decreases s.len() - k,
{
    if k < s.len() {
        lemma_seq_sum_prefix(s, k + 1);
        assert(s.take(k + 1).drop_last() =~= s.take(k));
    } else {
        assert(s.take(k) =~= s);
    }
}

pub proof fn lemma_seq_sum_ge_elem(s: Seq<nat>, i: int)
    requires
        0 <= i < s.len(),
    ensures
        s[i] <= seq_sum(s),
    decreases s.len(),
{
    if i < s.len() - 1 {
        lemma_seq_sum_ge_elem(s.drop_last(), i);
    }
}

pub proof fn lemma_seq_sum_bound(s: Seq<nat>, b: nat)
    requires
        forall|i: int| 0 <= i < s.len() ==> #[trigger] s[i] <= b,
    ensures
        seq_sum(s) <= s.len() * b,
    decreases s.len(),
{
    if s.len() > 0 {
        lemma_seq_sum_bound(s.drop_last(), b);
        assert(s.len() * b == (s.len() - 1) * b + b) by (nonlinear_arith);
    }
}

/// Once the features run out, deeper levels add nothing.
proof fn lemma_search_space_flat(nfeatures: nat, d: nat, max_depth: nat)
    requires
        1 <= d <= max_depth,
        nfeatures <= d,
    ensures
        search_space(nfeatures, max_depth) == search_space(nfeatures, d),
    decreases max_depth - d,
{
    if max_depth > d {
        lemma_search_space_flat(nfeatures, d, (max_depth - 1) as nat);
    }
}

} // verus!
