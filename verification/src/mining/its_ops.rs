//! The itemset operator over the bit-vector dataset: the cover of the
//! current itemset is a bit vector, one bit per transaction.
use vstd::prelude::*;
use bit_vec::BitVec;
use crate::bitvec_ops::{
    and_bits, bitvec_bits, bv_and, bv_clone, bits_set, bv_from_elem, bv_negate, count_true,
    lemma_count_true_all, lemma_count_true_bound, lemma_count_true_none, lemma_count_true_split,
};
use crate::data::dt::Data;
use crate::mining::itemset_bitvector_trait::{
    first_max, first_max_index, lemma_first_max_index_bounds, lemma_seq_sum_bound,
    class_supports, lemma_seq_sum_ge_elem, same_dataset, seq_sum, sum_counts, ItemsetBitvector,
};
use crate::mining::{copy_items, Item};
use crate::data::lines::{
    attr_one, attribute_count, class_bound, classes_in_order, lemma_classes_in_order_full, line_tokens,
    lines_well_formed_in_order,
};
use crate::dl85::optimum::lemma_seq_sum_add;

verus! {

pub struct ItemsetOps<'a> {
    pub current: Vec<Item>,
    data: &'a Data,
    support: Option<usize>,
    mask: Option<BitVec>,
    mask_stack: Vec<BitVec>,
    ntransactions: usize,
    updated: bool,
}

/// The cover of the itemset `its` over the attribute vectors of `data`.
pub open spec fn cover_of(data: Data, its: Seq<Item>) -> Seq<bool>
    decreases its.len(),
{
    if its.len() == 0 {
        Seq::new(data.ntransactions as nat, |t: int| true)
    } else {
        let item = its.last();
        and_bits(cover_of(data, its.drop_last()), bitvec_bits(data.data@[item.0 as int]), item.1)
    }
}

pub proof fn lemma_cover_of_len(data: Data, its: Seq<Item>)
    ensures
        cover_of(data, its).len() == data.ntransactions,
    decreases its.len(),
{
    if its.len() > 0 {
        lemma_cover_of_len(data, its.drop_last());
    }
}

/// Transaction `t` holds every item of `its`.
pub open spec fn holds_items(data: Data, its: Seq<Item>, t: int) -> bool {
    forall|j: int| 0 <= j < its.len() ==> bitvec_bits(data.data@[(#[trigger] its[j]).0 as int])[t] == its[j].1
}

/// A transaction is in the cover of `its` exactly where it holds every item.
pub proof fn lemma_cover_of_char(data: Data, its: Seq<Item>, t: int)
    requires
        0 <= t < data.ntransactions,
    ensures
        cover_of(data, its)[t] == holds_items(data, its, t),
    decreases its.len(),
{
    lemma_cover_of_len(data, its);
    if its.len() > 0 {
        let p = its.drop_last();
        lemma_cover_of_char(data, p, t);
        lemma_cover_of_len(data, p);
        assert forall|j: int| 0 <= j < p.len() implies #[trigger] p[j] == its[j] by {}
        if holds_items(data, its, t) {
            assert forall|j: int| 0 <= j < p.len() implies bitvec_bits(data.data@[(#[trigger] p[j]).0 as int])[t]
                == p[j].1 by {
                assert(p[j] == its[j]);
            }
            let l = its.len() - 1;
            assert(its[l] == its.last());
        } else {
            let j = choose|j: int| 0 <= j < its.len() && bitvec_bits(data.data@[its[j].0 as int])[t] != its[j].1;
            if j < p.len() {
                assert(p[j] == its[j]);
            }
        }
    }
}

/// Where `a`'s items all occur in `b`, a transaction that holds `b` holds `a`.
proof fn lemma_same_items_hold(data: Data, a: Seq<Item>, b: Seq<Item>, t: int)
    requires
        a.to_multiset() == b.to_multiset(),
        holds_items(data, b, t),
    ensures
        holds_items(data, a, t),
{
    broadcast use vstd::seq_lib::group_to_multiset_ensures;

    assert forall|j: int| 0 <= j < a.len() implies bitvec_bits(data.data@[(#[trigger] a[j]).0 as int])[t]
        == a[j].1 by {
        assert(a.contains(a[j]));
        assert(a.to_multiset().count(a[j]) > 0);
        assert(b.contains(a[j]));
        let j2 = choose|j2: int| 0 <= j2 < b.len() && b[j2] == a[j];
        assert(bitvec_bits(data.data@[b[j2].0 as int])[t] == b[j2].1);
    }
}

proof fn lemma_one_class(n: nat, j: int, b: bool)
    requires
        0 <= j < n,
    ensures
        seq_sum(Seq::new(n, |k: int| if b && k == j { 1nat } else { 0nat })) == if b { 1nat } else { 0nat },
    decreases n,
{
    let s = Seq::new(n, |k: int| if b && k == j { 1nat } else { 0nat });
    assert(seq_sum(s) == seq_sum(s.drop_last()) + s.last());
    if j < n - 1 {
        assert(s.drop_last() =~= Seq::new((n - 1) as nat, |k: int| if b && k == j { 1nat } else { 0nat }));
        lemma_one_class((n - 1) as nat, j, b);
        assert(s.last() == 0);
    } else {
        assert(s.drop_last() =~= Seq::new((n - 1) as nat, |k: int| 0nat));
        lemma_seq_sum_zero((n - 1) as nat);
        assert(s.last() == if b { 1nat } else { 0nat });
    }
}

proof fn lemma_seq_sum_zero(n: nat)
    ensures
        seq_sum(Seq::new(n, |k: int| 0nat)) == 0,
    decreases n,
{
    if n > 0 {
        assert(Seq::new(n, |k: int| 0nat).drop_last() =~= Seq::new((n - 1) as nat, |k: int| 0nat));
        lemma_seq_sum_zero((n - 1) as nat);
    }
}

/// The transactions of class `k` that hold every item of `its`.
pub open spec fn class_cover(data: Data, its: Seq<Item>, k: int) -> Seq<bool> {
    and_bits(cover_of(data, its), bitvec_bits(data.target@[k]), true)
}

/// For each class, how many of the first `m` transactions are of that class
/// and hold every item of `its`.
pub open spec fn class_prefix_counts(data: Data, its: Seq<Item>, m: int) -> Seq<nat> {
    Seq::new(data.nclasses as nat, |k: int| count_true(class_cover(data, its, k).take(m)))
}

/// Each transaction of a dataset read from lines that all hold a class is
/// in exactly one class: the supports per class of an itemset add up to its
/// support.
pub proof fn classes_partition_support(
    ops: ItemsetOps,
    lines: Seq<String>,
    filename: Seq<char>,
    its: Seq<Item>,
)
    requires
        ops.wf(),
        ops.dataset().represents(lines, filename),
        lines_well_formed_in_order(lines, false),
        forall|t: int| 0 <= t < lines.len() ==> #[trigger] line_tokens(lines[t]).len() > 0,
    ensures
        seq_sum(class_supports(ops, its)) == ops.support_of(its),
{
    let d = ops.dataset();
    let n = d.ntransactions as int;
    lemma_classes_in_order_full(lines);
    let c = cover_of(d, its);
    lemma_cover_of_len(d, its);
    lemma_partition_prefix(d, lines, filename, its, n);
    assert(c.take(n) =~= c);
    assert forall|k: int| 0 <= k < d.nclasses implies #[trigger] class_prefix_counts(d, its, n)[k]
        == class_supports(ops, its)[k] by {
        assert(class_cover(d, its, k).take(n) =~= class_cover(d, its, k));
    }
    assert(class_prefix_counts(d, its, n) =~= class_supports(ops, its));
}

proof fn lemma_partition_prefix(data: Data, lines: Seq<String>, filename: Seq<char>, its: Seq<Item>, m: int)
    requires
        data.wf(),
        data.represents(lines, filename),
        lines_well_formed_in_order(lines, false),
        classes_in_order(lines).len() == lines.len(),
        0 <= m <= data.ntransactions,
    ensures
        seq_sum(class_prefix_counts(data, its, m)) == count_true(cover_of(data, its).take(m)),
    decreases m,
{
    let kk = data.nclasses as nat;
    let c = cover_of(data, its);
    let cls = classes_in_order(lines);
    lemma_cover_of_len(data, its);
    if m == 0 {
        assert(class_prefix_counts(data, its, 0) =~= Seq::new(kk, |k: int| 0nat)) by {
            assert forall|k: int| 0 <= k < kk implies #[trigger] class_prefix_counts(data, its, 0)[k] == 0nat by {
                assert(class_cover(data, its, k).take(0) =~= Seq::<bool>::empty());
            }
        }
        lemma_seq_sum_zero(kk);
        assert(c.take(0) =~= Seq::<bool>::empty());
    } else {
        let t = m - 1;
        lemma_partition_prefix(data, lines, filename, its, t);
        let j = cls[t] as int;
        assert(0 <= j < kk);
        let prev = class_prefix_counts(data, its, t);
        let ind = Seq::new(kk, |k: int| if c[t] && k == j { 1nat } else { 0nat });
        let now = class_prefix_counts(data, its, m);
        assert forall|k: int| 0 <= k < kk implies #[trigger] now[k] == prev[k] + ind[k] by {
            let ck = class_cover(data, its, k);
            assert(ck.take(m).drop_last() =~= ck.take(t));
            assert(bitvec_bits(data.target@[k]) == Seq::new(
                lines.len(),
                |t2: int| t2 < cls.len() && cls[t2] == k,
            ));
            assert(ck[t] == (c[t] && cls[t] == k));
            assert(count_true(ck.take(m)) == count_true(ck.take(m).drop_last()) + if ck.take(m).last() {
                1nat
            } else {
                0nat
            });
        }
        lemma_seq_sum_add(prev, ind, now);
        lemma_one_class(kk, j, c[t]);
        assert(c.take(m).drop_last() =~= c.take(t));
    }
}

/// Line `t` gives every item of `its`: the attribute's value on the line
/// is the item's.
pub open spec fn line_holds(lines: Seq<String>, its: Seq<Item>, t: int) -> bool {
    forall|j: int| 0 <= j < its.len() ==> attr_one(lines, (#[trigger] its[j]).0 as int, t) == its[j].1
}

/// The number of the first `m` lines that give every item of `its`, and,
/// where `class` is `Some(k)`, are the `t`-th transaction of class `k`.
pub open spec fn lines_holding(lines: Seq<String>, its: Seq<Item>, class: Option<usize>, m: nat) -> nat
    decreases m,
{
    if m == 0 {
        0
    } else {
        let t = m - 1;
        let cls = classes_in_order(lines);
        let counted = line_holds(lines, its, t) && match class {
            Some(k) => t < cls.len() && cls[t] == k,
            None => true,
        };
        lines_holding(lines, its, class, (m - 1) as nat) + if counted {
            1nat
        } else {
            0nat
        }
    }
}

proof fn lemma_count_prefix(s: Seq<bool>, lines: Seq<String>, its: Seq<Item>, class: Option<usize>, m: nat)
    requires
        m <= s.len(),
        forall|t: int|
            0 <= t < s.len() ==> #[trigger] s[t] == (line_holds(lines, its, t) && match class {
                Some(k) => t < classes_in_order(lines).len() && classes_in_order(lines)[t] == k,
                None => true,
            }),
    ensures
        count_true(s.take(m as int)) == lines_holding(lines, its, class, m),
    decreases m,
{
    if m > 0 {
        lemma_count_prefix(s, lines, its, class, (m - 1) as nat);
        assert(s.take(m as int).drop_last() =~= s.take(m - 1));
        assert(s.take(m as int).last() == s[m - 1]);
    }
}

/// An operator over a dataset read from `lines` counts the lines: the
/// support of an itemset over the dataset's attributes is the number of
/// lines that give all its items, its support in class `k` the number of
/// those whose transaction is of class `k`.
pub proof fn support_counts_lines(ops: ItemsetOps, lines: Seq<String>, filename: Seq<char>, its: Seq<Item>)
    requires
        ops.wf(),
        ops.dataset().represents(lines, filename),
        forall|j: int| 0 <= j < its.len() ==> (#[trigger] its[j]).0 < attribute_count(lines),
    ensures
        ops.n_transactions() == lines.len(),
        ops.n_attributes() == attribute_count(lines),
        ops.n_classes() == class_bound(lines, false),
        ops.support_of(its) == lines_holding(lines, its, None, lines.len()),
        forall|k: usize|
            k < ops.n_classes() ==> #[trigger] ops.class_support_of(its, k as int) == lines_holding(
                lines,
                its,
                Some(k),
                lines.len(),
            ),
{
    let d = ops.dataset();
    let n = lines.len();
    let c = cover_of(d, its);
    lemma_cover_of_len(d, its);
    assert forall|t: int| 0 <= t < n implies #[trigger] c[t] == line_holds(lines, its, t) by {
        lemma_cover_of_char(d, its, t);
        if holds_items(d, its, t) {
            assert forall|j: int| 0 <= j < its.len() implies attr_one(lines, (#[trigger] its[j]).0 as int, t)
                == its[j].1 by {
                assert(bitvec_bits(d.data@[its[j].0 as int]) == Seq::new(n, |t2: int| attr_one(lines, its[j].0 as int, t2)));
            }
        } else {
            let j = choose|j: int| 0 <= j < its.len() && bitvec_bits(d.data@[(#[trigger] its[j]).0 as int])[t] != its[j].1;
            assert(bitvec_bits(d.data@[its[j].0 as int]) == Seq::new(n, |t2: int| attr_one(lines, its[j].0 as int, t2)));
        }
    }
    lemma_count_prefix(c, lines, its, None, n);
    assert(c.take(n as int) =~= c);
    assert(ops.support_of(its) == count_true(c));
    assert forall|k: usize| k < ops.n_classes() implies #[trigger] ops.class_support_of(its, k as int) == lines_holding(
        lines,
        its,
        Some(k),
        lines.len(),
    ) by {
        let cls = classes_in_order(lines);
        let tk = bitvec_bits(d.target@[k as int]);
        assert(tk == Seq::new(n, |t: int| t < cls.len() && cls[t] == k as int));
        let s = and_bits(c, tk, true);
        assert forall|t: int| 0 <= t < s.len() implies #[trigger] s[t] == (line_holds(lines, its, t) && match Some(k) {
            Some(k2) => t < classes_in_order(lines).len() && classes_in_order(lines)[t] == k2,
            None => true,
        }) by {
            assert(c[t] == line_holds(lines, its, t));
        }
        lemma_count_prefix(s, lines, its, Some(k), n);
        assert(s.take(n as int) =~= s);
    }
}

impl<'a> ItemsetOps<'a> {
    /// The dataset the operator reads.
    pub closed spec fn dataset(&self) -> Data {
        *self.data
    }

    closed spec fn inv(&self) -> bool {
        &&& self.data.wf()
        &&& self.ntransactions == self.data.ntransactions
        &&& self.mask is Some
        &&& bitvec_bits(self.mask.unwrap()) == cover_of(*self.data, self.current@)
        &&& self.mask_stack@.len() == self.current@.len() + 1
        &&& forall|i: int|
            0 <= i <= self.current@.len() ==> bitvec_bits(#[trigger] self.mask_stack@[i])
                == cover_of(*self.data, self.current@.take(i))
        &&& forall|i: int|
            0 <= i < self.current@.len() ==> (#[trigger] self.current@[i]).0
                < self.data.nattributes
        &&& self.updated ==> self.support is Some && self.support.unwrap() == count_true(
            cover_of(*self.data, self.current@),
        )
    }

    /// An operator over `data` whose current itemset is empty.
    pub fn new(data: &'a Data) -> (r: ItemsetOps<'a>)
        requires
            data.wf(),
        ensures
            r.wf(),
            r.items() == Seq::<Item>::empty(),
            r.dataset() == *data,
            r.n_transactions() == data.ntransactions,
            r.n_attributes() == data.nattributes,
            r.n_classes() == data.nclasses,
            r.support_of(Seq::<Item>::empty()) == data.ntransactions,
    {
        let ntransactions = data.ntransactions;
        let mask = Some(bv_from_elem(ntransactions, true));
        let cloned_mask = bv_from_elem(ntransactions, true);
        let r = ItemsetOps {
            current: Vec::new(),
            data,
            support: None,
            mask,
            mask_stack: vec![cloned_mask],
            ntransactions,
            updated: false,
        };
        proof {
            assert(r.current@.take(0) =~= r.current@);
        }
        proof {
            r.lemma_empty_support();
        }
        r
    }

    /// Restricts the mask to the transactions that hold `item`.
    fn update_mask(&mut self, item: &Item)
        requires
            old(self).data.wf(),
            item.0 < old(self).data.nattributes,
            old(self).mask is Some,
            bitvec_bits(old(self).mask.unwrap()).len() == old(self).data.ntransactions,
        ensures
            final(self).mask is Some,
            bitvec_bits(final(self).mask.unwrap()) == and_bits(
                bitvec_bits(old(self).mask.unwrap()),
                bitvec_bits(old(self).data.data@[item.0 as int]),
                item.1,
            ),
            final(self).updated == false,
            final(self).current == old(self).current,
            final(self).data == old(self).data,
            final(self).support == old(self).support,
            final(self).mask_stack == old(self).mask_stack,
            final(self).ntransactions == old(self).ntransactions,
    {
        let mut mask = self.mask.take().unwrap();
        let ghost before = bitvec_bits(mask);
        let mut item_vec = bv_clone(&self.data.data[item.0]);
        let ghost row = bitvec_bits(item_vec);
        if !item.1 {
            bv_negate(&mut item_vec);
        }
        bv_and(&mut mask, &item_vec);
        assert(bitvec_bits(mask) =~= and_bits(before, row, item.1));
        self.mask = Some(mask);
        self.updated = false;
    }

    /// Sets the mask back to every transaction.
    fn gen_new_mask(&mut self)
        requires
            old(self).ntransactions == old(self).data.ntransactions,
        ensures
            final(self).mask is Some,
            bitvec_bits(final(self).mask.unwrap()) == cover_of(
                *final(self).data,
                Seq::<Item>::empty(),
            ),
            final(self).updated == old(self).updated,
            final(self).current == old(self).current,
            final(self).data == old(self).data,
            final(self).support == old(self).support,
            final(self).mask_stack == old(self).mask_stack,
            final(self).ntransactions == old(self).ntransactions,
    {
        self.mask = Some(bv_from_elem(self.ntransactions, true));
    }

    /// Recomputes the mask from every transaction and the items of the
    /// current itemset; returns its support.
    fn compute_support_from_mask(&mut self) -> (r: usize)
        requires
            old(self).data.wf(),
            old(self).ntransactions == old(self).data.ntransactions,
            old(self).mask is Some ==> bitvec_bits(old(self).mask.unwrap()) == cover_of(
                *old(self).data,
                Seq::<Item>::empty(),
            ),
            forall|i: int|
                0 <= i < old(self).current@.len() ==> (#[trigger] old(self).current@[i]).0
                    < old(self).data.nattributes,
        ensures
            final(self).mask is Some,
            bitvec_bits(final(self).mask.unwrap()) == cover_of(
                *final(self).data,
                final(self).current@,
            ),
            final(self).updated,
            final(self).support == Some(r),
            r == count_true(cover_of(*final(self).data, final(self).current@)),
            final(self).current == old(self).current,
            final(self).data == old(self).data,
            final(self).mask_stack == old(self).mask_stack,
            final(self).ntransactions == old(self).ntransactions,
    {
        if self.mask.is_none() {
            self.gen_new_mask();
        }
        let items = copy_items(&self.current);
        let mut i: usize = 0;
        assert(self.current@.take(0) =~= Seq::<Item>::empty());
        while i < items.len()
            invariant
                items@ == self.current@,
                i <= items@.len(),
                self.data.wf(),
                self.ntransactions == self.data.ntransactions,
                forall|k: int|
                    0 <= k < self.current@.len() ==> (#[trigger] self.current@[k]).0
                        < self.data.nattributes,
                self.mask is Some,
                bitvec_bits(self.mask.unwrap()) == cover_of(*self.data, self.current@.take(i as int)),
                self.current == old(self).current,
                self.data == old(self).data,
                self.mask_stack == old(self).mask_stack,
                self.ntransactions == old(self).ntransactions,
            decreases items@.len() - i,
        {
            proof {
                lemma_cover_of_len(*self.data, self.current@.take(i as int));
            }
            self.update_mask(&items[i]);
            proof {
                let t = self.current@.take(i as int + 1);
                assert(t.drop_last() =~= self.current@.take(i as int));
                assert(t.last() == items@[i as int]);
            }
            i = i + 1;
        }
        assert(self.current@.take(items@.len() as int) =~= self.current@);
        let mask = self.mask.take().unwrap();
        let count = ItemsetOps::count_in_vec(&mask);
        self.mask = Some(mask);
        self.support = Some(count);
        self.updated = true;
        count
    }

    /// Number of bits set in `arr`.
    fn count_in_vec(arr: &BitVec) -> (r: usize)
        ensures
            r == count_true(bitvec_bits(*arr)),
    {
        bits_set(arr)
    }

    /// The support of each class within the mask.
    fn class_counts(&self) -> (r: Vec<usize>)
        requires
            self.inv(),
        ensures
            r@.len() == self.data.nclasses,
            forall|k: int|
                0 <= k < r@.len() ==> #[trigger] r@[k] == count_true(
                    and_bits(
                        cover_of(*self.data, self.current@),
                        bitvec_bits(self.data.target@[k]),
                        true,
                    ),
                ),
    {
        let mut classes_cover: Vec<usize> = Vec::new();
        let mask = self.mask.as_ref().unwrap();
        proof {
            lemma_cover_of_len(*self.data, self.current@);
        }
        let mut i: usize = 0;
        while i < self.data.nclasses
            invariant
                self.inv(),
                bitvec_bits(*mask) == cover_of(*self.data, self.current@),
                i <= self.data.nclasses,
                classes_cover@.len() == i,
                forall|k: int|
                    0 <= k < i ==> #[trigger] classes_cover@[k] == count_true(
                        and_bits(bitvec_bits(*mask), bitvec_bits(self.data.target@[k]), true),
                    ),
            decreases self.data.nclasses - i,
        {
            let mut cloned_mask = bv_clone(mask);
            let target_chunk = &self.data.target[i];
            proof {
                lemma_cover_of_len(*self.data, self.current@);
                assert(self.data.wf());
                assert(bitvec_bits(self.data.target@[i as int]).len() == self.data.ntransactions);
            }
            bv_and(&mut cloned_mask, target_chunk);
            classes_cover.push(ItemsetOps::count_in_vec(&cloned_mask));
            i = i + 1;
        }
        classes_cover
    }

    /// Fraction-free form of the frequency: the support and the number of
    /// transactions it is taken out of.
    pub fn frequency_parts(&mut self) -> (r: (usize, usize))
        requires
            old(self).wf(),
        ensures
            final(self).wf(),
            same_dataset(*final(self), *old(self)),
            final(self).items() == old(self).items(),
            r.0 == old(self).support_of(old(self).items()),
            r.1 == old(self).n_transactions(),
    {
        let s = if !self.updated {
            self.support()
        } else {
            self.support.unwrap()
        };
        (s, self.ntransactions)
    }

    /// Pushes `second_its` and its mask, leaving the support to compute.
    fn push_item(&mut self, second_its: &Item)
        requires
            old(self).inv(),
            second_its.0 < old(self).data.nattributes,
        ensures
            final(self).data.wf(),
            final(self).data == old(self).data,
            final(self).ntransactions == old(self).ntransactions,
            final(self).current@ == old(self).current@.push(*second_its),
            final(self).mask is Some,
            bitvec_bits(final(self).mask.unwrap()) == cover_of(
                *final(self).data,
                final(self).current@,
            ),
            final(self).mask_stack@.len() == final(self).current@.len() + 1,
            forall|i: int|
                0 <= i <= final(self).current@.len() ==> bitvec_bits(
                    #[trigger] final(self).mask_stack@[i],
                ) == cover_of(*final(self).data, final(self).current@.take(i)),
            forall|i: int|
                0 <= i < final(self).current@.len() ==> (#[trigger] final(self).current@[i]).0
                    < final(self).data.nattributes,
            !final(self).updated,
    {
        proof {
            lemma_cover_of_len(*self.data, self.current@);
        }
        self.current.push(*second_its);
        self.updated = false;
        self.support = None;
        self.update_mask(second_its);
        let copy = bv_clone(self.mask.as_ref().unwrap());
        self.mask_stack.push(copy);
        proof {
            let c = self.current@;
            assert(c.drop_last() =~= old(self).current@);
            assert(c.take(c.len() as int) =~= c);
            assert forall|i: int| 0 <= i <= c.len() implies bitvec_bits(#[trigger] self.mask_stack@[i])
                == cover_of(*self.data, c.take(i)) by {
                if i < c.len() {
                    assert(c.take(i) =~= old(self).current@.take(i));
                }
            }
        }
    }
}

impl<'a> ItemsetBitvector for ItemsetOps<'a> {
    closed spec fn wf(&self) -> bool {
        self.inv()
    }

    closed spec fn items(&self) -> Seq<Item> {
        self.current@
    }

    closed spec fn n_transactions(&self) -> nat {
        self.data.ntransactions as nat
    }

    closed spec fn n_attributes(&self) -> nat {
        self.data.nattributes as nat
    }

    closed spec fn n_classes(&self) -> nat {
        self.data.nclasses as nat
    }

    closed spec fn support_of(&self, its: Seq<Item>) -> nat {
        count_true(cover_of(*self.data, its))
    }

    closed spec fn class_support_of(&self, its: Seq<Item>, k: int) -> nat {
        count_true(and_bits(cover_of(*self.data, its), bitvec_bits(self.data.target@[k]), true))
    }

    proof fn lemma_support_split(&self, its: Seq<Item>, a: usize) {
        let m = cover_of(*self.data, its);
        let row = bitvec_bits(self.data.data@[a as int]);
        assert(its.push((a, false)).drop_last() =~= its);
        assert(its.push((a, true)).drop_last() =~= its);
        lemma_cover_of_len(*self.data, its);
        lemma_count_true_split(m, row);
    }

    proof fn lemma_empty_support(&self) {
        lemma_count_true_all(self.data.ntransactions as nat);
    }

    proof fn lemma_class_support_split(&self, its: Seq<Item>, a: usize, k: int) {
        let d = *self.data;
        let cov = cover_of(d, its);
        let row = bitvec_bits(d.data@[a as int]);
        let tgt = bitvec_bits(d.target@[k]);
        let c = and_bits(cov, tgt, true);
        assert(its.push((a, false)).drop_last() =~= its);
        assert(its.push((a, true)).drop_last() =~= its);
        lemma_cover_of_len(d, its);
        assert(and_bits(and_bits(cov, row, false), tgt, true) =~= and_bits(c, row, false));
        assert(and_bits(and_bits(cov, row, true), tgt, true) =~= and_bits(c, row, true));
        lemma_count_true_split(c, row);
    }

    proof fn lemma_support_order(&self, a: Seq<Item>, b: Seq<Item>) {
        let d = *self.data;
        lemma_cover_of_len(d, a);
        lemma_cover_of_len(d, b);
        assert forall|t: int| 0 <= t < d.ntransactions implies #[trigger] cover_of(d, a)[t]
            == cover_of(d, b)[t] by {
            lemma_cover_of_char(d, a, t);
            lemma_cover_of_char(d, b, t);
            if holds_items(d, b, t) {
                lemma_same_items_hold(d, a, b, t);
            }
            if holds_items(d, a, t) {
                lemma_same_items_hold(d, b, a, t);
            }
        }
        assert(cover_of(d, a) =~= cover_of(d, b));
    }

    proof fn lemma_contradiction(&self, its: Seq<Item>, a: usize, v: bool) {
        let d = *self.data;
        let its2 = its.push((a, !v));
        lemma_cover_of_len(d, its2);
        let j = choose|j: int| 0 <= j < its.len() && its[j] == (a, v);
        assert forall|t: int| 0 <= t < cover_of(d, its2).len() implies !#[trigger] cover_of(d, its2)[t] by {
            lemma_cover_of_char(d, its2, t);
            assert(its2[j] == (a, v));
            assert(its2[its.len() as int] == (a, !v));
        }
        lemma_count_true_none(cover_of(d, its2));
    }

    proof fn lemma_shape(&self) {
    }

    fn intersection_cover(&mut self, second_its: &Item) -> (r: usize) {
        self.push_item(second_its);
        self.support()
    }

    fn temp_intersection(&mut self, second_its: &Item) -> (r: usize) {
        self.push_item(second_its);
        let support = self.support();
        self.backtrack();
        support
    }

    fn backtrack(&mut self) {
        self.mask_stack.pop();
        self.current.pop();
        let top = bv_clone(&self.mask_stack[self.mask_stack.len() - 1]);
        self.mask = Some(top);
        self.updated = false;
        self.support = None;
        proof {
            let c = self.current@;
            assert(c =~= old(self).current@.drop_last());
            assert(c.take(c.len() as int) =~= c);
            assert forall|i: int| 0 <= i <= c.len() implies bitvec_bits(#[trigger] self.mask_stack@[i])
                == cover_of(*self.data, c.take(i)) by {
                assert(c.take(i) =~= old(self).current@.take(i));
            }
            assert(bitvec_bits(self.mask_stack@[c.len() as int]) == cover_of(
                *self.data,
                c.take(c.len() as int),
            ));
        }
        self.support();
    }

    fn reset(&mut self) {
        self.gen_new_mask();
        let cloned_mask = bv_clone(self.mask.as_ref().unwrap());
        self.mask_stack = vec![cloned_mask];
        self.support = None;
        self.updated = false;
        self.current = Vec::new();
        proof {
            assert(self.current@.take(0) =~= self.current@);
        }
    }

    fn support(&mut self) -> (r: usize) {
        if self.support.is_some() && self.updated {
            self.support.unwrap()
        } else if self.mask.is_some() && self.updated {
            let mask = self.mask.take().unwrap();
            let count = ItemsetOps::count_in_vec(&mask);
            self.mask = Some(mask);
            self.support = Some(count);
            self.updated = true;
            count
        } else {
            self.gen_new_mask();
            self.compute_support_from_mask()
        }
    }

    fn classes_cover(&mut self) -> (r: Vec<usize>) {
        self.class_counts()
    }

    fn top_class(&mut self) -> (r: (usize, usize)) {
        let classes_cover = self.classes_cover();
        let r = first_max(&classes_cover);
        proof {
            assert(classes_cover@.map_values(|v: usize| v as nat) =~= Seq::new(
                old(self).n_classes(),
                |k: int| old(self).class_support_of(old(self).items(), k),
            ));
        }
        r
    }

    fn leaf_misclassication_error(&mut self) -> (r: (usize, usize)) {
        let classes_cover = self.classes_cover();
        let ghost mid = *self;
        let max_class = self.top_class();
        let ghost s = classes_cover@.map_values(|v: usize| v as nat);
        proof {
            assert(s =~= Seq::new(
                old(self).n_classes(),
                |k: int| old(self).class_support_of(old(self).items(), k),
            ));
            assert(s =~= Seq::new(mid.n_classes(), |k: int| mid.class_support_of(mid.items(), k)));
            let n = old(self).ntransactions as nat;
            let m = cover_of(*old(self).data, old(self).current@);
            lemma_cover_of_len(*old(self).data, old(self).current@);
            assert(old(self).data.wf());
            assert forall|i: int| 0 <= i < s.len() implies #[trigger] s[i] <= n by {
                let masked = and_bits(m, bitvec_bits(old(self).data.target@[i]), true);
                lemma_count_true_bound(masked);
            }
            lemma_first_max_index_bounds(s);
            lemma_seq_sum_bound(s, n);
            assert(s.len() * n <= usize::MAX);
            lemma_seq_sum_ge_elem(s, first_max_index(s));
        }
        let total = sum_counts(&classes_cover, usize::MAX);
        let error = total - max_class.1;
        (error, max_class.0)
    }

    fn get_infos(&self) -> (r: (usize, usize, usize)) {
        (self.data.ntransactions, self.data.nattributes, self.data.nclasses)
    }

    fn get_current(&self) -> (r: Vec<Item>) {
        copy_items(&self.current)
    }

    fn get_nclasses(&self) -> (r: usize) {
        self.data.nclasses
    }

    fn temp_classes_cover(&mut self, second_its: &Item) -> (r: Vec<usize>) {
        self.push_item(second_its);
        let cover = self.classes_cover();
        self.backtrack();
        cover
    }
}

} // verus!
