//! The itemset operator over the `u64`-chunked dataset: the cover of the
//! current itemset is a mask of chunks, one bit per transaction.
use vstd::prelude::*;
use crate::bits::{
    bit_set, count_bits, count_in_words, copy_words, lemma_bit_set_and, lemma_bit_set_zero,
    lemma_count_bits_bound, lemma_count_bits_restrict_le, lemma_count_bits_split,
    lemma_count_bits_zero, lemma_low_bits_clear_top, lemma_popcount_low_bits, lemma_restrict_commute,
    lemma_word_eq, low_bits, popcount, restrict, lemma_bit_set_low_bits,
};
use crate::data::lines::{
    attribute_count, class_count, classes_last_first, lemma_classes_last_first_full, line_tokens, lines_well_formed,
};
use crate::data::dt_longed::{chunk_count, lemma_chunk_count_bounds, slot, DataLong};
use crate::mining::itemset_bitvector_trait::{
    class_supports, first_max, first_max_index, lemma_first_max_index_bounds, lemma_seq_sum_bound,
    lemma_seq_sum_ge_elem, same_dataset, seq_sum, sum_counts, ItemsetBitvector,
};
use crate::mining::{copy_items, Item};

verus! {

pub struct ItemsetOpsLong<'a> {
    pub current: Vec<Item>,
    pub data: &'a DataLong,
    support: Option<usize>,
    mask: Option<Vec<u64>>,
    mask_stack: Vec<Vec<u64>>,
    ntransactions: usize,
    nchunks: usize,
    updated: bool,
}

/// The number of bits of the first chunk that hold transactions (the first
/// chunk holds the first lines, the chunks after it are full).
pub open spec fn live_bits(n: nat, nc: nat) -> nat {
    if n % 64 == 0 {
        64
    } else {
        (64 - (nc * 64 - n)) as nat
    }
}

/// The mask of the empty itemset: every transaction.
pub open spec fn initial_mask(n: nat, nc: nat) -> Seq<u64> {
    Seq::new(nc, |i: int| if i == 0 { low_bits(live_bits(n, nc)) } else { u64::MAX })
}

/// The mask of the itemset `its` over the rows of `data`, from `init`.
pub open spec fn mask_of(data: DataLong, init: Seq<u64>, its: Seq<Item>) -> Seq<u64>
    decreases its.len(),
{
    if its.len() == 0 {
        init
    } else {
        let item = its.last();
        restrict(mask_of(data, init, its.drop_last()), data.data@[item.0 as int]@, item.1)
    }
}

pub proof fn lemma_mask_of_len(data: DataLong, init: Seq<u64>, its: Seq<Item>)
    ensures
        mask_of(data, init, its).len() == init.len(),
    decreases its.len(),
{
    if its.len() > 0 {
        lemma_mask_of_len(data, init, its.drop_last());
    }
}

/// Bit `b` of word `i` stands for a transaction that holds every item of
/// `its`.
pub open spec fn word_holds(data: DataLong, its: Seq<Item>, i: int, b: u64) -> bool {
    forall|j: int|
        0 <= j < its.len() ==> bit_set(data.data@[(#[trigger] its[j]).0 as int]@[i], b) == its[j].1
}

/// A bit of the mask of `its` is set exactly where it is set in the start
/// mask and the transaction holds every item.
pub proof fn lemma_mask_of_char(data: DataLong, init: Seq<u64>, its: Seq<Item>, i: int, b: u64)
    requires
        0 <= i < init.len(),
        b < 64,
    ensures
        bit_set(mask_of(data, init, its)[i], b) == (bit_set(init[i], b) && word_holds(data, its, i, b)),
    decreases its.len(),
{
    lemma_mask_of_len(data, init, its);
    if its.len() > 0 {
        let p = its.drop_last();
        lemma_mask_of_char(data, init, p, i, b);
        lemma_mask_of_len(data, init, p);
        let item = its.last();
        let row = data.data@[item.0 as int]@;
        let m = mask_of(data, init, p);
        lemma_bit_set_and(m[i], row[i], b);
        assert forall|j: int| 0 <= j < p.len() implies #[trigger] p[j] == its[j] by {}
        if word_holds(data, its, i, b) {
            assert forall|j: int| 0 <= j < p.len() implies bit_set(
                data.data@[(#[trigger] p[j]).0 as int]@[i],
                b,
            ) == p[j].1 by {
                assert(p[j] == its[j]);
            }
            assert(its[its.len() - 1] == item);
        } else {
            let j = choose|j: int|
                0 <= j < its.len() && bit_set(data.data@[its[j].0 as int]@[i], b) != its[j].1;
            if j < p.len() {
                assert(p[j] == its[j]);
            }
        }
    }
}

/// Where `a`'s items all occur in `b`, a bit that holds `b` holds `a`.
proof fn lemma_same_items_hold_words(data: DataLong, a: Seq<Item>, b: Seq<Item>, i: int, bit: u64)
    requires
        a.to_multiset() == b.to_multiset(),
        word_holds(data, b, i, bit),
    ensures
        word_holds(data, a, i, bit),
{
    broadcast use vstd::seq_lib::group_to_multiset_ensures;

    assert forall|j: int| 0 <= j < a.len() implies bit_set(
        data.data@[(#[trigger] a[j]).0 as int]@[i],
        bit,
    ) == a[j].1 by {
        assert(a.contains(a[j]));
        assert(a.to_multiset().count(a[j]) > 0);
        assert(b.contains(a[j]));
        let j2 = choose|j2: int| 0 <= j2 < b.len() && b[j2] == a[j];
        assert(bit_set(data.data@[b[j2].0 as int]@[i], bit) == b[j2].1);
    }
}

/// The mask `m` with the transactions of the first `k` classes taken out.
pub open spec fn strip_classes(data: DataLong, m: Seq<u64>, k: nat) -> Seq<u64>
    decreases k,
{
    if k == 0 {
        m
    } else {
        restrict(strip_classes(data, m, (k - 1) as nat), data.target@[k - 1]@, false)
    }
}

proof fn lemma_strip_char(data: DataLong, m: Seq<u64>, k: nat, i: int, b: u64)
    requires
        0 <= i < m.len(),
        b < 64,
    ensures
        strip_classes(data, m, k).len() == m.len(),
        bit_set(strip_classes(data, m, k)[i], b) == (bit_set(m[i], b) && forall|j: int|
            0 <= j < k ==> !#[trigger] bit_set(data.target@[j]@[i], b)),
    decreases k,
{
    if k > 0 {
        let p = strip_classes(data, m, (k - 1) as nat);
        lemma_strip_char(data, m, (k - 1) as nat, i, b);
        let t = data.target@[k - 1]@;
        lemma_bit_set_and(p[i], t[i], b);
        if bit_set(strip_classes(data, m, k)[i], b) {
            assert forall|j: int| 0 <= j < k implies !#[trigger] bit_set(data.target@[j]@[i], b) by {
                if j < k - 1 {
                } else {
                    assert(j == k - 1);
                }
            }
        }
    }
}

/// A set bit of the full mask stands for a transaction.
proof fn lemma_initial_live(n: nat, nc: nat, i: int, b: u64)
    requires
        n >= 1,
        nc == chunk_count(n),
        0 <= i < nc,
        b < 64,
        bit_set(initial_mask(n, nc)[i], b),
    ensures
        slot(nc, i, b as int) < n,
{
    lemma_chunk_count_bounds(n);
    if i == 0 {
        lemma_bit_set_low_bits(live_bits(n, nc), b);
    } else {
        assert((nc - 1 - i) * 64 + 64 <= (nc - 1) * 64) by (nonlinear_arith)
            requires
                1 <= i < nc,
        ;
    }
}

/// Each transaction of a dataset read from lines that all hold a class is
/// in exactly one class: the supports per class of an itemset add up to its
/// support.
pub proof fn classes_partition_support_long(
    ops: ItemsetOpsLong,
    lines: Seq<String>,
    filename: Seq<char>,
    its: Seq<Item>,
)
    requires
        ops.wf(),
        ops.dataset().represents(lines, filename),
        lines_well_formed(lines),
        forall|t: int| 0 <= t < lines.len() ==> #[trigger] line_tokens(lines[t]).len() > 0,
    ensures
        seq_sum(class_supports(ops, its)) == ops.support_of(its),
{
    let d = ops.dataset();
    let n = d.ntransactions as nat;
    let nc = chunk_count(n);
    let kk = d.nclasses as nat;
    let init = initial_mask(n, nc);
    let m = mask_of(d, init, its);
    let cls = classes_last_first(lines);
    lemma_classes_last_first_full(lines);
    lemma_mask_of_len(d, init, its);
    lemma_chunk_count_bounds(n);
    assert forall|k: nat| k <= kk implies count_bits(m) == seq_sum(#[trigger] class_supports(ops, its).take(k as int))
        + count_bits(strip_classes(d, m, k)) by {
        lemma_partition_long_prefix(ops, lines, filename, its, k);
    }
    assert(class_supports(ops, its).take(kk as int) =~= class_supports(ops, its));
    assert forall|i: int| 0 <= i < m.len() implies #[trigger] strip_classes(d, m, kk)[i] == 0 by {
        lemma_strip_char(d, m, kk, i, 0);
        assert forall|b: u64| b < 64 implies #[trigger] bit_set(strip_classes(d, m, kk)[i], b) == bit_set(0, b) by {
            lemma_strip_char(d, m, kk, i, b);
            lemma_bit_set_zero(b);
            if bit_set(m[i], b) {
                lemma_mask_of_char(d, init, its, i, b);
                lemma_initial_live(n, nc, i, b);
                let s2 = slot(nc, i, b as int);
                let k0 = cls[s2] as int;
                assert(0 <= k0 < kk);
                let bi = b as int;
                assert(bi as u64 == b);
                assert(bit_set(d.target@[k0]@[i], bi as u64) <==> (slot(nc, i, bi) < cls.len()
                    && cls[slot(nc, i, bi)] == k0));
                assert(bit_set(d.target@[k0]@[i], b));
            }
        }
        lemma_word_eq(strip_classes(d, m, kk)[i], 0);
    }
    lemma_strip_char(d, m, kk, 0, 0);
    lemma_count_bits_zero(strip_classes(d, m, kk));
}

proof fn lemma_partition_long_prefix(ops: ItemsetOpsLong, lines: Seq<String>, filename: Seq<char>, its: Seq<Item>, k: nat)
    requires
        ops.wf(),
        ops.dataset().represents(lines, filename),
        lines_well_formed(lines),
        classes_last_first(lines).len() == lines.len(),
        k <= ops.dataset().nclasses,
    ensures
        ({
            let d = ops.dataset();
            let m = mask_of(d, initial_mask(d.ntransactions as nat, chunk_count(d.ntransactions as nat)), its);
            count_bits(m) == seq_sum(class_supports(ops, its).take(k as int)) + count_bits(strip_classes(d, m, k))
        }),
    decreases k,
{
    let d = ops.dataset();
    let n = d.ntransactions as nat;
    let nc = chunk_count(n);
    let init = initial_mask(n, nc);
    let m = mask_of(d, init, its);
    let cls = classes_last_first(lines);
    lemma_mask_of_len(d, init, its);
    lemma_chunk_count_bounds(n);
    if k == 0 {
        assert(class_supports(ops, its).take(0) =~= Seq::<nat>::empty());
    } else {
        let j = (k - 1) as int;
        lemma_partition_long_prefix(ops, lines, filename, its, (k - 1) as nat);
        let sk = strip_classes(d, m, (k - 1) as nat);
        let t = d.target@[j]@;
        lemma_strip_char(d, m, (k - 1) as nat, 0, 0);
        lemma_count_bits_split(sk, t);
        assert(class_supports(ops, its).take(k as int).drop_last() =~= class_supports(ops, its).take(j));
        assert(restrict(sk, t, true) == restrict(m, t, true)) by {
            assert forall|i: int| 0 <= i < m.len() implies #[trigger] restrict(sk, t, true)[i] == restrict(m, t, true)[i] by {
                assert forall|b: u64| b < 64 implies #[trigger] bit_set(restrict(sk, t, true)[i], b) == bit_set(
                    restrict(m, t, true)[i],
                    b,
                ) by {
                    lemma_strip_char(d, m, (k - 1) as nat, i, b);
                    lemma_bit_set_and(sk[i], t[i], b);
                    lemma_bit_set_and(m[i], t[i], b);
                    if bit_set(m[i], b) && bit_set(t[i], b) {
                        lemma_mask_of_char(d, init, its, i, b);
                        lemma_initial_live(n, nc, i, b);
                        let bi = b as int;
                        assert(bi as u64 == b);
                        assert(bit_set(d.target@[j]@[i], bi as u64) <==> (slot(nc, i, bi) < cls.len()
                            && cls[slot(nc, i, bi)] == j));
                        assert forall|j2: int| 0 <= j2 < k - 1 implies !#[trigger] bit_set(d.target@[j2]@[i], b) by {
                            assert(bit_set(d.target@[j2]@[i], bi as u64) <==> (slot(nc, i, bi) < cls.len()
                                && cls[slot(nc, i, bi)] == j2));
                        }
                    }
                }
                lemma_word_eq(restrict(sk, t, true)[i], restrict(m, t, true)[i]);
            }
            assert(restrict(sk, t, true) =~= restrict(m, t, true));
        }
    }
}

/// An operator over a dataset read from `lines` has a transaction per
/// line, the lines' attributes and classes, and the empty itemset covers
/// every line.
pub proof fn dataset_shape_long(ops: ItemsetOpsLong, lines: Seq<String>, filename: Seq<char>)
    requires
        ops.wf(),
        ops.dataset().represents(lines, filename),
    ensures
        ops.n_transactions() == lines.len(),
        ops.n_attributes() == attribute_count(lines),
        ops.n_classes() == class_count(lines),
        ops.support_of(Seq::<Item>::empty()) == lines.len(),
{
    ops.lemma_empty_support();
}

impl<'a> ItemsetOpsLong<'a> {
    /// The dataset the operator reads.
    pub closed spec fn dataset(&self) -> DataLong {
        *self.data
    }

    pub closed spec fn init_mask(&self) -> Seq<u64> {
        initial_mask(self.data.ntransactions as nat, chunk_count(self.data.ntransactions as nat))
    }

    /// The mask of the itemset `its`.
    pub closed spec fn mask_for(&self, its: Seq<Item>) -> Seq<u64> {
        mask_of(*self.data, self.init_mask(), its)
    }

    pub closed spec fn inv(&self) -> bool {
        let nc = chunk_count(self.data.ntransactions as nat);
        &&& self.data.wf()
        &&& self.ntransactions == self.data.ntransactions
        &&& self.nchunks == nc
        &&& self.mask is Some
        &&& self.mask.unwrap()@ == self.mask_for(self.current@)
        &&& self.mask_stack@.len() == self.current@.len() + 1
        &&& forall|i: int|
            0 <= i <= self.current@.len() ==> (#[trigger] self.mask_stack@[i])@ == self.mask_for(
                self.current@.take(i),
            )
        &&& forall|i: int|
            0 <= i < self.current@.len() ==> (#[trigger] self.current@[i]).0
                < self.data.nattributes
        &&& self.updated ==> self.support is Some && self.support.unwrap() == count_bits(
            self.mask_for(self.current@),
        )
    }

    /// An operator over `data` whose current itemset is empty.
    pub fn new(data: &'a DataLong) -> (r: ItemsetOpsLong<'a>)
        requires
            data.wf(),
        ensures
            r.wf(),
            r.items() == Seq::<Item>::empty(),
            r.dataset() == *data,
            r.n_transactions() == data.ntransactions,
            r.n_attributes() == data.nattributes,
            r.n_classes() == data.nclasses,
            r.support_of(Seq::<Item>::empty()) == data.ntransactions,
    {
        let ntransactions = data.ntransactions;
        let nchunks = data.data[0].len();
        proof {
            lemma_chunk_count_bounds(ntransactions as nat);
        }
        let first = initial_first_chunk(ntransactions, nchunks);
        let mut words: Vec<u64> = Vec::new();
        words.push(first);
        let mut i: usize = 1;
        while i < nchunks
            invariant
                1 <= i <= nchunks,
                words@.len() == i,
                words@[0] == first,
                forall|k: int| 1 <= k < i ==> #[trigger] words@[k] == u64::MAX,
            decreases nchunks - i,
        {
            words.push(u64::MAX);
            i = i + 1;
        }
        let cloned_mask = copy_words(&words);
        let mask = Some(words);
        let r = ItemsetOpsLong {
            current: Vec::new(),
            data,
            support: None,
            mask,
            mask_stack: vec![cloned_mask],
            ntransactions,
            updated: false,
            nchunks,
        };
        proof {
            assert(r.mask.unwrap()@ =~= r.init_mask());
            assert(r.current@.take(0) =~= r.current@);
        }
        proof {
            r.lemma_empty_support();
        }
        r
    }

    /// Restricts the mask to the transactions that hold `item`.
    fn update_mask(&mut self, item: &Item)
        requires
            old(self).data.wf(),
            item.0 < old(self).data.nattributes,
            old(self).nchunks == chunk_count(old(self).data.ntransactions as nat),
            old(self).mask is Some,
            old(self).mask.unwrap()@.len() == old(self).nchunks,
        ensures
            final(self).mask is Some,
            final(self).mask.unwrap()@ == restrict(
                old(self).mask.unwrap()@,
                old(self).data.data@[item.0 as int]@,
                item.1,
            ),
            final(self).updated == false,
            final(self).current == old(self).current,
            final(self).data == old(self).data,
            final(self).support == old(self).support,
            final(self).mask_stack == old(self).mask_stack,
            final(self).ntransactions == old(self).ntransactions,
            final(self).nchunks == old(self).nchunks,
    {
        let mut mask = self.mask.take().unwrap();
        let ghost before = mask@;
        let row = &self.data.data[item.0];
        let mut i: usize = 0;
        while i < self.nchunks
            invariant
                self.nchunks == before.len(),
                row@.len() == self.nchunks,
                mask@.len() == before.len(),
                i <= self.nchunks,
                forall|k: int| 0 <= k < i ==> #[trigger] mask@[k] == restrict(before, row@, item.1)[k],
                forall|k: int| i <= k < before.len() ==> #[trigger] mask@[k] == before[k],
            decreases self.nchunks - i,
        {
            let a = mask[i];
            let b = row[i];
            if !item.1 {
                mask.set(i, a & !b);
            } else {
                mask.set(i, a & b);
            }
            i = i + 1;
        }
        assert(mask@ =~= restrict(before, row@, item.1));
        self.mask = Some(mask);
        self.updated = false;
    }

    /// Sets the mask back to every transaction.
    fn gen_new_mask(&mut self)
        requires
            old(self).data.wf(),
            old(self).ntransactions == old(self).data.ntransactions,
            old(self).nchunks == chunk_count(old(self).data.ntransactions as nat),
        ensures
            final(self).mask is Some,
            final(self).mask.unwrap()@ == final(self).init_mask(),
            final(self).updated == old(self).updated,
            final(self).current == old(self).current,
            final(self).data == old(self).data,
            final(self).support == old(self).support,
            final(self).mask_stack == old(self).mask_stack,
            final(self).ntransactions == old(self).ntransactions,
            final(self).nchunks == old(self).nchunks,
    {
        proof {
            lemma_chunk_count_bounds(self.ntransactions as nat);
        }
        let first = initial_first_chunk(self.ntransactions, self.nchunks);
        let mut words: Vec<u64> = Vec::new();
        words.push(first);
        let mut i: usize = 1;
        while i < self.nchunks
            invariant
                1 <= i <= self.nchunks,
                words@.len() == i,
                words@[0] == first,
                forall|k: int| 1 <= k < i ==> #[trigger] words@[k] == u64::MAX,
            decreases self.nchunks - i,
        {
            words.push(u64::MAX);
            i = i + 1;
        }
        assert(words@ =~= self.init_mask());
        self.mask = Some(words);
    }

    /// Recomputes the mask from every transaction and the items of the
    /// current itemset; returns its support.
    fn compute_support_from_mask(&mut self) -> (r: usize)
        requires
            old(self).data.wf(),
            old(self).ntransactions == old(self).data.ntransactions,
            old(self).nchunks == chunk_count(old(self).data.ntransactions as nat),
            old(self).mask is Some ==> old(self).mask.unwrap()@ == old(self).init_mask(),
            forall|i: int|
                0 <= i < old(self).current@.len() ==> (#[trigger] old(self).current@[i]).0
                    < old(self).data.nattributes,
        ensures
            final(self).mask is Some,
            final(self).mask.unwrap()@ == final(self).mask_for(final(self).current@),
            final(self).updated,
            final(self).support == Some(r),
            r == count_bits(final(self).mask_for(final(self).current@)),
            final(self).current == old(self).current,
            final(self).data == old(self).data,
            final(self).mask_stack == old(self).mask_stack,
            final(self).ntransactions == old(self).ntransactions,
            final(self).nchunks == old(self).nchunks,
    {
        if self.mask.is_none() {
            self.gen_new_mask();
        }
        let items = copy_items(&self.current);
        let mut i: usize = 0;
        while i < items.len()
            invariant
                items@ == self.current@,
                i <= items@.len(),
                self.data.wf(),
                self.ntransactions == self.data.ntransactions,
                self.nchunks == chunk_count(self.data.ntransactions as nat),
                forall|k: int| 0 <= k < self.current@.len() ==> (#[trigger] self.current@[k]).0
                    < self.data.nattributes,
                self.mask is Some,
                self.mask.unwrap()@ == self.mask_for(self.current@.take(i as int)),
                self.current == old(self).current,
                self.data == old(self).data,
                self.mask_stack == old(self).mask_stack,
                self.ntransactions == old(self).ntransactions,
                self.nchunks == old(self).nchunks,
            decreases items@.len() - i,
        {
            proof {
                lemma_mask_of_len(*self.data, self.init_mask(), self.current@.take(i as int));
                lemma_chunk_count_bounds(self.ntransactions as nat);
            }
            self.update_mask(&items[i]);
            proof {
                let t = self.current@.take(i as int + 1);
                assert(t.drop_last() =~= self.current@.take(i as int));
                assert(t.last() == items@[i as int]);
            }
            i = i + 1;
        }
        assert(self.current@.take(items@.len() as int) =~= self.current@);
        let mask = self.mask.take().unwrap();
        proof {
            lemma_mask_of_len(*self.data, self.init_mask(), self.current@);
            lemma_chunk_count_bounds(self.ntransactions as nat);
        }
        let count = ItemsetOpsLong::count_in_vec(&mask);
        self.mask = Some(mask);
        self.support = Some(count);
        self.updated = true;
        count
    }

    /// Total number of bits set in the chunks of `arr`.
    fn count_in_vec(arr: &Vec<u64>) -> (r: usize)
        requires
            64 * arr@.len() <= usize::MAX,
        ensures
            r == count_bits(arr@),
    {
        count_in_words(arr)
    }

    /// The support of each class within the mask.
    fn class_counts(&self) -> (r: Vec<usize>)
        requires
            self.inv(),
        ensures
            r@.len() == self.data.nclasses,
            forall|k: int|
                0 <= k < r@.len() ==> #[trigger] r@[k] == count_bits(
                    restrict(self.mask_for(self.current@), self.data.target@[k]@, true),
                ),
    {
        let mut classes_cover: Vec<usize> = Vec::new();
        let mask = self.mask.as_ref().unwrap();
        proof {
            lemma_mask_of_len(*self.data, self.init_mask(), self.current@);
            lemma_chunk_count_bounds(self.ntransactions as nat);
        }
        let mut i: usize = 0;
        while i < self.data.nclasses
            invariant
                self.inv(),
                mask@ == self.mask_for(self.current@),
                mask@.len() == self.nchunks,
                i <= self.data.nclasses,
                classes_cover@.len() == i,
                forall|k: int|
                    0 <= k < i ==> #[trigger] classes_cover@[k] == count_bits(
                        restrict(mask@, self.data.target@[k]@, true),
                    ),
            decreases self.data.nclasses - i,
        {
            let target = &self.data.target[i];
            let mut cloned_mask = copy_words(mask);
            let mut j: usize = 0;
            while j < self.nchunks
                invariant
                    self.inv(),
                    mask@.len() == self.nchunks,
                    target@.len() == self.nchunks,
                    cloned_mask@.len() == self.nchunks,
                    j <= self.nchunks,
                    forall|k: int| 0 <= k < j ==> #[trigger] cloned_mask@[k] == mask@[k] & target@[k],
                    forall|k: int| j <= k < self.nchunks ==> #[trigger] cloned_mask@[k] == mask@[k],
                decreases self.nchunks - j,
            {
                let w = cloned_mask[j] & target[j];
                cloned_mask.set(j, w);
                j = j + 1;
            }
            assert(cloned_mask@ =~= restrict(mask@, target@, true));
            classes_cover.push(ItemsetOpsLong::count_in_vec(&cloned_mask));
            i = i + 1;
        }
        classes_cover
    }

    /// Fraction-free form of the frequency: the support and the number of
    /// transactions it is taken out of.
    pub fn frequency_parts(&mut self) -> (r: (usize, usize))
        requires
            old(self).wf(),
        ensures
            final(self).wf(),
            same_dataset(*final(self), *old(self)),
            final(self).items() == old(self).items(),
            r.0 == old(self).support_of(old(self).items()),
            r.1 == old(self).n_transactions(),
    {
        let s = if !self.updated {
            self.support()
        } else {
            self.support.unwrap()
        };
        (s, self.ntransactions)
    }
}

/// The full mask counts every transaction: the live bits of the first chunk
/// and 64 for each chunk after it.
pub proof fn lemma_initial_mask_count(n: nat, nc: nat)
    requires
        n >= 1,
        nc == chunk_count(n),
    ensures
        count_bits(initial_mask(n, nc)) == n,
{
    lemma_chunk_count_bounds(n);
    let m = initial_mask(n, nc);
    lemma_popcount_low_bits(live_bits(n, nc));
    lemma_popcount_low_bits(64);
    assert forall|k: nat| 1 <= k <= nc implies #[trigger] count_bits(m.take(k as int)) == live_bits(
        n,
        nc,
    ) + 64 * (k - 1) by {
        lemma_initial_prefix_count(n, nc, k);
    }
    assert(m.take(nc as int) =~= m);
}

proof fn lemma_initial_prefix_count(n: nat, nc: nat, k: nat)
    requires
        n >= 1,
        nc == chunk_count(n),
        1 <= k <= nc,
    ensures
        count_bits(initial_mask(n, nc).take(k as int)) == live_bits(n, nc) + 64 * (k - 1),
    decreases k,
{
    let m = initial_mask(n, nc);
    lemma_chunk_count_bounds(n);
    lemma_popcount_low_bits(live_bits(n, nc));
    lemma_popcount_low_bits(64);
    let t = m.take(k as int);
    assert(live_bits(n, nc) <= 64);
    assert(t.last() == m[k - 1]);
    assert(count_bits(t) == count_bits(t.drop_last()) + popcount(t.last()));
    if k == 1 {
        assert(t.drop_last() =~= Seq::<u64>::empty());
        assert(t.last() == low_bits(live_bits(n, nc)));
        assert(count_bits(t.drop_last()) == 0);
    } else {
        lemma_initial_prefix_count(n, nc, (k - 1) as nat);
        assert(t.drop_last() =~= m.take(k - 1));
        assert(t.last() == u64::MAX);
        assert(low_bits(64) == u64::MAX);
        assert(popcount(t.last()) == 64);
    }
}

/// The first chunk of the full mask: the live bits set, the others clear.
fn initial_first_chunk(ntransactions: usize, nchunks: usize) -> (r: u64)
    requires
        ntransactions >= 1,
        nchunks == chunk_count(ntransactions as nat),
        ntransactions <= nchunks * 64,
        ntransactions > (nchunks - 1) * 64,
        nchunks * 64 <= usize::MAX,
    ensures
        r == low_bits(live_bits(ntransactions as nat, nchunks as nat)),
{
    let mut first: u64 = u64::MAX;
    let dead_bits: usize = 64 - if ntransactions % 64 == 0 {
        0
    } else {
        nchunks * 64 - ntransactions
    };
    let mut i: usize = 64;
    while i > dead_bits
        invariant
            dead_bits <= i <= 64,
            first == low_bits(i as nat),
        decreases i,
    {
        i = i - 1;
        let int_mask = 1u64 << (i as u64);
        proof {
            lemma_low_bits_clear_top((i + 1) as u64);
        }
        first = first & !int_mask;
    }
    first
}


impl<'a> ItemsetBitvector for ItemsetOpsLong<'a> {
    closed spec fn wf(&self) -> bool {
        self.inv()
    }

    closed spec fn items(&self) -> Seq<Item> {
        self.current@
    }

    closed spec fn n_transactions(&self) -> nat {
        self.data.ntransactions as nat
    }

    closed spec fn n_attributes(&self) -> nat {
        self.data.nattributes as nat
    }

    closed spec fn n_classes(&self) -> nat {
        self.data.nclasses as nat
    }

    closed spec fn support_of(&self, its: Seq<Item>) -> nat {
        count_bits(self.mask_for(its))
    }

    closed spec fn class_support_of(&self, its: Seq<Item>, k: int) -> nat {
        count_bits(restrict(self.mask_for(its), self.data.target@[k]@, true))
    }

    proof fn lemma_support_split(&self, its: Seq<Item>, a: usize) {
        let m = self.mask_for(its);
        let row = self.data.data@[a as int]@;
        assert(its.push((a, false)).drop_last() =~= its);
        assert(its.push((a, true)).drop_last() =~= its);
        lemma_mask_of_len(*self.data, self.init_mask(), its);
        lemma_count_bits_split(m, row);
    }

    proof fn lemma_class_support_split(&self, its: Seq<Item>, a: usize, k: int) {
        let m = self.mask_for(its);
        let row = self.data.data@[a as int]@;
        let tgt = self.data.target@[k]@;
        assert(its.push((a, false)).drop_last() =~= its);
        assert(its.push((a, true)).drop_last() =~= its);
        lemma_mask_of_len(*self.data, self.init_mask(), its);
        lemma_restrict_commute(m, row, tgt, false);
        lemma_restrict_commute(m, row, tgt, true);
        lemma_count_bits_split(restrict(m, tgt, true), row);
    }

    proof fn lemma_support_order(&self, a: Seq<Item>, b: Seq<Item>) {
        let d = *self.data;
        let init = self.init_mask();
        lemma_mask_of_len(d, init, a);
        lemma_mask_of_len(d, init, b);
        assert forall|i: int| 0 <= i < init.len() implies #[trigger] mask_of(d, init, a)[i] == mask_of(
            d,
            init,
            b,
        )[i] by {
            assert forall|bit: u64| bit < 64 implies #[trigger] bit_set(mask_of(d, init, a)[i], bit)
                == bit_set(mask_of(d, init, b)[i], bit) by {
                lemma_mask_of_char(d, init, a, i, bit);
                lemma_mask_of_char(d, init, b, i, bit);
                if word_holds(d, b, i, bit) {
                    lemma_same_items_hold_words(d, a, b, i, bit);
                }
                if word_holds(d, a, i, bit) {
                    lemma_same_items_hold_words(d, b, a, i, bit);
                }
            }
            lemma_word_eq(mask_of(d, init, a)[i], mask_of(d, init, b)[i]);
        }
        assert(mask_of(d, init, a) =~= mask_of(d, init, b));
    }

    proof fn lemma_contradiction(&self, its: Seq<Item>, a: usize, v: bool) {
        let d = *self.data;
        let init = self.init_mask();
        let its2 = its.push((a, !v));
        lemma_mask_of_len(d, init, its2);
        let j = choose|j: int| 0 <= j < its.len() && its[j] == (a, v);
        assert forall|i: int| 0 <= i < init.len() implies #[trigger] mask_of(d, init, its2)[i] == 0 by {
            assert forall|bit: u64| bit < 64 implies #[trigger] bit_set(mask_of(d, init, its2)[i], bit)
                == bit_set(0, bit) by {
                lemma_mask_of_char(d, init, its2, i, bit);
                lemma_bit_set_zero(bit);
                assert(its2[j] == (a, v));
                assert(its2[its.len() as int] == (a, !v));
            }
            lemma_word_eq(mask_of(d, init, its2)[i], 0);
        }
        lemma_count_bits_zero(mask_of(d, init, its2));
    }

    proof fn lemma_shape(&self) {
    }

    proof fn lemma_empty_support(&self) {
        lemma_chunk_count_bounds(self.data.ntransactions as nat);
        lemma_initial_mask_count(
            self.data.ntransactions as nat,
            chunk_count(self.data.ntransactions as nat),
        );
    }

    fn intersection_cover(&mut self, second_its: &Item) -> (r: usize) {
        proof {
            lemma_mask_of_len(*self.data, self.init_mask(), self.current@);
        }
        self.current.push(*second_its);
        self.updated = false;
        self.support = None;
        self.update_mask(second_its);
        let copy = copy_words(self.mask.as_ref().unwrap());
        self.mask_stack.push(copy);
        proof {
            let c = self.current@;
            assert(c.drop_last() =~= old(self).current@);
            assert(c.take(c.len() as int) =~= c);
            assert forall|i: int| 0 <= i <= c.len() implies (#[trigger] self.mask_stack@[i])@
                == self.mask_for(c.take(i)) by {
                if i < c.len() {
                    assert(c.take(i) =~= old(self).current@.take(i));
                }
            }
        }
        self.support()
    }

    fn temp_intersection(&mut self, second_its: &Item) -> (r: usize) {
        let ghost start = *self;
        proof {
            lemma_mask_of_len(*self.data, self.init_mask(), self.current@);
        }
        self.current.push(*second_its);
        self.updated = false;
        self.support = None;
        self.update_mask(second_its);
        let copy = copy_words(self.mask.as_ref().unwrap());
        self.mask_stack.push(copy);
        proof {
            let c = self.current@;
            assert(c.drop_last() =~= old(self).current@);
            assert(c.take(c.len() as int) =~= c);
            assert forall|i: int| 0 <= i <= c.len() implies (#[trigger] self.mask_stack@[i])@
                == self.mask_for(c.take(i)) by {
                if i < c.len() {
                    assert(c.take(i) =~= old(self).current@.take(i));
                }
            }
        }
        let support = self.support();
        self.backtrack();
        support
    }

    fn backtrack(&mut self) {
        self.mask_stack.pop();
        self.current.pop();
        let top = copy_words(&self.mask_stack[self.mask_stack.len() - 1]);
        self.mask = Some(top);
        self.updated = false;
        self.support = None;
        proof {
            let c = self.current@;
            assert(c =~= old(self).current@.drop_last());
            assert(c.take(c.len() as int) =~= c);
            assert forall|i: int| 0 <= i <= c.len() implies (#[trigger] self.mask_stack@[i])@
                == self.mask_for(c.take(i)) by {
                assert(c.take(i) =~= old(self).current@.take(i));
            }
            assert(self.mask_stack@[c.len() as int]@ == self.mask_for(c.take(c.len() as int)));
        }
        self.support();
    }

    fn reset(&mut self) {
        self.gen_new_mask();
        let cloned_mask = copy_words(self.mask.as_ref().unwrap());
        self.mask_stack = vec![cloned_mask];
        self.support = None;
        self.updated = false;
        self.current = Vec::new();
        proof {
            assert(self.current@.take(0) =~= self.current@);
        }
    }

    fn support(&mut self) -> (r: usize) {
        if self.support.is_some() && self.updated {
            self.support.unwrap()
        } else if self.mask.is_some() && self.updated {
            let mask = self.mask.take().unwrap();
            proof {
                lemma_mask_of_len(*self.data, self.init_mask(), self.current@);
                lemma_chunk_count_bounds(self.ntransactions as nat);
            }
            let count = ItemsetOpsLong::count_in_vec(&mask);
            self.mask = Some(mask);
            self.support = Some(count);
            self.updated = true;
            count
        } else {
            let ghost items = self.current@;
            self.gen_new_mask();
            let r = self.compute_support_from_mask();
            proof {
                assert(self.current@.take(self.current@.len() as int) =~= self.current@);
            }
            r
        }
    }

    fn classes_cover(&mut self) -> (r: Vec<usize>) {
        self.class_counts()
    }

    fn top_class(&mut self) -> (r: (usize, usize)) {
        let classes_cover = self.classes_cover();
        let r = first_max(&classes_cover);
        proof {
            assert(classes_cover@.map_values(|v: usize| v as nat) =~= Seq::new(
                old(self).n_classes(),
                |k: int| old(self).class_support_of(old(self).items(), k),
            ));
        }
        r
    }

    fn leaf_misclassication_error(&mut self) -> (r: (usize, usize)) {
        let classes_cover = self.classes_cover();
        let ghost mid = *self;
        let max_class = self.top_class();
        let ghost s = classes_cover@.map_values(|v: usize| v as nat);
        proof {
            assert(s =~= Seq::new(
                old(self).n_classes(),
                |k: int| old(self).class_support_of(old(self).items(), k),
            ));
            assert(s =~= Seq::new(
                mid.n_classes(),
                |k: int| mid.class_support_of(mid.items(), k),
            ));
            let nc = chunk_count(old(self).ntransactions as nat);
            let m = old(self).mask_for(old(self).current@);
            lemma_mask_of_len(*old(self).data, old(self).init_mask(), old(self).current@);
            assert(m.len() == nc);
            lemma_count_bits_bound(m);
            assert(old(self).data.wf());
            assert forall|i: int| 0 <= i < s.len() implies #[trigger] s[i] <= 64 * nc by {
                lemma_count_bits_restrict_le(m, old(self).data.target@[i]@, true);
            }
            lemma_first_max_index_bounds(s);
            lemma_seq_sum_bound(s, 64 * nc);
            assert(s.len() * (64 * nc) <= usize::MAX);
            lemma_seq_sum_ge_elem(s, first_max_index(s));
        }
        let total = sum_counts(&classes_cover, usize::MAX);
        let error = total - max_class.1;
        (error, max_class.0)
    }

    fn get_infos(&self) -> (r: (usize, usize, usize)) {
        (self.data.ntransactions, self.data.nattributes, self.data.nclasses)
    }

    fn get_current(&self) -> (r: Vec<Item>) {
        copy_items(&self.current)
    }

    fn get_nclasses(&self) -> (r: usize) {
        self.data.nclasses
    }

    fn temp_classes_cover(&mut self, second_its: &Item) -> (r: Vec<usize>) {
        proof {
            lemma_mask_of_len(*self.data, self.init_mask(), self.current@);
        }
        self.current.push(*second_its);
        self.updated = false;
        self.support = None;
        self.update_mask(second_its);
        let copy = copy_words(self.mask.as_ref().unwrap());
        self.mask_stack.push(copy);
        proof {
            let c = self.current@;
            assert(c.drop_last() =~= old(self).current@);
            assert(c.take(c.len() as int) =~= c);
            assert forall|i: int| 0 <= i <= c.len() implies (#[trigger] self.mask_stack@[i])@
                == self.mask_for(c.take(i)) by {
                if i < c.len() {
                    assert(c.take(i) =~= old(self).current@.take(i));
                }
            }
        }
        let cover = self.classes_cover();
        self.backtrack();
        cover
    }
}

} // verus!
