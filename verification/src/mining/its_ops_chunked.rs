//! The itemset operator over the chunked dataset: the cover of the current
//! itemset is a vector of 64-bit bit vectors; transaction `t` is bit `t % 64`
//! of chunk `t / 64`.
use vstd::prelude::*;
use bit_vec::BitVec;
use crate::bitvec_ops::{
    and_bits, bitvec_bits, bv_and, bv_clone, bits_set, bv_from_elem, bv_negate, bv_set,
    count_true, lemma_count_true_all, lemma_count_true_bound,
};
use crate::data::dt_chuncked::DataChunked;
use crate::data::dt_longed::{chunk_count, lemma_chunk_count_bounds};
use crate::mining::itemset_bitvector_trait::{first_max, first_max_index};
use crate::mining::{copy_items, Item};

verus! {

pub struct ItemsetOpsChunked<'a> {
    pub current: Vec<Item>,
    data: &'a DataChunked,
    support: Option<usize>,
    mask: Option<Vec<BitVec>>,
    ntransactions: usize,
    nchunks: usize,
    updated: bool,
}

/// The bits of each chunk.
pub open spec fn chunks_view(v: Seq<BitVec>) -> Seq<Seq<bool>> {
    Seq::new(v.len(), |c: int| bitvec_bits(v[c]))
}

/// The number of bits of all chunks together.
pub open spec fn total_bits(m: Seq<Seq<bool>>) -> nat
    decreases m.len(),
{
    if m.len() == 0 {
        0
    } else {
        total_bits(m.drop_last()) + m.last().len()
    }
}

/// The number of bits set in all chunks together.
pub open spec fn count_chunks(m: Seq<Seq<bool>>) -> nat
    decreases m.len(),
{
    if m.len() == 0 {
        0
    } else {
        count_chunks(m.drop_last()) + count_true(m.last())
    }
}

/// The number of bits of the last chunk that the full mask keeps set: all 64
/// where `n` is a multiple of 64, else those that hold transactions.
pub open spec fn live_in_last(n: nat, nc: nat) -> int {
    64 - if n % 64 == 0 {
        0
    } else {
        nc * 64 - n
    }
}

/// The full mask of `n` transactions in `nc` chunks of 64 bits.
pub open spec fn fresh_mask(n: nat, nc: nat) -> Seq<Seq<bool>> {
    Seq::new(nc, |c: int| Seq::new(64, |b: int| !(c == nc - 1 && b >= live_in_last(n, nc))))
}

/// The full mask can be built: at least one chunk, a count of bits that
/// fits in a `usize`, and no more dead bits than one chunk holds.
pub open spec fn fresh_ok(n: nat, nc: nat) -> bool {
    &&& nc >= 1
    &&& nc * 64 <= usize::MAX
    &&& n % 64 == 0 || (n <= nc * 64 && nc * 64 - n <= 64)
}

/// The first `nc` chunks of `m` restricted to the bits also set (`keep`), or
/// clear, in the chunks of `row`.
pub open spec fn restrict_chunks(m: Seq<Seq<bool>>, row: Seq<Seq<bool>>, keep: bool, nc: nat) -> Seq<
    Seq<bool>,
> {
    Seq::new(m.len(), |c: int| if c < nc { and_bits(m[c], row[c], keep) } else { m[c] })
}

/// The mask of the itemset `its` from the mask `init`.
pub open spec fn chunked_mask_of(
    data: DataChunked,
    init: Seq<Seq<bool>>,
    its: Seq<Item>,
    nc: nat,
) -> Seq<Seq<bool>>
    decreases its.len(),
{
    if its.len() == 0 {
        init
    } else {
        let item = its.last();
        restrict_chunks(
            chunked_mask_of(data, init, its.drop_last(), nc),
            chunks_view(data.data@[item.0 as int]@),
            item.1,
            nc,
        )
    }
}

/// The row of `item` has at least `nc` chunks, each as long as the chunk of
/// `m` it is combined with.
pub open spec fn item_fits(data: DataChunked, item: Item, m: Seq<Seq<bool>>, nc: nat) -> bool {
    &&& item.0 < data.data@.len()
    &&& nc <= data.data@[item.0 as int]@.len()
    &&& nc <= m.len()
    &&& forall|c: int|
        0 <= c < nc ==> bitvec_bits(#[trigger] data.data@[item.0 as int]@[c]).len() == m[c].len()
}

/// Every item of `its` fits the mask `m`.
pub open spec fn items_fit(data: DataChunked, its: Seq<Item>, m: Seq<Seq<bool>>, nc: nat) -> bool {
    forall|i: int| 0 <= i < its.len() ==> item_fits(data, #[trigger] its[i], m, nc)
}

/// The class rows have at least `nc` chunks, each as long as the chunk of
/// `m` it is combined with.
pub open spec fn classes_fit(data: DataChunked, m: Seq<Seq<bool>>, nc: nat) -> bool {
    &&& data.nclasses <= data.target@.len()
    &&& forall|k: int|
        0 <= k < data.nclasses ==> {
            &&& nc <= (#[trigger] data.target@[k])@.len()
            &&& nc <= m.len()
            &&& forall|c: int|
                0 <= c < nc ==> bitvec_bits(#[trigger] data.target@[k]@[c]).len() == m[c].len()
        }
}

/// Two masks with the same number of chunks, of the same lengths.
pub open spec fn same_shape(a: Seq<Seq<bool>>, b: Seq<Seq<bool>>) -> bool {
    &&& a.len() == b.len()
    &&& forall|c: int| 0 <= c < a.len() ==> (#[trigger] a[c]).len() == b[c].len()
}

pub proof fn lemma_total_bits_same_shape(a: Seq<Seq<bool>>, b: Seq<Seq<bool>>)
    requires
        same_shape(a, b),
    ensures
        total_bits(a) == total_bits(b),
    decreases a.len(),
{
    if a.len() > 0 {
        assert(a.last().len() == b.last().len());
        lemma_total_bits_same_shape(a.drop_last(), b.drop_last());
    }
}

pub proof fn lemma_count_chunks_bound(m: Seq<Seq<bool>>)
    ensures
        count_chunks(m) <= total_bits(m),
    decreases m.len(),
{
    if m.len() > 0 {
        lemma_count_true_bound(m.last());
        lemma_count_chunks_bound(m.drop_last());
    }
}

pub proof fn lemma_total_bits_prefix(m: Seq<Seq<bool>>, i: int)
    requires
        0 <= i <= m.len(),
    ensures
        total_bits(m.take(i)) <= total_bits(m),
    decreases m.len() - i,
{
    if i < m.len() {
        lemma_total_bits_prefix(m, i + 1);
        assert(m.take(i + 1).drop_last() =~= m.take(i));
    } else {
        assert(m.take(i) =~= m);
    }
}

pub proof fn lemma_total_bits_uniform(m: Seq<Seq<bool>>, w: nat)
    requires
        forall|c: int| 0 <= c < m.len() ==> (#[trigger] m[c]).len() == w,
    ensures
        total_bits(m) == m.len() * w,
    decreases m.len(),
{
    if m.len() > 0 {
        lemma_total_bits_uniform(m.drop_last(), w);
        assert(m.len() * w == (m.len() - 1) * w + w) by (nonlinear_arith);
    }
}

pub proof fn lemma_restrict_same_shape(m: Seq<Seq<bool>>, row: Seq<Seq<bool>>, keep: bool, nc: nat)
    ensures
        same_shape(restrict_chunks(m, row, keep, nc), m),
{
}

pub proof fn lemma_chunked_mask_shape(data: DataChunked, init: Seq<Seq<bool>>, its: Seq<Item>, nc: nat)
    ensures
        same_shape(chunked_mask_of(data, init, its, nc), init),
    decreases its.len(),
{
    if its.len() > 0 {
        let prev = chunked_mask_of(data, init, its.drop_last(), nc);
        lemma_chunked_mask_shape(data, init, its.drop_last(), nc);
        lemma_restrict_same_shape(prev, chunks_view(data.data@[its.last().0 as int]@), its.last().1, nc);
    }
}

/// An item that fits a mask fits every mask of the same shape.
pub proof fn lemma_item_fits_shape(data: DataChunked, item: Item, a: Seq<Seq<bool>>, b: Seq<Seq<bool>>, nc: nat)
    requires
        item_fits(data, item, a, nc),
        same_shape(a, b),
    ensures
        item_fits(data, item, b, nc),
{
    assert forall|c: int| 0 <= c < nc implies bitvec_bits(
        #[trigger] data.data@[item.0 as int]@[c],
    ).len() == b[c].len() by {
        assert(a[c].len() == b[c].len());
    }
}

pub proof fn lemma_fresh_mask_bits(n: nat, nc: nat)
    ensures
        total_bits(fresh_mask(n, nc)) == nc * 64,
        fresh_mask(n, nc).len() == nc,
        forall|c: int| 0 <= c < nc ==> (#[trigger] fresh_mask(n, nc)[c]).len() == 64,
{
    lemma_total_bits_uniform(fresh_mask(n, nc), 64);
}

proof fn lemma_count_true_below(len: nat, k: int)
    requires
        0 <= k <= len,
    ensures
        count_true(Seq::new(len, |b: int| b < k)) == k,
    decreases len,
{
    if k == len {
        assert(Seq::new(len, |b: int| b < k) =~= Seq::new(len, |b: int| true));
        lemma_count_true_all(len);
    } else {
        assert(Seq::new(len, |b: int| b < k).drop_last() =~= Seq::new((len - 1) as nat, |b: int| b < k));
        lemma_count_true_below((len - 1) as nat, k);
    }
}

proof fn lemma_fresh_prefix_count(n: nat, nc: nat, k: nat)
    requires
        n >= 1,
        nc == chunk_count(n),
        k < nc,
    ensures
        count_chunks(fresh_mask(n, nc).take(k as int)) == 64 * k,
    decreases k,
{
    let m = fresh_mask(n, nc);
    if k == 0 {
        assert(m.take(0) =~= Seq::<Seq<bool>>::empty());
    } else {
        lemma_fresh_prefix_count(n, nc, (k - 1) as nat);
        let t = m.take(k as int);
        assert(t.drop_last() =~= m.take(k - 1));
        assert(t.last() =~= Seq::new(64, |b: int| true));
        lemma_count_true_all(64);
    }
}

/// The full mask of `n` transactions in as many chunks as the chunked
/// dataset holds counts every transaction.
pub proof fn full_mask_counts_every_transaction(n: nat)
    requires
        n >= 1,
    ensures
        count_chunks(fresh_mask(n, chunk_count(n))) == n,
{
    let nc = chunk_count(n);
    lemma_chunk_count_bounds(n);
    let m = fresh_mask(n, nc);
    let live = live_in_last(n, nc);
    assert(0 < live <= 64);
    lemma_fresh_prefix_count(n, nc, (nc - 1) as nat);
    assert(m.drop_last() =~= m.take(nc - 1));
    assert(m.last() =~= Seq::new(64, |b: int| b < live));
    lemma_count_true_below(64, live);
}

/// `nc` chunks of 64 bits, each set.
fn full_chunks(nc: usize) -> (r: Vec<BitVec>)
    ensures
        r@.len() == nc,
        forall|c: int| 0 <= c < nc ==> bitvec_bits(#[trigger] r@[c]) == Seq::new(64, |b: int| true),
        chunks_view(r@) == Seq::new(nc as nat, |c: int| Seq::new(64, |b: int| true)),
{
    let mut r: Vec<BitVec> = Vec::new();
    let mut i: usize = 0;
    while i < nc
        invariant
            i <= nc,
            r@.len() == i,
            forall|c: int| 0 <= c < i ==> bitvec_bits(#[trigger] r@[c]) == Seq::new(64, |b: int| true),
        decreases nc - i,
    {
        r.push(bv_from_elem(64, true));
        i = i + 1;
    }
    assert(chunks_view(r@) =~= Seq::new(nc as nat, |c: int| Seq::new(64, |b: int| true)));
    r
}

/// A copy of the chunks of `v`.
fn clone_chunks(v: &Vec<BitVec>) -> (r: Vec<BitVec>)
    ensures
        chunks_view(r@) == chunks_view(v@),
{
    let mut r: Vec<BitVec> = Vec::new();
    let mut i: usize = 0;
    while i < v.len()
        invariant
            i <= v@.len(),
            r@.len() == i,
            forall|c: int| 0 <= c < i ==> bitvec_bits(#[trigger] r@[c]) == bitvec_bits(v@[c]),
        decreases v@.len() - i,
    {
        r.push(bv_clone(&v[i]));
        i = i + 1;
    }
    assert(chunks_view(r@) =~= chunks_view(v@));
    r
}

impl<'a> ItemsetOpsChunked<'a> {
    /// The dataset the operator reads.
    pub closed spec fn dataset(&self) -> DataChunked {
        *self.data
    }

    /// The items of the current itemset.
    pub closed spec fn items(&self) -> Seq<Item> {
        self.current@
    }

    /// The support held from the last count, if any.
    pub closed spec fn support_held(&self) -> Option<usize> {
        self.support
    }

    /// The chunks of the mask, if there is one.
    pub closed spec fn mask_held(&self) -> Option<Seq<Seq<bool>>> {
        match self.mask {
            Some(m) => Some(chunks_view(m@)),
            None => None,
        }
    }

    pub closed spec fn n_transactions(&self) -> nat {
        self.ntransactions as nat
    }

    pub closed spec fn n_chunks(&self) -> nat {
        self.nchunks as nat
    }

    /// Whether the support held is that of the mask.
    pub closed spec fn is_updated(&self) -> bool {
        self.updated
    }

    /// The full mask of this operator's transactions and chunks.
    pub open spec fn full_mask(&self) -> Seq<Seq<bool>> {
        fresh_mask(self.n_transactions(), self.n_chunks())
    }

    /// The mask of the current itemset, recomputed from the full mask.
    pub open spec fn recomputed_mask(&self) -> Seq<Seq<bool>> {
        chunked_mask_of(self.dataset(), self.full_mask(), self.items(), self.n_chunks())
    }

    /// The support can be recomputed from the full mask.
    pub open spec fn can_recompute(&self) -> bool {
        &&& fresh_ok(self.n_transactions(), self.n_chunks())
        &&& items_fit(self.dataset(), self.items(), self.full_mask(), self.n_chunks())
    }

    /// The same dataset, transactions and chunks.
    pub open spec fn same_frame(&self, other: &Self) -> bool {
        &&& self.dataset() == other.dataset()
        &&& self.n_transactions() == other.n_transactions()
        &&& self.n_chunks() == other.n_chunks()
    }

    /// An operator made of the given parts.
    pub fn new(
        current: Vec<Item>,
        data: &'a DataChunked,
        support: Option<usize>,
        mask: Option<Vec<BitVec>>,
        ntransactions: usize,
        updated: bool,
        nchunks: usize,
    ) -> (r: ItemsetOpsChunked<'a>)
        ensures
            r.items() == current@,
            r.dataset() == *data,
            r.support_held() == support,
            r.mask_held() == (match mask {
                Some(m) => Some(chunks_view(m@)),
                None => None,
            }),
            r.n_transactions() == ntransactions,
            r.is_updated() == updated,
            r.n_chunks() == nchunks,
    {
        ItemsetOpsChunked { current, data, support, mask, ntransactions, updated, nchunks }
    }

    /// Adds `second_its` to the current itemset and recomputes its support.
    pub fn union(&mut self, second_its: &Item)
        requires
            old(self).mask_held() is Some,
            item_fits(
                old(self).dataset(),
                *second_its,
                old(self).mask_held().unwrap(),
                old(self).n_chunks(),
            ),
            fresh_ok(old(self).n_transactions(), old(self).n_chunks()),
            items_fit(
                old(self).dataset(),
                old(self).items().push(*second_its),
                old(self).full_mask(),
                old(self).n_chunks(),
            ),
        ensures
            final(self).items() == old(self).items().push(*second_its),
            final(self).same_frame(old(self)),
            final(self).mask_held() == Some(final(self).recomputed_mask()),
            final(self).support_held() == Some(count_chunks(final(self).recomputed_mask()) as usize),
            count_chunks(final(self).recomputed_mask()) <= usize::MAX,
            final(self).is_updated(),
    {
        self.union_cover(second_its);
    }

    /// Adds `second_its` to the current itemset; returns the support of the
    /// new itemset.
    pub fn union_cover(&mut self, second_its: &Item) -> (r: usize)
        requires
            old(self).mask_held() is Some,
            item_fits(
                old(self).dataset(),
                *second_its,
                old(self).mask_held().unwrap(),
                old(self).n_chunks(),
            ),
            fresh_ok(old(self).n_transactions(), old(self).n_chunks()),
            items_fit(
                old(self).dataset(),
                old(self).items().push(*second_its),
                old(self).full_mask(),
                old(self).n_chunks(),
            ),
        ensures
            final(self).items() == old(self).items().push(*second_its),
            final(self).same_frame(old(self)),
            final(self).mask_held() == Some(final(self).recomputed_mask()),
            r == count_chunks(final(self).recomputed_mask()),
            final(self).support_held() == Some(r),
            final(self).is_updated(),
    {
        self.current.push(*second_its);
        self.updated = false;
        self.update_mask(second_its);
        self.support()
    }

    /// Restricts the first chunks of the mask to the transactions that hold
    /// `item`.
    fn update_mask(&mut self, item: &Item)
        requires
            old(self).mask is Some,
            item_fits(
                *old(self).data,
                *item,
                chunks_view(old(self).mask.unwrap()@),
                old(self).nchunks as nat,
            ),
        ensures
            final(self).mask is Some,
            chunks_view(final(self).mask.unwrap()@) == restrict_chunks(
                chunks_view(old(self).mask.unwrap()@),
                chunks_view(old(self).data.data@[item.0 as int]@),
                item.1,
                old(self).nchunks as nat,
            ),
            final(self).updated == false,
            final(self).current == old(self).current,
            final(self).data == old(self).data,
            final(self).support == old(self).support,
            final(self).ntransactions == old(self).ntransactions,
            final(self).nchunks == old(self).nchunks,
    {
        let mut mask = self.mask.take().unwrap();
        let ghost before = chunks_view(mask@);
        let row = &self.data.data[item.0];
        let ghost rowv = chunks_view(row@);
        let mut i: usize = 0;
        while i < self.nchunks
            invariant
                before.len() == mask@.len(),
                self.nchunks <= mask@.len(),
                self.nchunks <= row@.len(),
                rowv == chunks_view(row@),
                forall|c: int| 0 <= c < self.nchunks ==> (#[trigger] rowv[c]).len() == before[c].len(),
                i <= self.nchunks,
                forall|c: int|
                    0 <= c < i ==> bitvec_bits(#[trigger] mask@[c]) == and_bits(
                        before[c],
                        rowv[c],
                        item.1,
                    ),
                forall|c: int| i <= c < mask@.len() ==> bitvec_bits(#[trigger] mask@[c]) == before[c],
            decreases self.nchunks - i,
        {
            let mut b = bv_clone(&row[i]);
            if !item.1 {
                bv_negate(&mut b);
            }
            let ghost bb = bitvec_bits(b);
            let ghost m0 = mask@;
            assert(bitvec_bits(mask@[i as int]) == before[i as int]);
            assert(rowv[i as int] == bitvec_bits(row@[i as int]));
            assert(bb.len() == before[i as int].len());
            bv_and(&mut mask[i], &b);
            proof {
                assert(and_bits(before[i as int], bb, true) =~= and_bits(
                    before[i as int],
                    rowv[i as int],
                    item.1,
                ));
                assert forall|c: int| 0 <= c < mask@.len() && c != i implies mask@[c] == m0[c] by {}
            }
            i = i + 1;
        }
        proof {
            assert forall|c: int| 0 <= c < mask@.len() implies #[trigger] chunks_view(mask@)[c]
                == restrict_chunks(before, rowv, item.1, self.nchunks as nat)[c] by {}
            assert(chunks_view(mask@) =~= restrict_chunks(before, rowv, item.1, self.nchunks as nat));
        }
        self.mask = Some(mask);
        self.updated = false;
    }

    /// Sets the mask to the full mask.
    fn gen_new_mask(&mut self)
        requires
            fresh_ok(old(self).ntransactions as nat, old(self).nchunks as nat),
        ensures
            final(self).mask is Some,
            chunks_view(final(self).mask.unwrap()@) == fresh_mask(
                old(self).ntransactions as nat,
                old(self).nchunks as nat,
            ),
            final(self).updated == old(self).updated,
            final(self).current == old(self).current,
            final(self).data == old(self).data,
            final(self).support == old(self).support,
            final(self).ntransactions == old(self).ntransactions,
            final(self).nchunks == old(self).nchunks,
    {
        let ghost n = self.ntransactions as nat;
        let ghost nc = self.nchunks as nat;
        let mut mask = full_chunks(self.nchunks);
        let dead_bits: usize = 64 - if self.ntransactions % 64 == 0 {
            0
        } else {
            self.nchunks * 64 - self.ntransactions
        };
        let last = self.nchunks - 1;
        proof {
            assert forall|c: int| 0 <= c < nc implies bitvec_bits(#[trigger] mask@[c]) == Seq::new(
                64,
                |b: int| !(c == last && b >= 64),
            ) by {
                assert(Seq::new(64, |b: int| !(c == last && b >= 64)) =~= Seq::new(
                    64,
                    |b: int| true,
                ));
            }
        }
        let mut i: usize = 64;
        while i > dead_bits
            invariant
                dead_bits == live_in_last(n, nc),
                dead_bits <= i <= 64,
                last == nc - 1,
                mask@.len() == nc,
                forall|c: int|
                    0 <= c < nc ==> bitvec_bits(#[trigger] mask@[c]) == Seq::new(
                        64,
                        |b: int| !(c == last && b >= i),
                    ),
            decreases i,
        {
            i = i - 1;
            let ghost m0 = mask@;
            bv_set(&mut mask[last], i, false);
            proof {
                assert forall|c: int| 0 <= c < nc implies bitvec_bits(#[trigger] mask@[c])
                    == Seq::new(64, |b: int| !(c == last && b >= i)) by {
                    if c != last {
                        assert(mask@[c] == m0[c]);
                    }
                    assert(bitvec_bits(mask@[c]) =~= Seq::new(64, |b: int| !(c == last && b >= i)));
                }
            }
        }
        proof {
            assert forall|c: int| 0 <= c < nc implies #[trigger] chunks_view(mask@)[c]
                == fresh_mask(n, nc)[c] by {
                assert(chunks_view(mask@)[c] =~= fresh_mask(n, nc)[c]);
            }
            assert(chunks_view(mask@) =~= fresh_mask(n, nc));
        }
        self.mask = Some(mask);
    }

    /// Restricts the mask (the full mask where there is none) by every item
    /// of the current itemset; returns the support it counts.
    fn compute_support_from_mask(&mut self) -> (r: usize)
        requires
            old(self).mask is None ==> fresh_ok(old(self).ntransactions as nat, old(self).nchunks as nat),
            items_fit(*old(self).data, old(self).current@, start_mask(*old(self)), old(self).nchunks as nat),
            total_bits(start_mask(*old(self))) <= usize::MAX,
        ensures
            final(self).mask is Some,
            chunks_view(final(self).mask.unwrap()@) == chunked_mask_of(
                *old(self).data,
                start_mask(*old(self)),
                old(self).current@,
                old(self).nchunks as nat,
            ),
            r == count_chunks(chunks_view(final(self).mask.unwrap()@)),
            final(self).support == Some(r),
            final(self).updated,
            final(self).current == old(self).current,
            final(self).data == old(self).data,
            final(self).ntransactions == old(self).ntransactions,
            final(self).nchunks == old(self).nchunks,
    {
        let ghost start = start_mask(*self);
        if self.mask.is_none() {
            self.gen_new_mask();
        }
        let ghost nc = self.nchunks as nat;
        let items = copy_items(&self.current);
        let mut i: usize = 0;
        while i < items.len()
            invariant
                items@ == self.current@,
                i <= items@.len(),
                nc == self.nchunks,
                items_fit(*self.data, self.current@, start, nc),
                self.mask is Some,
                chunks_view(self.mask.unwrap()@) == chunked_mask_of(
                    *self.data,
                    start,
                    self.current@.take(i as int),
                    nc,
                ),
                self.current == old(self).current,
                self.data == old(self).data,
                self.ntransactions == old(self).ntransactions,
                self.nchunks == old(self).nchunks,
            decreases items@.len() - i,
        {
            proof {
                lemma_chunked_mask_shape(*self.data, start, self.current@.take(i as int), nc);
                lemma_item_fits_shape(
                    *self.data,
                    items@[i as int],
                    start,
                    chunks_view(self.mask.unwrap()@),
                    nc,
                );
            }
            self.update_mask(&items[i]);
            proof {
                let t = self.current@.take(i as int + 1);
                assert(t.drop_last() =~= self.current@.take(i as int));
                assert(t.last() == items@[i as int]);
            }
            i = i + 1;
        }
        assert(self.current@.take(items@.len() as int) =~= self.current@);
        let mask = self.mask.take().unwrap();
        proof {
            lemma_chunked_mask_shape(*self.data, start, self.current@, nc);
            lemma_total_bits_same_shape(chunks_view(mask@), start);
        }
        let count = ItemsetOpsChunked::count_in_vec(&mask);
        self.mask = Some(mask);
        self.support = Some(count);
        self.updated = true;
        count
    }

    /// The support: the one held where it is up to date, else counted from
    /// the mask where that is up to date, else recomputed from the full
    /// mask.
    pub fn support(&mut self) -> (r: usize)
        requires
            !(old(self).support_held() is Some && old(self).is_updated()) ==> if old(
                self,
            ).mask_held() is Some && old(self).is_updated() {
                total_bits(old(self).mask_held().unwrap()) <= usize::MAX
            } else {
                old(self).can_recompute()
            },
        ensures
            final(self).items() == old(self).items(),
            final(self).same_frame(old(self)),
            final(self).is_updated(),
            final(self).support_held() == Some(r),
            old(self).support_held() is Some && old(self).is_updated() ==> r == old(
                self,
            ).support_held().unwrap() && final(self).mask_held() == old(self).mask_held(),
            !(old(self).support_held() is Some && old(self).is_updated()) && old(
                self,
            ).mask_held() is Some && old(self).is_updated() ==> r == count_chunks(
                old(self).mask_held().unwrap(),
            ) && final(self).mask_held() == old(self).mask_held(),
            !(old(self).support_held() is Some && old(self).is_updated()) && !(old(
                self,
            ).mask_held() is Some && old(self).is_updated()) ==> r == count_chunks(
                old(self).recomputed_mask(),
            ) && final(self).mask_held() == Some(old(self).recomputed_mask()),
    {
        if self.support.is_some() && self.updated {
            self.support.unwrap()
        } else if self.mask.is_some() && self.updated {
            let mask = self.mask.take().unwrap();
            let count = ItemsetOpsChunked::count_in_vec(&mask);
            self.mask = Some(mask);
            self.support = Some(count);
            self.updated = true;
            count
        } else {
            proof {
                lemma_fresh_mask_bits(self.ntransactions as nat, self.nchunks as nat);
            }
            self.gen_new_mask();
            self.compute_support_from_mask()
        }
    }

    /// Total number of bits set in the chunks of `arr`.
    fn count_in_vec(arr: &Vec<BitVec>) -> (r: usize)
        requires
            total_bits(chunks_view(arr@)) <= usize::MAX,
        ensures
            r == count_chunks(chunks_view(arr@)),
    {
        let ghost m = chunks_view(arr@);
        let mut sum: usize = 0;
        let mut i: usize = 0;
        while i < arr.len()
            invariant
                m == chunks_view(arr@),
                total_bits(m) <= usize::MAX,
                i <= arr@.len(),
                sum == count_chunks(m.take(i as int)),
            decreases arr@.len() - i,
        {
            proof {
                let t = m.take(i as int + 1);
                assert(t.drop_last() =~= m.take(i as int));
                lemma_count_chunks_bound(t);
                lemma_total_bits_prefix(m, i as int + 1);
            }
            sum = sum + bits_set(&arr[i]);
            i = i + 1;
        }
        assert(m.take(arr@.len() as int) =~= m);
        sum
    }

    /// Fraction-free form of the frequency: the support and the number of
    /// transactions it is taken out of.
    pub fn frequency_parts(&mut self) -> (r: (usize, usize))
        requires
            old(self).is_updated() ==> old(self).support_held() is Some,
            !old(self).is_updated() ==> old(self).can_recompute(),
        ensures
            final(self).items() == old(self).items(),
            final(self).same_frame(old(self)),
            r.1 == old(self).n_transactions(),
            old(self).is_updated() ==> r.0 == old(self).support_held().unwrap() && *final(self)
                == *old(self),
            !old(self).is_updated() ==> r.0 == count_chunks(old(self).recomputed_mask())
                && final(self).mask_held() == Some(old(self).recomputed_mask())
                && final(self).support_held() == Some(r.0) && final(self).is_updated(),
    {
        let s = if !self.updated {
            self.support()
        } else {
            self.support.unwrap()
        };
        (s, self.ntransactions)
    }

    /// The support of each class within the mask.
    pub fn classes_cover(&mut self) -> (r: Vec<usize>)
        requires
            old(self).dataset().nclasses > 0 ==> {
                &&& old(self).mask_held() is Some
                &&& classes_fit(old(self).dataset(), old(self).mask_held().unwrap(), old(self).n_chunks())
                &&& total_bits(old(self).mask_held().unwrap()) <= usize::MAX
            },
        ensures
            *final(self) == *old(self),
            r@.len() == old(self).dataset().nclasses,
            forall|k: int|
                0 <= k < r@.len() ==> #[trigger] r@[k] == count_chunks(
                    restrict_chunks(
                        old(self).mask_held().unwrap(),
                        chunks_view(old(self).dataset().target@[k]@),
                        true,
                        old(self).n_chunks(),
                    ),
                ),
    {
        let mut classes_cover: Vec<usize> = Vec::new();
        let mut i: usize = 0;
        while i < self.data.nclasses
            invariant
                *self == *old(self),
                self.data.nclasses > 0 ==> {
                    &&& self.mask is Some
                    &&& classes_fit(*self.data, chunks_view(self.mask.unwrap()@), self.nchunks as nat)
                    &&& total_bits(chunks_view(self.mask.unwrap()@)) <= usize::MAX
                },
                i <= self.data.nclasses,
                classes_cover@.len() == i,
                forall|k: int|
                    0 <= k < i ==> #[trigger] classes_cover@[k] == count_chunks(
                        restrict_chunks(
                            chunks_view(self.mask.unwrap()@),
                            chunks_view(self.data.target@[k]@),
                            true,
                            self.nchunks as nat,
                        ),
                    ),
            decreases self.data.nclasses - i,
        {
            let mut cloned_mask = clone_chunks(self.mask.as_ref().unwrap());
            let ghost before = chunks_view(cloned_mask@);
            proof {
                assert(forall|c: int| 0 <= c < before.len() ==> #[trigger] before[c] == bitvec_bits(cloned_mask@[c]));
            }
            let target = &self.data.target[i];
            let ghost tv = chunks_view(target@);
            let mut j: usize = 0;
            while j < self.nchunks
                invariant
                    *self == *old(self),
                    before == chunks_view(self.mask.unwrap()@),
                    before.len() == cloned_mask@.len(),
                    self.nchunks <= cloned_mask@.len(),
                    self.nchunks <= target@.len(),
                    tv == chunks_view(target@),
                    forall|c: int| 0 <= c < self.nchunks ==> (#[trigger] tv[c]).len() == before[c].len(),
                    j <= self.nchunks,
                    forall|c: int|
                        0 <= c < j ==> bitvec_bits(#[trigger] cloned_mask@[c]) == and_bits(
                            before[c],
                            tv[c],
                            true,
                        ),
                    forall|c: int|
                        j <= c < cloned_mask@.len() ==> bitvec_bits(#[trigger] cloned_mask@[c])
                            == before[c],
                decreases self.nchunks - j,
            {
                let ghost m0 = cloned_mask@;
                assert(bitvec_bits(cloned_mask@[j as int]) == before[j as int]);
                assert(tv[j as int] == bitvec_bits(target@[j as int]));
                bv_and(&mut cloned_mask[j], &target[j]);
                proof {
                    assert forall|c: int| 0 <= c < cloned_mask@.len() && c != j implies cloned_mask@[c]
                        == m0[c] by {}
                }
                j = j + 1;
            }
            proof {
                let rr = restrict_chunks(before, tv, true, self.nchunks as nat);
                assert forall|c: int| 0 <= c < cloned_mask@.len() implies #[trigger] chunks_view(
                    cloned_mask@,
                )[c] == rr[c] by {}
                assert(chunks_view(cloned_mask@) =~= rr);
                lemma_restrict_same_shape(before, tv, true, self.nchunks as nat);
                lemma_total_bits_same_shape(rr, before);
            }
            classes_cover.push(ItemsetOpsChunked::count_in_vec(&cloned_mask));
            i = i + 1;
        }
        classes_cover
    }

    /// The class with the largest support within the mask (the first of
    /// them), and that support.
    pub fn top_class(&mut self) -> (r: (usize, usize))
        requires
            old(self).dataset().nclasses > 0,
            old(self).mask_held() is Some,
            classes_fit(old(self).dataset(), old(self).mask_held().unwrap(), old(self).n_chunks()),
            total_bits(old(self).mask_held().unwrap()) <= usize::MAX,
        ensures
            *final(self) == *old(self),
            ({
                let s = Seq::new(
                    old(self).dataset().nclasses as nat,
                    |k: int|
                        count_chunks(
                            restrict_chunks(
                                old(self).mask_held().unwrap(),
                                chunks_view(old(self).dataset().target@[k]@),
                                true,
                                old(self).n_chunks(),
                            ),
                        ),
                );
                &&& r.0 == first_max_index(s)
                &&& r.1 == s[first_max_index(s)]
            }),
    {
        let classes_cover = self.classes_cover();
        let r = first_max(&classes_cover);
        proof {
            let s = Seq::new(
                old(self).dataset().nclasses as nat,
                |k: int|
                    count_chunks(
                        restrict_chunks(
                            old(self).mask_held().unwrap(),
                            chunks_view(old(self).dataset().target@[k]@),
                            true,
                            old(self).n_chunks(),
                        ),
                    ),
            );
            assert(classes_cover@.map_values(|v: usize| v as nat) =~= s);
        }
        r
    }
}

/// The mask that a recount starts from: the mask held, else the full mask.
pub open spec fn start_mask(ops: ItemsetOpsChunked) -> Seq<Seq<bool>> {
    match ops.mask_held() {
        Some(m) => m,
        None => ops.full_mask(),
    }
}

} // verus!
