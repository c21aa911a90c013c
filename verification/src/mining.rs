//! Itemsets over the dataset's attributes, and the operators that compute
//! their covers.
pub mod itemset_bitvector_trait;
pub mod its_ops;
pub mod its_ops_chunked;
pub mod its_ops_long;

use vstd::prelude::*;

verus! {

/// An attribute of the dataset, by its index.
pub type Attribute = usize;

/// An attribute and the value it is tested for.
pub type Item = (Attribute, bool);


/// The order of items: by attribute, then `false` before `true`.
pub open spec fn item_leq(a: Item, b: Item) -> bool {
    a.0 < b.0 || (a.0 == b.0 && (!a.1 || b.1))
}

/// `item_leq` as a relation.
pub open spec fn item_order() -> spec_fn(Item, Item) -> bool {
    |a: Item, b: Item| item_leq(a, b)
}

pub proof fn lemma_item_leq_total()
    ensures
        vstd::relations::total_ordering(item_order()),
{
    let leq = item_order();
    assert(vstd::relations::reflexive(leq));
    assert(vstd::relations::antisymmetric(leq)) by {
        assert forall|a: Item, b: Item| #[trigger] leq(a, b) && #[trigger] leq(b, a) implies a == b by {
            assert(a.0 == b.0);
            assert(a.1 == b.1);
        }
    }
    assert(vstd::relations::transitive(leq));
    assert(vstd::relations::strongly_connected(leq));
}

/// The items of `s` in order, as `sort_unstable` leaves them.
pub open spec fn sorted_items(s: Seq<Item>) -> Seq<Item> {
    s.sort_by(item_order())
}

pub open spec fn items_in_order(s: Seq<Item>) -> bool {
    vstd::relations::sorted_by(s, item_order())
}

/// Sequences with the same items sort alike.
pub proof fn lemma_sorted_items_eq(a: Seq<Item>, b: Seq<Item>)
    requires
        a.to_multiset() == b.to_multiset(),
    ensures
        sorted_items(a) == sorted_items(b),
{
    let leq = item_order();
    lemma_item_leq_total();
    a.lemma_sort_by_ensures(leq);
    b.lemma_sort_by_ensures(leq);
    vstd::seq_lib::lemma_sorted_unique(a.sort_by(leq), b.sort_by(leq), leq);
}

/// A sequence already in order is its own sorted form.
pub proof fn lemma_sorted_items_of_ordered(s: Seq<Item>)
    requires
        items_in_order(s),
    ensures
        sorted_items(s) == s,
{
    let leq = item_order();
    lemma_item_leq_total();
    s.lemma_sort_by_ensures(leq);
    vstd::seq_lib::lemma_sorted_unique(s.sort_by(leq), s, leq);
}

pub proof fn lemma_sorted_items_in_order(s: Seq<Item>)
    ensures
        items_in_order(sorted_items(s)),
        sorted_items(s).to_multiset() == s.to_multiset(),
        sorted_items(s).len() == s.len(),
{
    broadcast use vstd::seq_lib::group_to_multiset_ensures;

    let leq = item_order();
    lemma_item_leq_total();
    s.lemma_sort_by_ensures(leq);
    assert(s.sort_by(leq).to_multiset().len() == s.sort_by(leq).len());
    assert(s.to_multiset().len() == s.len());
}

fn item_le(a: &Item, b: &Item) -> (r: bool)
    ensures
        r == item_leq(*a, *b),
{
    a.0 < b.0 || (a.0 == b.0 && (!a.1 || b.1))
}

/// Inserts `x` in the sorted vector `v`, keeping it sorted.
fn insert_in_order(v: &mut Vec<Item>, x: Item)
    requires
        items_in_order(old(v)@),
    ensures
        items_in_order(final(v)@),
        final(v)@.to_multiset() == old(v)@.to_multiset().insert(x),
{
    let mut p: usize = 0;
    while p < v.len() && item_le(&v[p], &x)
        invariant
            p <= v@.len(),
            items_in_order(v@),
            forall|j: int| 0 <= j < p ==> item_leq(#[trigger] v@[j], x),
        decreases v@.len() - p,
    {
        p = p + 1;
    }
    let ghost before = v@;
    v.insert(p, x);
    proof {
        broadcast use vstd::seq_lib::group_to_multiset_ensures;
        assert(v@ == before.insert(p as int, x));
        assert(items_in_order(v@)) by {
            assert forall|i: int, j: int| 0 <= i < j < v@.len() implies #[trigger] item_order()(
                v@[i],
                v@[j],
            ) by {
                if j < p {
                    assert(item_order()(before[i], before[j]));
                } else if j == p {
                    assert(item_leq(before[i], x));
                } else if i < p {
                    assert(item_order()(before[i], before[j - 1]));
                } else if i == p {
                    assert(!item_leq(before[p as int], x));
                    if p < j - 1 {
                        assert(item_order()(before[p as int], before[j - 1]));
                    }
                } else {
                    assert(item_order()(before[i - 1], before[j - 1]));
                }
            }
        }
    }
}

/// Sorts the items as `sort_unstable` does.
pub fn sort_items(v: &mut Vec<Item>)
    ensures
        final(v)@ == sorted_items(old(v)@),
{
    let mut out: Vec<Item> = Vec::new();
    let mut i: usize = 0;
    assert(out@ =~= v@.take(0));
    while i < v.len()
        invariant
            i <= v@.len(),
            v@ == old(v)@,
            items_in_order(out@),
            out@.to_multiset() == v@.take(i as int).to_multiset(),
        decreases v@.len() - i,
    {
        proof {
            broadcast use vstd::seq_lib::group_to_multiset_ensures;
            assert(v@.take(i as int + 1) =~= v@.take(i as int).push(v@[i as int]));
        }
        insert_in_order(&mut out, v[i]);
        i = i + 1;
    }
    proof {
        assert(v@.take(v@.len() as int) =~= v@);
        lemma_sorted_items_of_ordered(out@);
        lemma_sorted_items_eq(out@, v@);
    }
    *v = out;
}


/// A copy of the items of `v`.
pub fn copy_items(v: &Vec<Item>) -> (r: Vec<Item>)
    ensures
        r@ == v@,
{
    let mut r: Vec<Item> = Vec::new();
    let mut i: usize = 0;
    while i < v.len()
        invariant
            i <= v@.len(),
            r@ == v@.take(i as int),
        decreases v@.len() - i,
    {
        r.push(v[i]);
        i = i + 1;
    }
    assert(v@.take(v@.len() as int) =~= v@);
    r
}

/// A copy of the attributes of `v`.
pub fn copy_attributes(v: &Vec<Attribute>) -> (r: Vec<Attribute>)
    ensures
        r@ == v@,
{
    let mut r: Vec<Attribute> = Vec::new();
    let mut i: usize = 0;
    while i < v.len()
        invariant
            i <= v@.len(),
            r@ == v@.take(i as int),
        decreases v@.len() - i,
    {
        r.push(v[i]);
        i = i + 1;
    }
    assert(v@.take(v@.len() as int) =~= v@);
    r
}

} // verus!
