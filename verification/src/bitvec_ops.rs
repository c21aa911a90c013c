//! The bit vectors of the `bit_vec` crate, as the library uses them: a
//! sequence of booleans.
use vstd::prelude::*;
use bit_vec::BitVec;

verus! {

#[verifier::external_type_specification]
#[verifier::external_body]
#[verifier::reject_recursive_types(B)]
pub struct ExBitVec<B>(BitVec<B>);

/// The bits that a bit vector holds, in order.
pub uninterp spec fn bitvec_bits(v: BitVec) -> Seq<bool>;

/// Number of bits set in `s`.
pub open spec fn count_true(s: Seq<bool>) -> nat
    decreases s.len(),
{
    if s.len() == 0 {
        0
    } else {
        count_true(s.drop_last()) + if s.last() {
            1nat
        } else {
            0nat
        }
    }
}

/// The bits of `a` that are also set in `b` (`keep`), or clear in `b`.
pub open spec fn and_bits(a: Seq<bool>, b: Seq<bool>, keep: bool) -> Seq<bool> {
    Seq::new(a.len(), |i: int| a[i] && (if keep { b[i] } else { !b[i] }))
}

/// `BitVec::from_elem`: `nbits` bits, each `bit`.
#[verifier::external_body]
pub(crate) fn bv_from_elem(nbits: usize, bit: bool) -> (r: BitVec)
    ensures
        bitvec_bits(r) == Seq::new(nbits as nat, |i: int| bit),
{
    BitVec::from_elem(nbits, bit)
}

/// `BitVec::set`: bit `i` becomes `x`; panics where `i` is out of bounds.
#[verifier::external_body]
pub(crate) fn bv_set(v: &mut BitVec, i: usize, x: bool)
    requires
        i < bitvec_bits(*old(v)).len(),
    ensures
        bitvec_bits(*final(v)) == bitvec_bits(*old(v)).update(i as int, x),
{
    v.set(i, x)
}

/// `BitVec::and`: keeps the bits also set in `other`, of the same length;
/// returns whether a bit changed.
#[verifier::external_body]
pub(crate) fn bv_and(v: &mut BitVec, other: &BitVec) -> (changed: bool)
    requires
        bitvec_bits(*old(v)).len() == bitvec_bits(*other).len(),
    ensures
        bitvec_bits(*final(v)) == and_bits(bitvec_bits(*old(v)), bitvec_bits(*other), true),
        changed == (bitvec_bits(*final(v)) != bitvec_bits(*old(v))),
{
    v.and(other)
}

/// `BitVec::negate`: flips every bit.
#[verifier::external_body]
pub(crate) fn bv_negate(v: &mut BitVec)
    ensures
        bitvec_bits(*final(v)) == Seq::new(
            bitvec_bits(*old(v)).len(),
            |i: int| !bitvec_bits(*old(v))[i],
        ),
{
    v.negate()
}

/// `BitVec::clone`: the same bits.
#[verifier::external_body]
pub(crate) fn bv_clone(v: &BitVec) -> (r: BitVec)
    ensures
        bitvec_bits(r) == bitvec_bits(*v),
{
    v.clone()
}

/// `BitVec::len`: the number of bits.
#[verifier::external_body]
pub(crate) fn bv_len(v: &BitVec) -> (r: usize)
    ensures
        r == bitvec_bits(*v).len(),
{
    v.len()
}

/// `BitVec::get`: bit `i`, or `None` past the last bit.
#[verifier::external_body]
pub(crate) fn bv_get(v: &BitVec, i: usize) -> (r: Option<bool>)
    ensures
        r == (if i < bitvec_bits(*v).len() {
            Some(bitvec_bits(*v)[i as int])
        } else {
            None
        }),
{
    v.get(i)
}

/// The number of bits set in `v`.
pub fn bits_set(v: &BitVec) -> (r: usize)
    ensures
        r == count_true(bitvec_bits(*v)),
{
    let n = bv_len(v);
    let ghost bits = bitvec_bits(*v);
    let mut count: usize = 0;
    let mut i: usize = 0;
    while i < n
        invariant
            n == bits.len(),
            bits == bitvec_bits(*v),
            i <= n,
            count == count_true(bits.take(i as int)),
            count <= i,
        decreases n - i,
    {
        proof {
            assert(bits.take(i as int + 1).drop_last() =~= bits.take(i as int));
        }
        if bv_get(v, i) == Some(true) {
            count = count + 1;
        }
        i = i + 1;
    }
    assert(bits.take(n as int) =~= bits);
    count
}

pub proof fn lemma_count_true_split(a: Seq<bool>, b: Seq<bool>)
    requires
        b.len() >= a.len(),
    ensures
        count_true(and_bits(a, b, true)) + count_true(and_bits(a, b, false)) == count_true(a),
    decreases a.len(),
{
    if a.len() > 0 {
        assert(and_bits(a, b, true).drop_last() =~= and_bits(a.drop_last(), b, true));
        assert(and_bits(a, b, false).drop_last() =~= and_bits(a.drop_last(), b, false));
        lemma_count_true_split(a.drop_last(), b);
    }
}

pub proof fn lemma_count_true_bound(a: Seq<bool>)
    ensures
        count_true(a) <= a.len(),
    decreases a.len(),
{
    if a.len() > 0 {
        lemma_count_true_bound(a.drop_last());
    }
}

pub proof fn lemma_count_true_none(s: Seq<bool>)
    requires
        forall|i: int| 0 <= i < s.len() ==> !#[trigger] s[i],
    ensures
        count_true(s) == 0,
    decreases s.len(),
{
    if s.len() > 0 {
        lemma_count_true_none(s.drop_last());
    }
}

pub proof fn lemma_count_true_all(n: nat)
    ensures
        count_true(Seq::new(n, |i: int| true)) == n,
    decreases n,
{
    if n > 0 {
        assert(Seq::new(n, |i: int| true).drop_last() =~= Seq::new((n - 1) as nat, |i: int| true));
        lemma_count_true_all((n - 1) as nat);
    }
}

} // verus!
