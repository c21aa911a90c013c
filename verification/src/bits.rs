//! Bit-level facts about 64-bit words: population counts and single-bit
//! masks, as used by the chunked transaction bitsets.
use vstd::prelude::*;

verus! {

/// Number of bits set in `x`.
pub open spec fn popcount(x: u64) -> nat
    decreases x,
{
    if x == 0 {
        0
    } else {
        (x % 2) as nat + popcount(x / 2)
    }
}

/// Whether bit `b` of `x` is set.
pub open spec fn bit_set(x: u64, b: u64) -> bool {
    (x >> b) & 1u64 == 1u64
}

/// `u64::count_ones` counts the bits that are set.
pub assume_specification[ u64::count_ones ](x: u64) -> (r: u32)
    ensures
        r as nat == popcount(x),
;

pub proof fn lemma_popcount_bound(x: u64)
    ensures
        popcount(x) <= 64,
{
    lemma_popcount_below_pow(x, 64);
}

proof fn lemma_popcount_below_pow(x: u64, k: nat)
    requires
        k <= 64,
        k < 64 ==> x < pow2_u64(k),
    ensures
        popcount(x) <= k,
    decreases k,
{
    if x == 0 {
    } else if k == 0 {
        assert(false);
    } else {
        assert(x / 2 < pow2_u64((k - 1) as nat) || k - 1 == 64 || k == 64) by {
            if k < 64 {
                lemma_pow2_step((k - 1) as nat);
            }
        }
        if k == 64 {
            assert(x / 2 < 0x8000_0000_0000_0000u64) by (bit_vector);
            lemma_pow2_63();
        }
        lemma_popcount_below_pow(x / 2, (k - 1) as nat);
    }
}

pub open spec fn pow2_u64(k: nat) -> int
    decreases k,
{
    if k == 0 {
        1
    } else {
        2 * pow2_u64((k - 1) as nat)
    }
}

proof fn lemma_pow2_step(k: nat)
    ensures
        pow2_u64(k + 1) == 2 * pow2_u64(k),
{
}

proof fn lemma_pow2_63()
    ensures
        pow2_u64(63) == 0x8000_0000_0000_0000,
{
    reveal_with_fuel(pow2_u64, 64);
}


pub proof fn lemma_bit_set_or(x: u64, k: u64, b: u64)
    requires
        k < 64,
        b < 64,
    ensures
        bit_set(x | (1u64 << k), b) <==> (bit_set(x, b) || b == k),
{
    assert(((x | (1u64 << k)) >> b) & 1u64 == 1u64 <==> (((x >> b) & 1u64 == 1u64) || b == k))
        by (bit_vector)
        requires
            k < 64,
            b < 64,
    ;
}

pub proof fn lemma_bit_set_zero(b: u64)
    ensures
        !bit_set(0, b),
{
    assert((0u64 >> b) & 1u64 != 1u64) by (bit_vector);
}


pub proof fn lemma_popcount_unfold(z: u64)
    ensures
        popcount(z) == (z % 2) as nat + popcount(z / 2),
{
}

/// The bits of `x` split into those inside `y` and those outside it.
pub proof fn lemma_popcount_split(x: u64, y: u64)
    ensures
        popcount(x & y) + popcount(x & !y) == popcount(x),
    decreases x,
{
    if x == 0 {
        assert(0u64 & y == 0u64) by (bit_vector);
        assert(0u64 & !y == 0u64) by (bit_vector);
    } else {
        lemma_popcount_unfold(x & y);
        lemma_popcount_unfold(x & !y);
        assert((x & y) / 2 == (x / 2) & (y / 2)) by (bit_vector);
        assert((x & !y) / 2 == (x / 2) & !(y / 2)) by (bit_vector);
        assert((x & y) % 2 + (x & !y) % 2 == x % 2) by (bit_vector);
        lemma_popcount_split(x / 2, y / 2);
    }
}

pub proof fn lemma_bit_set_and(x: u64, y: u64, b: u64)
    requires
        b < 64,
    ensures
        bit_set(x & y, b) == (bit_set(x, b) && bit_set(y, b)),
        bit_set(x & !y, b) == (bit_set(x, b) && !bit_set(y, b)),
{
    assert((((x & y) >> b) & 1u64 == 1u64) == (((x >> b) & 1u64 == 1u64) && ((y >> b) & 1u64
        == 1u64))) by (bit_vector)
        requires
            b < 64,
    ;
    assert((((x & !y) >> b) & 1u64 == 1u64) == (((x >> b) & 1u64 == 1u64) && !((y >> b) & 1u64
        == 1u64))) by (bit_vector)
        requires
            b < 64,
    ;
}

proof fn lemma_low_step(x: u64, y: u64, k: u64)
    by (bit_vector)
    requires
        1 <= k < 64,
        x & !(0xffff_ffff_ffff_ffffu64 << ((k - 1) as u64)) == y & !(0xffff_ffff_ffff_ffffu64 << ((k
            - 1) as u64)),
        ((x >> ((k - 1) as u64)) & 1u64 == 1u64) == ((y >> ((k - 1) as u64)) & 1u64 == 1u64),
    ensures
        x & !(0xffff_ffff_ffff_ffffu64 << k) == y & !(0xffff_ffff_ffff_ffffu64 << k),
{
}

proof fn lemma_low_last(x: u64, y: u64)
    by (bit_vector)
    requires
        x & !(0xffff_ffff_ffff_ffffu64 << 63u64) == y & !(0xffff_ffff_ffff_ffffu64 << 63u64),
        ((x >> 63u64) & 1u64 == 1u64) == ((y >> 63u64) & 1u64 == 1u64),
    ensures
        x == y,
{
}

proof fn lemma_low_agree(x: u64, y: u64, k: u64)
    requires
        k < 64,
        forall|b: u64| b < k ==> #[trigger] bit_set(x, b) == bit_set(y, b),
    ensures
        x & !(0xffff_ffff_ffff_ffffu64 << k) == y & !(0xffff_ffff_ffff_ffffu64 << k),
    decreases k,
{
    if k == 0 {
        assert(x & !(0xffff_ffff_ffff_ffffu64 << 0u64) == 0u64 && y & !(0xffff_ffff_ffff_ffffu64
            << 0u64) == 0u64) by (bit_vector);
    } else {
        lemma_low_agree(x, y, (k - 1) as u64);
        assert(bit_set(x, (k - 1) as u64) == bit_set(y, (k - 1) as u64));
        lemma_low_step(x, y, k);
    }
}

/// Two words with the same bits are equal.
pub proof fn lemma_word_eq(x: u64, y: u64)
    requires
        forall|b: u64| b < 64 ==> #[trigger] bit_set(x, b) == bit_set(y, b),
    ensures
        x == y,
{
    lemma_low_agree(x, y, 63);
    assert(bit_set(x, 63) == bit_set(y, 63));
    lemma_low_last(x, y);
}

pub proof fn lemma_count_bits_zero(s: Seq<u64>)
    requires
        forall|i: int| 0 <= i < s.len() ==> #[trigger] s[i] == 0,
    ensures
        count_bits(s) == 0,
    decreases s.len(),
{
    if s.len() > 0 {
        lemma_count_bits_zero(s.drop_last());
    }
}

/// Restricting by two rows, in either order, gives the same words.
pub proof fn lemma_restrict_commute(m: Seq<u64>, row: Seq<u64>, tgt: Seq<u64>, keep: bool)
    ensures
        restrict(restrict(m, row, keep), tgt, true) == restrict(restrict(m, tgt, true), row, keep),
{
    assert forall|i: int| 0 <= i < m.len() implies #[trigger] restrict(restrict(m, row, keep), tgt, true)[i]
        == restrict(restrict(m, tgt, true), row, keep)[i] by {
        let (x, r, t) = (m[i], row[i], tgt[i]);
        assert((x & r) & t == (x & t) & r) by (bit_vector);
        assert((x & !r) & t == (x & t) & !r) by (bit_vector);
    }
    assert(restrict(restrict(m, row, keep), tgt, true) =~= restrict(restrict(m, tgt, true), row, keep));
}

/// Total number of bits set in the words of `s`.
pub open spec fn count_bits(s: Seq<u64>) -> nat
    decreases s.len(),
{
    if s.len() == 0 {
        0
    } else {
        count_bits(s.drop_last()) + popcount(s.last())
    }
}

/// The words of `m` restricted to the bits set (`keep`) or clear (`!keep`)
/// in the words of `row`.
pub open spec fn restrict(m: Seq<u64>, row: Seq<u64>, keep: bool) -> Seq<u64> {
    Seq::new(m.len(), |i: int| if keep { m[i] & row[i] } else { m[i] & !row[i] })
}

pub proof fn lemma_count_bits_split(m: Seq<u64>, row: Seq<u64>)
    requires
        row.len() >= m.len(),
    ensures
        count_bits(restrict(m, row, true)) + count_bits(restrict(m, row, false)) == count_bits(m),
    decreases m.len(),
{
    if m.len() > 0 {
        let k = (m.len() - 1) as int;
        assert(restrict(m, row, true).drop_last() =~= restrict(m.drop_last(), row, true));
        assert(restrict(m, row, false).drop_last() =~= restrict(m.drop_last(), row, false));
        lemma_count_bits_split(m.drop_last(), row);
        lemma_popcount_split(m[k], row[k]);
    }
}

pub proof fn lemma_count_bits_bound(s: Seq<u64>)
    ensures
        count_bits(s) <= 64 * s.len(),
    decreases s.len(),
{
    if s.len() > 0 {
        lemma_count_bits_bound(s.drop_last());
        lemma_popcount_bound(s.last());
    }
}

pub proof fn lemma_count_bits_restrict_le(m: Seq<u64>, row: Seq<u64>, keep: bool)
    requires
        row.len() >= m.len(),
    ensures
        count_bits(restrict(m, row, keep)) <= count_bits(m),
{
    lemma_count_bits_split(m, row);
}

/// The sum of the words' bit counts, as computed word by word.
pub fn count_in_words(arr: &Vec<u64>) -> (r: usize)
    requires
        64 * arr@.len() <= usize::MAX,
    ensures
        r == count_bits(arr@),
{
    let mut total: usize = 0;
    let mut i: usize = 0;
    while i < arr.len()
        invariant
            i <= arr@.len(),
            64 * arr@.len() <= usize::MAX,
            total == count_bits(arr@.take(i as int)),
            total <= 64 * i,
        decreases arr@.len() - i,
    {
        let c = arr[i].count_ones();
        proof {
            lemma_popcount_bound(arr@[i as int]);
            assert(arr@.take(i as int + 1).drop_last() =~= arr@.take(i as int));
        }
        total = total + c as usize;
        i = i + 1;
    }
    assert(arr@.take(arr@.len() as int) =~= arr@);
    total
}

/// A copy of the words of `v`.
pub fn copy_words(v: &Vec<u64>) -> (r: Vec<u64>)
    ensures
        r@ == v@,
{
    let mut r: Vec<u64> = Vec::new();
    let mut i: usize = 0;
    while i < v.len()
        invariant
            i <= v@.len(),
            r@ == v@.take(i as int),
        decreases v@.len() - i,
    {
        r.push(v[i]);
        i = i + 1;
    }
    assert(v@.take(v@.len() as int) =~= v@);
    r
}


/// The word whose `k` lowest bits are set.
pub open spec fn low_bits(k: nat) -> u64 {
    if k >= 64 {
        u64::MAX
    } else {
        ((1u64 << k) - 1) as u64
    }
}

pub proof fn lemma_low_bits_clear_top(i: u64)
    requires
        1 <= i <= 64,
    ensures
        low_bits(i as nat) & !(1u64 << ((i - 1) as u64)) == low_bits((i - 1) as nat),
{
    if i == 64 {
        assert(u64::MAX & !(1u64 << 63u64) == ((1u64 << 63u64) - 1) as u64) by (bit_vector);
    } else {
        assert(((1u64 << i) - 1) as u64 & !(1u64 << ((i - 1) as u64)) == ((1u64 << ((i - 1) as u64)) - 1) as u64)
            by (bit_vector)
            requires
                1 <= i < 64,
        ;
    }
}

/// The low `k` bits are set, the others clear.
pub proof fn lemma_bit_set_low_bits(k: nat, b: u64)
    requires
        k <= 64,
        b < 64,
    ensures
        bit_set(low_bits(k), b) == (b < k),
{
    if k < 64 {
        let kk = k as u64;
        assert((((((1u64 << kk) - 1) as u64) >> b) & 1u64 == 1u64) == (b < kk)) by (bit_vector)
            requires
                kk < 64,
                b < 64,
        ;
    } else {
        assert(((0xffff_ffff_ffff_ffffu64 >> b) & 1u64 == 1u64)) by (bit_vector)
            requires
                b < 64,
        ;
    }
}

pub proof fn lemma_popcount_low_bits(k: nat)
    requires
        k <= 64,
    ensures
        popcount(low_bits(k)) == k,
    decreases k,
{
    if k == 0 {
        assert(((1u64 << 0u64) - 1) as u64 == 0u64) by (bit_vector);
    } else {
        lemma_popcount_unfold(low_bits(k));
        let kk = k as u64;
        if k == 64 {
            assert(u64::MAX % 2 == 1u64 && u64::MAX / 2 == ((1u64 << 63u64) - 1) as u64) by (bit_vector);
        } else {
            assert(((1u64 << kk) - 1) as u64 % 2 == 1u64 && ((1u64 << kk) - 1) as u64 / 2 == ((1u64
                << ((kk - 1) as u64)) - 1) as u64) by (bit_vector)
                requires
                    1 <= kk < 64,
            ;
        }
        lemma_popcount_low_bits((k - 1) as nat);
    }
}

} // verus!
