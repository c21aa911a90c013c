//! Ordering candidates by decreasing rank, equal ranks kept in their
//! order: the order of the search's candidates under information gain.
use vstd::prelude::*;
use crate::mining::Attribute;

verus! {

/// Where a candidate of rank `rank` goes among candidates ranked `ranks`
/// (in decreasing order), looking from position `p`: before the first one
/// of a smaller rank, else at the end.
pub open spec fn insert_pos(ranks: Seq<u64>, rank: u64, p: int) -> int
    decreases ranks.len() - p,
{
    if p < 0 || p >= ranks.len() {
        ranks.len() as int
    } else if ranks[p] < rank {
        p
    } else {
        insert_pos(ranks, rank, p + 1)
    }
}

/// The candidates `cands` of ranks `ranks` in decreasing order of rank,
/// equal ranks in the order of `cands`, each with its rank.
pub open spec fn ranked(cands: Seq<Attribute>, ranks: Seq<u64>) -> (Seq<Attribute>, Seq<u64>)
    decreases cands.len(),
{
    if cands.len() == 0 {
        (Seq::empty(), Seq::empty())
    } else {
        let k = cands.len() - 1;
        let prev = ranked(cands.drop_last(), ranks.take(k));
        let p = insert_pos(prev.1, ranks[k], 0);
        (prev.0.insert(p, cands[k]), prev.1.insert(p, ranks[k]))
    }
}


/// `out` lists the candidates `cands` as `perm` picks them (each position
/// once), in non-increasing order of their ranks `ranks`, candidates of
/// equal rank in the order they came in.
pub open spec fn orders_by_rank(cands: Seq<Attribute>, ranks: Seq<u64>, out: Seq<Attribute>, perm: Seq<int>) -> bool {
    &&& perm.len() == cands.len()
    &&& out.len() == cands.len()
    &&& forall|i: int| 0 <= i < perm.len() ==> 0 <= #[trigger] perm[i] < cands.len() && out[i] == cands[perm[i]]
    &&& forall|i: int, j: int| 0 <= i < j < perm.len() ==> #[trigger] perm[i] != #[trigger] perm[j]
    &&& forall|i: int, j: int|
        0 <= i < j < perm.len() ==> ranks[#[trigger] perm[i]] >= ranks[#[trigger] perm[j]]
    &&& forall|i: int, j: int|
        0 <= i < j < perm.len() && ranks[#[trigger] perm[i]] == ranks[#[trigger] perm[j]] ==> perm[i] < perm[j]
}

/// Where `insert_pos` puts a rank among ranks in non-increasing order:
/// after every rank no smaller, before every smaller one.
proof fn lemma_insert_pos(s: Seq<u64>, x: u64, p0: int)
    requires
        0 <= p0 <= s.len(),
        forall|a: int, b: int| 0 <= a < b < s.len() ==> s[a] >= s[b],
    ensures
        p0 <= insert_pos(s, x, p0) <= s.len(),
        forall|t: int| p0 <= t < insert_pos(s, x, p0) ==> s[t] >= x,
        forall|t: int| insert_pos(s, x, p0) <= t < s.len() ==> s[t] < x,
    decreases s.len() - p0,
{
    if p0 < s.len() && s[p0] >= x {
        lemma_insert_pos(s, x, p0 + 1);
    }
}

/// The positions of `ranked`, and its ranks: `ranked` orders the candidates
/// as a stable sort by decreasing rank, each with its own rank.
proof fn lemma_ranked_perm(cands: Seq<Attribute>, ranks: Seq<u64>) -> (perm: Seq<int>)
    requires
        ranks.len() == cands.len(),
    ensures
        orders_by_rank(cands, ranks, ranked(cands, ranks).0, perm),
        ranked(cands, ranks).1.len() == cands.len(),
        forall|i: int| 0 <= i < cands.len() ==> #[trigger] ranked(cands, ranks).1[i] == ranks[perm[i]],
    decreases cands.len(),
{
    if cands.len() == 0 {
        Seq::empty()
    } else {
        let n = cands.len() as int;
        let k = n - 1;
        let c1 = cands.drop_last();
        let r1 = ranks.take(k);
        let pp = lemma_ranked_perm(c1, r1);
        let prev = ranked(c1, r1);
        let x = ranks[k];
        assert forall|a: int, b: int| 0 <= a < b < prev.1.len() implies prev.1[a] >= prev.1[b] by {
            assert(prev.1[a] == r1[pp[a]]);
            assert(prev.1[b] == r1[pp[b]]);
        }
        lemma_insert_pos(prev.1, x, 0);
        let p = insert_pos(prev.1, x, 0);
        let perm = pp.insert(p, k);
        let out = prev.0.insert(p, cands[k]);
        let outr = prev.1.insert(p, x);
        assert(ranked(cands, ranks) == (out, outr));
        assert forall|i: int| 0 <= i < n implies #[trigger] outr[i] == ranks[perm[i]] && 0 <= perm[i] < n
            && out[i] == cands[perm[i]] by {
            if i < p {
                assert(perm[i] == pp[i]);
                assert(outr[i] == prev.1[i]);
            } else if i > p {
                assert(perm[i] == pp[i - 1]);
                assert(outr[i] == prev.1[i - 1]);
            }
        }
        assert forall|i: int, j: int| 0 <= i < j < n implies #[trigger] perm[i] != #[trigger] perm[j] by {
            if i != p && j != p {
                let ii = if i < p { i } else { i - 1 };
                let jj = if j < p { j } else { j - 1 };
                assert(perm[i] == pp[ii]);
                assert(perm[j] == pp[jj]);
                assert(pp[ii] != pp[jj]);
            } else if i == p {
                assert(perm[j] == pp[j - 1]);
            } else {
                assert(perm[i] == pp[i]);
            }
        }
        assert forall|i: int, j: int| 0 <= i < j < n implies ranks[#[trigger] perm[i]] >= ranks[#[trigger] perm[j]]
            && (ranks[perm[i]] == ranks[perm[j]] ==> perm[i] < perm[j]) by {
            assert(outr[i] == ranks[perm[i]]);
            assert(outr[j] == ranks[perm[j]]);
            if i != p && j != p {
                let ii = if i < p { i } else { i - 1 };
                let jj = if j < p { j } else { j - 1 };
                assert(perm[i] == pp[ii]);
                assert(perm[j] == pp[jj]);
                assert(outr[i] == prev.1[ii]);
                assert(outr[j] == prev.1[jj]);
                assert(prev.1[ii] == r1[pp[ii]]);
                assert(prev.1[jj] == r1[pp[jj]]);
            } else if i == p {
                assert(outr[j] == prev.1[j - 1]);
            } else {
                assert(outr[i] == prev.1[i]);
                assert(perm[i] == pp[i]);
            }
        }
        perm
    }
}

/// Ranking orders the candidates by decreasing rank, equal ranks in their
/// order: the candidates ranked are those given, each once, each with the
/// rank it was given.
pub proof fn ranked_orders_by_rank(cands: Seq<Attribute>, ranks: Seq<u64>)
    requires
        ranks.len() == cands.len(),
    ensures
        exists|perm: Seq<int>|
            #[trigger] orders_by_rank(cands, ranks, ranked(cands, ranks).0, perm) && forall|i: int|
                0 <= i < cands.len() ==> #[trigger] ranked(cands, ranks).1[i] == ranks[perm[i]],
{
    let perm = lemma_ranked_perm(cands, ranks);
    assert(orders_by_rank(cands, ranks, ranked(cands, ranks).0, perm));
}

} // verus!
