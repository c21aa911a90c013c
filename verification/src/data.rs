//! The datasets read from text: one transaction per line, the class first,
//! then the value of each attribute.
pub mod dt;
pub mod dt_chuncked;
pub mod dt_longed;
pub mod lines;

use vstd::prelude::*;
use bit_vec::BitVec;
use crate::bitvec_ops::{bitvec_bits, bv_from_elem, bv_set};
use crate::bits::bit_set;
use crate::data::dt::class_rows;
use crate::data::dt_chuncked::DataChunked;
use crate::data::dt_longed::{chunk_count, lemma_chunk_count_bounds, DataLong};
use crate::data::lines::{
    attr_one, attribute_count, class_bound, classes_in_order, distinct_count, is_one_at,
    lemma_classes_in_order_len, line_bytes, line_class, line_tokens, lines_well_formed_in_order,
    parse_usize, parses_as_usize, sub_bytes, token_ranges, tokens, usize_value,
};

verus! {

/// The dataset held line by line: a bit vector of the attributes of each
/// transaction, and a bit vector of the transactions of each class.
pub struct Data {
    pub filename: String,
    pub ntransactions: usize,
    pub nattributes: usize,
    pub nclasses: usize,
    pub data: Vec<BitVec>,
    pub target: Vec<BitVec>,
}

impl Data {
    /// The dataset read from `lines`, named `filename`.
    pub open spec fn represents(self, lines: Seq<String>, filename: Seq<char>) -> bool {
        let n = lines.len();
        let cls = classes_in_order(lines);
        &&& self.filename@ == filename
        &&& self.ntransactions == n
        &&& self.nattributes == attribute_count(lines)
        &&& self.nclasses == class_bound(lines, false)
        &&& self.data@.len() == n
        &&& self.target@.len() == self.nclasses
        &&& forall|t: int|
            0 <= t < n ==> bitvec_bits(#[trigger] self.data@[t]) == Seq::new(
                self.nattributes as nat,
                |a: int| attr_one(lines, a, t),
            )
        &&& forall|k: int|
            0 <= k < self.nclasses ==> bitvec_bits(#[trigger] self.target@[k]) == Seq::new(
                n,
                |t: int| t < cls.len() && cls[t] == k,
            )
    }

    /// Reads the dataset from the lines of its file (the class first on each
    /// line, then the attributes).
    pub fn new(data_lines: Vec<String>, filename: String) -> (r: Result<Data, std::io::Error>)
        requires
            lines_well_formed_in_order(data_lines@, false),
        ensures
            r matches Ok(d) && d.represents(data_lines@, filename@),
    {
        let ghost lines = data_lines@;
        let nattributes = token_ranges(data_lines[0].as_str().as_bytes()).len() - 1;
        let mut rows: Vec<BitVec> = Vec::new();
        let mut target: Vec<usize> = Vec::new();
        let ntransactions = data_lines.len();
        let mut i: usize = 0;
        assert(lines.take(0) =~= Seq::<String>::empty());
        while i < ntransactions
            invariant
                lines == data_lines@,
                lines_well_formed_in_order(lines, false),
                ntransactions == lines.len(),
                nattributes == attribute_count(lines),
                i <= ntransactions,
                rows@.len() == i,
                forall|t: int|
                    0 <= t < i ==> bitvec_bits(#[trigger] rows@[t]) == Seq::new(
                        nattributes as nat,
                        |a: int| attr_one(lines, a, t),
                    ),
                target@ == classes_in_order(lines.take(i as int)),
            decreases ntransactions - i,
        {
            let line = data_lines[i].as_str().as_bytes();
            let ranges = token_ranges(line);
            let ghost toks = line_tokens(lines[i as int]);
            assert(toks.len() <= line_tokens(lines[0]).len());
            let ghost before = target@;
            let mut bv = bv_from_elem(nattributes, false);
            let mut j: usize = 0;
            while j < ranges.len()
                invariant
                    line@ == line_bytes(lines[i as int]),
                    toks == line_tokens(lines[i as int]),
                    toks == tokens(line@),
                    ranges@.len() == toks.len(),
                    forall|k: int|
                        0 <= k < ranges@.len() ==> {
                            &&& (#[trigger] ranges@[k]).0 < ranges@[k].1 <= line@.len()
                            &&& line@.subrange(ranges@[k].0 as int, ranges@[k].1 as int) == toks[k]
                        },
                    toks.len() <= nattributes + 1,
                    toks.len() > 0 ==> parses_as_usize(toks[0]),
                    j <= ranges@.len(),
                    bitvec_bits(bv) == Seq::new(
                        nattributes as nat,
                        |a: int| a + 1 < j && attr_one(lines, a, i as int),
                    ),
                    j == 0 ==> target@ == before,
                    j > 0 ==> target@ == before.push(usize_value(toks[0]) as usize),
                decreases ranges@.len() - j,
            {
                let (st, en) = ranges[j];
                if j == 0 {
                    let tok = sub_bytes(line, st, en);
                    let class = parse_usize(tok.as_slice()).unwrap();
                    target.push(class);
                } else {
                    let one = is_one_at(line, st, en);
                    assert(toks[j as int] == line@.subrange(st as int, en as int));
                    bv_set(&mut bv, j - 1, one);
                    assert(bitvec_bits(bv) =~= Seq::new(
                        nattributes as nat,
                        |a: int| a + 1 < j + 1 && attr_one(lines, a, i as int),
                    ));
                }
                j = j + 1;
            }
            proof {
                let sub = lines.take(i as int + 1);
                assert(sub.drop_last() =~= lines.take(i as int));
                assert(sub.last() == lines[i as int]);
                if toks.len() > 0 {
                    assert(line_class(lines[i as int]) == Some(usize_value(toks[0]) as usize));
                }
                assert(bitvec_bits(bv) =~= Seq::new(
                    nattributes as nat,
                    |a: int| attr_one(lines, a, i as int),
                ));
            }
            rows.push(bv);
            i = i + 1;
        }
        assert(lines.take(ntransactions as int) =~= lines);
        proof {
            lemma_classes_in_order_len(lines);
        }
        let nclasses = distinct_count(&target);
        let targets_bv = class_rows(&target, nclasses, ntransactions);
        Ok(Data { filename, ntransactions, nattributes, nclasses, data: rows, target: targets_bv })
    }
}

/// The four readers of a dataset agree: read from the same lines, the
/// row-major, column-major, chunked and last-first chunked layouts hold the
/// same value of attribute `a` for transaction `t`. (The chunked layout
/// keeps transaction `t` at bit `t % 64` of chunk `t / 64`; the last-first
/// one keeps it at position `n - 1 - t` counted from the last chunk.)
pub proof fn readers_agree(
    lines: Seq<String>,
    filename: Seq<char>,
    rows: Data,
    columns: dt::Data,
    chunked: DataChunked,
    long: DataLong,
    a: int,
    t: int,
)
    requires
        rows.represents(lines, filename),
        columns.represents(lines, filename),
        chunked.represents(lines, filename),
        long.represents(lines, filename),
        0 <= a < attribute_count(lines),
        0 <= t < lines.len(),
    ensures
        bitvec_bits(rows.data@[t])[a] == attr_one(lines, a, t),
        bitvec_bits(columns.data@[a])[t] == attr_one(lines, a, t),
        bitvec_bits(chunked.data@[a]@[t / 64])[t % 64] == attr_one(lines, a, t),
        ({
            let n = lines.len();
            let s = n - 1 - t;
            bit_set(long.data@[a]@[chunk_count(n) - 1 - s / 64], (s % 64) as u64) == attr_one(
                lines,
                a,
                t,
            )
        }),
{
    let n = lines.len();
    let nc = chunk_count(n);
    lemma_chunk_count_bounds(n);
    assert(bitvec_bits(rows.data@[t]) == Seq::new(
        rows.nattributes as nat,
        |a2: int| attr_one(lines, a2, t),
    ));
    assert(bitvec_bits(columns.data@[a]) == Seq::new(n, |t2: int| attr_one(lines, a, t2)));
    let c = t / 64;
    let b = t % 64;
    assert(c < nc) by {
        assert(t < nc * 64);
        assert(c * 64 <= t) by (nonlinear_arith)
            requires
                c == t / 64,
                t >= 0,
        ;
        assert(c < nc) by (nonlinear_arith)
            requires
                c * 64 <= t,
                t < nc * 64,
        ;
    }
    assert(c * 64 + b == t);
    assert(bitvec_bits(chunked.data@[a]@[c]) == Seq::new(
        64,
        |b2: int| dt_chuncked::attr_at(lines, a, c * 64 + b2),
    ));
    let s = n - 1 - t;
    let lc = nc - 1 - s / 64;
    let lb = s % 64;
    assert(0 <= lc < nc) by {
        assert(s < nc * 64);
        assert((s / 64) * 64 <= s) by (nonlinear_arith)
            requires
                s >= 0,
        ;
        assert(s / 64 < nc) by (nonlinear_arith)
            requires
                (s / 64) * 64 <= s,
                s < nc * 64,
        ;
    }
    assert(dt_longed::slot(nc, lc, lb) == s);
    assert(bit_set(long.data@[a]@[lc], lb as u64) <==> (dt_longed::slot(nc, lc, lb) < n
        && attr_one(lines, a, n - 1 - dt_longed::slot(nc, lc, lb))));
}

} // verus!
