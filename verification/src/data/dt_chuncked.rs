//! The dataset held as chunks of 64 bits: for each attribute and each class,
//! a vector of 64-bit bit vectors; transaction `t` is bit `t % 64` of chunk
//! `t / 64`.
use vstd::prelude::*;
use bit_vec::BitVec;
use crate::bitvec_ops::{bitvec_bits, bv_from_elem, bv_set};
use crate::data::dt_longed::{chunk_count, lemma_chunk_count_bounds};
use crate::data::lines::{
    attr_one, attribute_count, class_bound, classes_in_order, count_classes, is_one_at,
    lemma_classes_in_order_len, line_bytes, line_class, line_tokens, lines_well_formed_in_order,
    parse_usize, parses_as_usize, sub_bytes, token_ranges, tokens, usize_value,
};

verus! {

pub struct DataChunked {
    pub filename: String,
    pub ntransactions: usize,
    pub nattributes: usize,
    pub nclasses: usize,
    pub data: Vec<Vec<BitVec>>,
    pub target: Vec<Vec<BitVec>>,
}

/// Whether transaction `t` is one of `n` and its line gives attribute `a`
/// the value true.
pub open spec fn attr_at(lines: Seq<String>, a: int, t: int) -> bool {
    t < lines.len() && attr_one(lines, a, t)
}

/// Whether the class of the `t`-th line holding a token is `k`.
pub open spec fn class_at(cls: Seq<usize>, k: int, t: int) -> bool {
    t < cls.len() && cls[t] == k
}

impl DataChunked {
    /// The dataset read from `lines`, named `filename`.
    pub open spec fn represents(self, lines: Seq<String>, filename: Seq<char>) -> bool {
        let n = lines.len();
        let nc = chunk_count(n);
        let cls = classes_in_order(lines);
        &&& self.filename@ == filename
        &&& self.ntransactions == n
        &&& self.nattributes == attribute_count(lines)
        &&& self.nclasses == class_bound(lines, true)
        &&& self.data@.len() == self.nattributes
        &&& self.target@.len() == self.nclasses
        &&& forall|a: int| 0 <= a < self.nattributes ==> (#[trigger] self.data@[a])@.len() == nc
        &&& forall|k: int| 0 <= k < self.nclasses ==> (#[trigger] self.target@[k])@.len() == nc
        &&& forall|a: int, c: int|
            0 <= a < self.nattributes && 0 <= c < nc ==> bitvec_bits(#[trigger] self.data@[a]@[c])
                == Seq::new(64, |b: int| attr_at(lines, a, c * 64 + b))
        &&& forall|k: int, c: int|
            0 <= k < self.nclasses && 0 <= c < nc ==> bitvec_bits(
                #[trigger] self.target@[k]@[c],
            ) == Seq::new(64, |b: int| class_at(cls, k, c * 64 + b))
    }

    /// Reads the dataset from its lines (the class first on each line, then
    /// the attributes).
    pub fn data_chunked(data: Vec<String>, filename: String) -> (r: Result<
        DataChunked,
        std::io::Error,
    >)
        requires
            lines_well_formed_in_order(data@, true),
        ensures
            r matches Ok(d) && d.represents(data@, filename@),
    {
        let ghost lines = data@;
        let nattributes = token_ranges(data[0].as_str().as_bytes()).len() - 1;
        let ntransactions = data.len();
        let mut nchunks: usize = 1;
        if ntransactions > 64 {
            nchunks =
            if ntransactions % 64 == 0 {
                ntransactions / 64
            } else {
                (ntransactions / 64) + 1
            };
        }
        let ghost nc = nchunks as nat;
        proof {
            lemma_chunk_count_bounds(ntransactions as nat);
        }
        let mut inputs = chunk_rows(nattributes, nchunks);
        let mut target: Vec<usize> = Vec::new();
        let mut i: usize = 0;
        assert(lines.take(0) =~= Seq::<String>::empty());
        while i < ntransactions
            invariant
                lines == data@,
                lines_well_formed_in_order(lines, true),
                ntransactions == lines.len(),
                nattributes == attribute_count(lines),
                nchunks == nc,
                nc == chunk_count(ntransactions as nat),
                ntransactions <= nc * 64,
                i <= ntransactions,
                inputs@.len() == nattributes,
                forall|a: int| 0 <= a < nattributes ==> (#[trigger] inputs@[a])@.len() == nc,
                forall|a: int, c: int|
                    0 <= a < nattributes && 0 <= c < nc ==> bitvec_bits(#[trigger] inputs@[a]@[c])
                        == Seq::new(
                        64,
                        |b: int| c * 64 + b < i && attr_at(lines, a, c * 64 + b),
                    ),
                target@ == classes_in_order(lines.take(i as int)),
            decreases ntransactions - i,
        {
            let line = data[i].as_str().as_bytes();
            let ranges = token_ranges(line);
            let ghost toks = line_tokens(lines[i as int]);
            assert(toks.len() <= line_tokens(lines[0]).len());
            let ghost before = target@;
            let chunk = i / 64;
            let bit = i % 64;
            assert(chunk < nc) by {
                assert(i < nc * 64);
            }
            let mut j: usize = 0;
            while j < ranges.len()
                invariant
                    lines == data@,
                    line@ == line_bytes(lines[i as int]),
                    toks == line_tokens(lines[i as int]),
                    toks == tokens(line@),
                    ranges@.len() == toks.len(),
                    forall|k: int|
                        0 <= k < ranges@.len() ==> {
                            &&& (#[trigger] ranges@[k]).0 < ranges@[k].1 <= line@.len()
                            &&& line@.subrange(ranges@[k].0 as int, ranges@[k].1 as int) == toks[k]
                        },
                    toks.len() <= nattributes + 1,
                    toks.len() > 0 ==> parses_as_usize(toks[0]),
                    j <= ranges@.len(),
                    ntransactions == lines.len(),
                    i < ntransactions,
                    chunk == i / 64,
                    bit == i % 64,
                    chunk < nc,
                    inputs@.len() == nattributes,
                    forall|a: int| 0 <= a < nattributes ==> (#[trigger] inputs@[a])@.len() == nc,
                    forall|a: int, c: int|
                        0 <= a < nattributes && 0 <= c < nc ==> bitvec_bits(
                            #[trigger] inputs@[a]@[c],
                        ) == Seq::new(
                            64,
                            |b: int| (c * 64 + b < i && attr_at(lines, a, c * 64 + b)) || (c * 64
                                + b == i && a + 1 < j && attr_at(lines, a, c * 64 + b)),
                        ),
                    j == 0 ==> target@ == before,
                    j > 0 ==> target@ == before.push(usize_value(toks[0]) as usize),
                decreases ranges@.len() - j,
            {
                let (st, en) = ranges[j];
                if j == 0 {
                    let tok = sub_bytes(line, st, en);
                    let class = parse_usize(tok.as_slice()).unwrap();
                    target.push(class);
                } else {
                    let one = is_one_at(line, st, en);
                    let a = j - 1;
                    let ghost old_inputs = inputs@;
                    assert(toks[j as int] == line@.subrange(st as int, en as int));
                    bv_set(&mut inputs[a][chunk], bit, one);
                    proof {
                        assert forall|a2: int, c: int| 0 <= a2 < nattributes && 0 <= c < nc implies bitvec_bits(
                            #[trigger] inputs@[a2]@[c],
                        ) == Seq::new(
                            64,
                            |b: int| (c * 64 + b < i && attr_at(lines, a2, c * 64 + b)) || (c * 64
                                + b == i && a2 + 1 < j + 1 && attr_at(lines, a2, c * 64 + b)),
                        ) by {
                            if a2 != a || c != chunk {
                                assert(inputs@[a2]@[c] == old_inputs[a2]@[c]);
                            }
                            assert forall|b: int| 0 <= b < 64 && #[trigger] (c * 64 + b) == i implies c
                                == chunk && b == bit by {
                                assert(i == chunk * 64 + bit);
                                lemma_chunk_position(c, b, chunk as int, bit as int);
                            }
                            assert(bitvec_bits(inputs@[a2]@[c]) =~= Seq::new(
                                64,
                                |b: int| (c * 64 + b < i && attr_at(lines, a2, c * 64 + b)) || (c
                                    * 64 + b == i && a2 + 1 < j + 1 && attr_at(
                                    lines,
                                    a2,
                                    c * 64 + b,
                                )),
                            ));
                        }
                    }
                }
                j = j + 1;
            }
            proof {
                let sub = lines.take(i as int + 1);
                assert(sub.drop_last() =~= lines.take(i as int));
                assert(sub.last() == lines[i as int]);
                if toks.len() > 0 {
                    assert(line_class(lines[i as int]) == Some(usize_value(toks[0]) as usize));
                }
                assert forall|a: int, c: int| 0 <= a < nattributes && 0 <= c < nc implies bitvec_bits(
                    #[trigger] inputs@[a]@[c],
                ) == Seq::new(64, |b: int| c * 64 + b < i + 1 && attr_at(lines, a, c * 64 + b)) by {
                    assert(bitvec_bits(inputs@[a]@[c]) =~= Seq::new(
                        64,
                        |b: int| c * 64 + b < i + 1 && attr_at(lines, a, c * 64 + b),
                    ));
                }
            }
            i = i + 1;
        }
        assert(lines.take(ntransactions as int) =~= lines);
        proof {
            lemma_classes_in_order_len(lines);
            assert forall|a: int, c: int| 0 <= a < nattributes && 0 <= c < nc implies bitvec_bits(
                #[trigger] inputs@[a]@[c],
            ) == Seq::new(64, |b: int| attr_at(lines, a, c * 64 + b)) by {
                assert(bitvec_bits(inputs@[a]@[c]) =~= Seq::new(
                    64,
                    |b: int| attr_at(lines, a, c * 64 + b),
                ));
            }
        }
        let nclasses = count_classes(&target);
        let mut targets_bv = chunk_rows(nclasses, nchunks);
        let mut idx: usize = 0;
        let ghost cls = target@;
        while idx < target.len()
            invariant
                cls == target@,
                cls == classes_in_order(lines),
                lines_well_formed_in_order(lines, true),
                nclasses == class_bound(lines, true),
                cls.len() <= ntransactions,
                ntransactions <= nc * 64,
                nchunks == nc,
                idx <= cls.len(),
                targets_bv@.len() == nclasses,
                forall|k: int| 0 <= k < nclasses ==> (#[trigger] targets_bv@[k])@.len() == nc,
                forall|k: int, c: int|
                    0 <= k < nclasses && 0 <= c < nc ==> bitvec_bits(#[trigger] targets_bv@[k]@[c])
                        == Seq::new(64, |b: int| c * 64 + b < idx && class_at(cls, k, c * 64 + b)),
            decreases cls.len() - idx,
        {
            let class = target[idx];
            assert(class < nclasses);
            let chunk = idx / 64;
            let bit = idx % 64;
            let ghost old_bv = targets_bv@;
            bv_set(&mut targets_bv[class][chunk], bit, true);
            proof {
                assert forall|k: int, c: int| 0 <= k < nclasses && 0 <= c < nc implies bitvec_bits(
                    #[trigger] targets_bv@[k]@[c],
                ) == Seq::new(64, |b: int| c * 64 + b < idx + 1 && class_at(cls, k, c * 64 + b)) by {
                    if k != class || c != chunk {
                        assert(targets_bv@[k]@[c] == old_bv[k]@[c]);
                    }
                    assert forall|b: int| 0 <= b < 64 && #[trigger] (c * 64 + b) == idx implies c
                        == chunk && b == bit by {
                        lemma_chunk_position(c, b, chunk as int, bit as int);
                    }
                    assert(bitvec_bits(targets_bv@[k]@[c]) =~= Seq::new(
                        64,
                        |b: int| c * 64 + b < idx + 1 && class_at(cls, k, c * 64 + b),
                    ));
                }
            }
            idx = idx + 1;
        }
        proof {
            assert forall|k: int, c: int| 0 <= k < nclasses && 0 <= c < nc implies bitvec_bits(
                #[trigger] targets_bv@[k]@[c],
            ) == Seq::new(64, |b: int| class_at(cls, k, c * 64 + b)) by {
                assert(bitvec_bits(targets_bv@[k]@[c]) =~= Seq::new(
                    64,
                    |b: int| class_at(cls, k, c * 64 + b),
                ));
            }
        }
        Ok(
            DataChunked {
                filename,
                ntransactions,
                nattributes,
                nclasses,
                data: inputs,
                target: targets_bv,
            },
        )
    }
}

proof fn lemma_chunk_position(c: int, b: int, c2: int, b2: int)
    requires
        0 <= b < 64,
        0 <= b2 < 64,
        c * 64 + b == c2 * 64 + b2,
    ensures
        c == c2,
        b == b2,
{
    if c < c2 {
        assert(c * 64 + 64 <= c2 * 64) by (nonlinear_arith)
            requires
                c < c2,
        ;
    } else if c2 < c {
        assert(c2 * 64 + 64 <= c * 64) by (nonlinear_arith)
            requires
                c2 < c,
        ;
    }
}

/// `rows` rows of `nchunks` bit vectors of 64 clear bits.
fn chunk_rows(rows: usize, nchunks: usize) -> (r: Vec<Vec<BitVec>>)
    ensures
        r@.len() == rows,
        forall|a: int| 0 <= a < rows ==> (#[trigger] r@[a])@.len() == nchunks,
        forall|a: int, c: int|
            0 <= a < rows && 0 <= c < nchunks ==> bitvec_bits(#[trigger] r@[a]@[c]) == Seq::new(
                64,
                |b: int| false,
            ),
{
    let mut r: Vec<Vec<BitVec>> = Vec::new();
    let mut i: usize = 0;
    while i < rows
        invariant
            i <= rows,
            r@.len() == i,
            forall|a: int| 0 <= a < i ==> (#[trigger] r@[a])@.len() == nchunks,
            forall|a: int, c: int|
                0 <= a < i && 0 <= c < nchunks ==> bitvec_bits(#[trigger] r@[a]@[c]) == Seq::new(
                    64,
                    |b: int| false,
                ),
        decreases rows - i,
    {
        let mut row: Vec<BitVec> = Vec::new();
        let mut j: usize = 0;
        while j < nchunks
            invariant
                j <= nchunks,
                row@.len() == j,
                forall|c: int| 0 <= c < j ==> bitvec_bits(#[trigger] row@[c]) == Seq::new(
                    64,
                    |b: int| false,
                ),
            decreases nchunks - j,
        {
            row.push(bv_from_elem(64, false));
            j = j + 1;
        }
        r.push(row);
        i = i + 1;
    }
    r
}

} // verus!
