//! The dataset held as one bit vector per attribute and per class, a bit per
//! transaction, in the order of the lines.
use vstd::prelude::*;
use bit_vec::BitVec;
use crate::bitvec_ops::{bitvec_bits, bv_from_elem, bv_set};
use crate::data::lines::{
    attr_one, attribute_count, class_bound, classes_in_order, distinct_count, is_one_at,
    lemma_classes_in_order_len, line_bytes, line_class, line_tokens, lines_well_formed_in_order,
    parse_usize, sub_bytes, token_ranges, tokens,
};

verus! {

pub struct Data {
    pub filename: String,
    pub ntransactions: usize,
    pub nattributes: usize,
    pub nclasses: usize,
    pub data: Vec<BitVec>,
    pub target: Vec<BitVec>,
}

impl Data {
    /// The dataset read from `lines`, named `filename`: the bit of a
    /// transaction is set in the vector of an attribute where its line gives
    /// the attribute the value true, and in the vector of its class.
    pub open spec fn represents(self, lines: Seq<String>, filename: Seq<char>) -> bool {
        let n = lines.len();
        let cls = classes_in_order(lines);
        &&& self.filename@ == filename
        &&& self.ntransactions == n
        &&& self.nattributes == attribute_count(lines)
        &&& self.nclasses == class_bound(lines, false)
        &&& self.data@.len() == self.nattributes
        &&& self.target@.len() == self.nclasses
        &&& forall|a: int|
            0 <= a < self.nattributes ==> bitvec_bits(#[trigger] self.data@[a]) == Seq::new(
                n,
                |t: int| attr_one(lines, a, t),
            )
        &&& forall|k: int|
            0 <= k < self.nclasses ==> bitvec_bits(#[trigger] self.target@[k]) == Seq::new(
                n,
                |t: int| t < cls.len() && cls[t] == k,
            )
    }

    /// The shape the itemset operator relies on: a vector of
    /// `ntransactions` bits per attribute and per class, at least one
    /// attribute and one class, and counts that fit in a `usize`.
    pub open spec fn wf(self) -> bool {
        &&& self.data@.len() == self.nattributes
        &&& self.target@.len() == self.nclasses
        &&& self.nattributes >= 1
        &&& self.nclasses >= 1
        &&& self.nclasses * self.ntransactions <= usize::MAX
        &&& forall|a: int|
            0 <= a < self.nattributes ==> bitvec_bits(#[trigger] self.data@[a]).len()
                == self.ntransactions
        &&& forall|k: int|
            0 <= k < self.nclasses ==> bitvec_bits(#[trigger] self.target@[k]).len()
                == self.ntransactions
    }

    /// Reads the dataset from its lines (the class first on each line, then
    /// the attributes).
    pub fn data_as_it(data: Vec<String>, filename: String) -> (r: Result<Data, std::io::Error>)
        requires
            lines_well_formed_in_order(data@, false),
        ensures
            r matches Ok(d) && d.represents(data@, filename@),
    {
        let ghost lines = data@;
        let nattributes = token_ranges(data[0].as_str().as_bytes()).len() - 1;
        let ntransactions = data.len();
        let mut inputs = false_rows(nattributes, ntransactions);
        let mut target: Vec<usize> = Vec::new();
        let mut i: usize = 0;
        assert(lines.take(0) =~= Seq::<String>::empty());
        while i < ntransactions
            invariant
                lines == data@,
                lines_well_formed_in_order(lines, false),
                ntransactions == lines.len(),
                nattributes == attribute_count(lines),
                i <= ntransactions,
                inputs@.len() == nattributes,
                forall|a: int|
                    0 <= a < nattributes ==> bitvec_bits(#[trigger] inputs@[a]) == Seq::new(
                        ntransactions as nat,
                        |t: int| t < i && attr_one(lines, a, t),
                    ),
                target@ == classes_in_order(lines.take(i as int)),
            decreases ntransactions - i,
        {
            let line = data[i].as_str().as_bytes();
            let ranges = token_ranges(line);
            let ghost toks = line_tokens(lines[i as int]);
            assert(toks.len() <= line_tokens(lines[0]).len());
            let ghost before = target@;
            let mut j: usize = 0;
            while j < ranges.len()
                invariant
                    lines == data@,
                    line@ == line_bytes(lines[i as int]),
                    toks == line_tokens(lines[i as int]),
                    toks == tokens(line@),
                    ranges@.len() == toks.len(),
                    forall|k: int|
                        0 <= k < ranges@.len() ==> {
                            &&& (#[trigger] ranges@[k]).0 < ranges@[k].1 <= line@.len()
                            &&& line@.subrange(ranges@[k].0 as int, ranges@[k].1 as int) == toks[k]
                        },
                    toks.len() <= nattributes + 1,
                    toks.len() > 0 ==> crate::data::lines::parses_as_usize(toks[0]),
                    j <= ranges@.len(),
                    ntransactions == lines.len(),
                    i < ntransactions,
                    inputs@.len() == nattributes,
                    forall|a: int|
                        0 <= a < nattributes ==> bitvec_bits(#[trigger] inputs@[a]) == Seq::new(
                            ntransactions as nat,
                            |t: int| (t < i && attr_one(lines, a, t)) || (t == i && a + 1 < j
                                && attr_one(lines, a, t)),
                        ),
                    j == 0 ==> target@ == before,
                    j > 0 ==> target@ == before.push(
                        crate::data::lines::usize_value(toks[0]) as usize,
                    ),
                decreases ranges@.len() - j,
            {
                let (st, en) = ranges[j];
                if j == 0 {
                    let tok = sub_bytes(line, st, en);
                    let class = parse_usize(tok.as_slice()).unwrap();
                    target.push(class);
                } else {
                    let one = is_one_at(line, st, en);
                    let a = j - 1;
                    let ghost old_inputs = inputs@;
                    assert(toks[j as int] == line@.subrange(st as int, en as int));
                    bv_set(&mut inputs[a], i, one);
                    proof {
                        assert forall|a2: int| 0 <= a2 < nattributes implies bitvec_bits(
                            #[trigger] inputs@[a2],
                        ) == Seq::new(
                            ntransactions as nat,
                            |t: int| (t < i && attr_one(lines, a2, t)) || (t == i && a2 + 1 < j + 1
                                && attr_one(lines, a2, t)),
                        ) by {
                            if a2 != a {
                                assert(inputs@[a2] == old_inputs[a2]);
                            }
                        }
                    }
                }
                j = j + 1;
            }
            proof {
                let sub = lines.take(i as int + 1);
                assert(sub.drop_last() =~= lines.take(i as int));
                assert(sub.last() == lines[i as int]);
                if toks.len() > 0 {
                    assert(line_class(lines[i as int]) == Some(
                        crate::data::lines::usize_value(toks[0]) as usize,
                    ));
                }
                assert forall|a: int| 0 <= a < nattributes implies bitvec_bits(#[trigger] inputs@[a])
                    == Seq::new(ntransactions as nat, |t: int| t < i + 1 && attr_one(lines, a, t)) by {
                    assert(bitvec_bits(inputs@[a]) =~= Seq::new(
                        ntransactions as nat,
                        |t: int| t < i + 1 && attr_one(lines, a, t),
                    ));
                }
            }
            i = i + 1;
        }
        assert(lines.take(ntransactions as int) =~= lines);
        proof {
            lemma_classes_in_order_len(lines);
        }
        let nclasses = distinct_count(&target);
        let targets_bv = class_rows(&target, nclasses, ntransactions);
        proof {
            assert forall|a: int| 0 <= a < nattributes implies bitvec_bits(#[trigger] inputs@[a])
                == Seq::new(ntransactions as nat, |t: int| attr_one(lines, a, t)) by {
                assert(bitvec_bits(inputs@[a]) =~= Seq::new(
                    ntransactions as nat,
                    |t: int| attr_one(lines, a, t),
                ));
            }
        }
        Ok(
            Data {
                filename,
                ntransactions,
                nattributes,
                nclasses,
                data: inputs,
                target: targets_bv,
            },
        )
    }
}

/// `rows` bit vectors of `n` clear bits.
pub(crate) fn false_rows(rows: usize, n: usize) -> (r: Vec<BitVec>)
    ensures
        r@.len() == rows,
        forall|a: int|
            0 <= a < rows ==> bitvec_bits(#[trigger] r@[a]) == Seq::new(n as nat, |t: int| false),
{
    let mut r: Vec<BitVec> = Vec::new();
    let mut i: usize = 0;
    while i < rows
        invariant
            i <= rows,
            r@.len() == i,
            forall|a: int|
                0 <= a < i ==> bitvec_bits(#[trigger] r@[a]) == Seq::new(n as nat, |t: int| false),
        decreases rows - i,
    {
        r.push(bv_from_elem(n, false));
        i = i + 1;
    }
    r
}

/// One bit vector per class, the bit of transaction `t` set in the vector of
/// `classes[t]`.
pub(crate) fn class_rows(classes: &Vec<usize>, nclasses: usize, n: usize) -> (r: Vec<BitVec>)
    requires
        classes@.len() <= n,
        forall|t: int| 0 <= t < classes@.len() ==> #[trigger] classes@[t] < nclasses,
    ensures
        r@.len() == nclasses,
        forall|k: int|
            0 <= k < nclasses ==> bitvec_bits(#[trigger] r@[k]) == Seq::new(
                n as nat,
                |t: int| t < classes@.len() && classes@[t] == k,
            ),
{
    let mut targets_bv = false_rows(nclasses, n);
    let mut idx: usize = 0;
    while idx < classes.len()
        invariant
            idx <= classes@.len(),
            classes@.len() <= n,
            forall|t: int| 0 <= t < classes@.len() ==> #[trigger] classes@[t] < nclasses,
            targets_bv@.len() == nclasses,
            forall|k: int|
                0 <= k < nclasses ==> bitvec_bits(#[trigger] targets_bv@[k]) == Seq::new(
                    n as nat,
                    |t: int| t < idx && classes@[t] == k,
                ),
        decreases classes@.len() - idx,
    {
        let class = classes[idx];
        let ghost old_bv = targets_bv@;
        bv_set(&mut targets_bv[class], idx, true);
        proof {
            assert forall|k: int| 0 <= k < nclasses implies bitvec_bits(#[trigger] targets_bv@[k])
                == Seq::new(n as nat, |t: int| t < idx + 1 && classes@[t] == k) by {
                if k != class {
                    assert(targets_bv@[k] == old_bv[k]);
                }
                assert(bitvec_bits(targets_bv@[k]) =~= Seq::new(
                    n as nat,
                    |t: int| t < idx + 1 && classes@[t] == k,
                ));
            }
        }
        idx = idx + 1;
    }
    proof {
        assert forall|k: int| 0 <= k < nclasses implies bitvec_bits(#[trigger] targets_bv@[k])
            == Seq::new(n as nat, |t: int| t < classes@.len() && classes@[t] == k) by {
            assert(bitvec_bits(targets_bv@[k]) =~= Seq::new(
                n as nat,
                |t: int| t < classes@.len() && classes@[t] == k,
            ));
        }
    }
    targets_bv
}

} // verus!
