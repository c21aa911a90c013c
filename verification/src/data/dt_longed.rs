//! The dataset held as words of 64 transactions: for each attribute and each
//! class, a vector of `u64` chunks in which a bit stands for a transaction.
//! The lines are taken last first: the last line is bit 0 of the last chunk.
use vstd::prelude::*;
use crate::bits::{bit_set, lemma_bit_set_or, lemma_bit_set_zero};
use crate::data::lines::{
    attr_one, attribute_count, class_count, classes_last_first, is_one_at, is_one_token, line_bytes,
    line_tokens, lines_well_formed, parse_usize, parses_as_usize, sub_bytes, token_ranges, tokens,
    usize_value, count_classes,
};

verus! {

#[verifier::external_type_specification]
#[verifier::external_body]
pub struct ExIoError(std::io::Error);

pub struct DataLong {
    pub filename: String,
    pub ntransactions: usize,
    pub nattributes: usize,
    pub nclasses: usize,
    pub data: Vec<Vec<u64>>,
    pub target: Vec<Vec<u64>>,
}

/// Number of 64-bit chunks that hold `n` transactions (at least one).
pub open spec fn chunk_count(n: nat) -> nat {
    if n > 64 {
        if n % 64 == 0 {
            n / 64
        } else {
            n / 64 + 1
        }
    } else {
        1
    }
}

/// The position, counted from the last line, of the transaction held in bit
/// `b` of chunk `c`.
pub open spec fn slot(nchunks: nat, c: int, b: int) -> int {
    (nchunks - 1 - c) * 64 + b
}

impl DataLong {
    /// The chunked form of the dataset read from `lines`, named `filename`.
    pub open spec fn represents(self, lines: Seq<String>, filename: Seq<char>) -> bool {
        let n = lines.len();
        let nc = chunk_count(n);
        let cls = classes_last_first(lines);
        &&& self.filename@ == filename
        &&& self.ntransactions == n
        &&& self.nattributes == attribute_count(lines)
        &&& self.nclasses == class_count(lines)
        &&& self.data@.len() == self.nattributes
        &&& self.target@.len() == self.nclasses
        &&& forall|a: int| 0 <= a < self.nattributes ==> (#[trigger] self.data@[a])@.len() == nc
        &&& forall|k: int| 0 <= k < self.nclasses ==> (#[trigger] self.target@[k])@.len() == nc
        &&& forall|a: int, c: int, b: int|
            0 <= a < self.nattributes && 0 <= c < nc && 0 <= b < 64 ==> (#[trigger] bit_set(self.data@[a]@[c], b as u64) <==> (slot(nc, c, b) < n && attr_one(lines, a, n - 1 - slot(nc, c, b))))
        &&& forall|k: int, c: int, b: int|
            0 <= k < self.nclasses && 0 <= c < nc && 0 <= b < 64 ==> (#[trigger] bit_set(self.target@[k]@[c], b as u64) <==> (slot(nc, c, b) < cls.len() && cls[slot(nc, c, b)] == k))
    }

    /// The shape that the itemset operations rely on: one row of `nchunks`
    /// words per attribute and per class, at least one attribute and one
    /// class, and no more than `64 * nchunks` transactions.
    pub open spec fn wf(self) -> bool {
        let nc = chunk_count(self.ntransactions as nat);
        &&& self.data@.len() == self.nattributes
        &&& self.target@.len() == self.nclasses
        &&& self.nattributes >= 1
        &&& self.nclasses >= 1
        &&& self.ntransactions >= 1
        &&& nc * 64 <= usize::MAX
        &&& self.nclasses * (nc * 64) <= usize::MAX
        &&& forall|a: int| 0 <= a < self.nattributes ==> (#[trigger] self.data@[a])@.len() == nc
        &&& forall|k: int| 0 <= k < self.nclasses ==> (#[trigger] self.target@[k])@.len() == nc
    }

    /// Reads the dataset from its lines (the class first on each line, then
    /// the attributes).
    pub fn data_to_long(data: Vec<String>, filename: String) -> (r: Result<
        DataLong,
        std::io::Error,
    >)
        requires
            lines_well_formed(data@),
        ensures
            r matches Ok(d) && d.represents(data@, filename@),
    {
        let ghost lines = data@;
        let nattributes = token_ranges(data[0].as_str().as_bytes()).len() - 1;
        let ntransactions = data.len();
        let mut nchunks: usize = 1;
        if ntransactions > 64 {
            nchunks =
            if ntransactions % 64 == 0 {
                ntransactions / 64
            } else {
                (ntransactions / 64) + 1
            };
        }
        let ghost nc = nchunks as nat;
        assert(nc == chunk_count(ntransactions as nat));
        proof {
            lemma_chunk_count_bounds(ntransactions as nat);
        }
        let mut inputs = zero_rows(nattributes, nchunks);
        proof {
            assert forall|b: u64| !bit_set(0, b) by {
                lemma_bit_set_zero(b);
            }
        }
        let mut target: Vec<usize> = Vec::new();

        let mut actual_chunk: usize = nchunks - 1;
        let mut counter: usize = 0;
        let mut r: usize = 0;
        assert(lines.subrange(ntransactions as int, ntransactions as int) =~= Seq::<
            String,
        >::empty());
        while r < ntransactions
            invariant
                lines == data@,
                lines_well_formed(lines),
                ntransactions == lines.len(),
                nattributes == attribute_count(lines),
                nchunks == nc,
                nc == chunk_count(ntransactions as nat),
                ntransactions <= nc * 64,
                ntransactions > (nc - 1) * 64,
                r <= ntransactions,
                actual_chunk < nc,
                counter <= 64,
                r == slot(nc, actual_chunk as int, counter as int),
                r == 0 ==> counter == 0,
                r > 0 ==> counter >= 1,
                inputs@.len() == nattributes,
                forall|a: int| 0 <= a < nattributes ==> (#[trigger] inputs@[a])@.len() == nc,
                forall|a: int, c: int, b: int|
                    0 <= a < nattributes && 0 <= c < nc && 0 <= b < 64 ==> (#[trigger] bit_set(inputs@[a]@[c], b as u64) <==> (slot(nc, c, b) < r && attr_one(lines, a, ntransactions - 1 - slot(nc, c, b)))),
                target@ == classes_last_first(lines.subrange(ntransactions - r, ntransactions as int)),
            decreases ntransactions - r,
        {
            if counter == 64 {
                proof {
                    lemma_slot_next_chunk(nc, actual_chunk as int);
                }
                actual_chunk -= 1;
                counter = 0;
            }
            let t = ntransactions - 1 - r;
            let line = data[t].as_str().as_bytes();
            let ranges = token_ranges(line);
            let ghost toks = line_tokens(lines[t as int]);
            assert(toks.len() <= line_tokens(lines[0]).len());
            let mut j: usize = 0;
            let ghost before = target@;
            while j < ranges.len()
                invariant
                    lines == data@,
                    line@ == line_bytes(lines[t as int]),
                    toks == line_tokens(lines[t as int]),
                    toks == tokens(line@),
                    ranges@.len() == toks.len(),
                    forall|k: int|
                        0 <= k < ranges@.len() ==> {
                            &&& (#[trigger] ranges@[k]).0 < ranges@[k].1 <= line@.len()
                            &&& line@.subrange(ranges@[k].0 as int, ranges@[k].1 as int) == toks[k]
                        },
                    toks.len() <= nattributes + 1,
                    toks.len() > 0 ==> parses_as_usize(toks[0]),
                    j <= ranges@.len(),
                    ntransactions == lines.len(),
                    t == ntransactions - 1 - r,
                    r < ntransactions,
                    nchunks == nc,
                    actual_chunk < nc,
                    counter < 64,
                    r == slot(nc, actual_chunk as int, counter as int),
                    inputs@.len() == nattributes,
                    forall|a: int| 0 <= a < nattributes ==> (#[trigger] inputs@[a])@.len() == nc,
                    forall|a: int, c: int, b: int|
                        0 <= a < nattributes && 0 <= c < nc && 0 <= b < 64 ==> (#[trigger] bit_set(inputs@[a]@[c], b as u64) <==> ((slot(nc, c, b) < r && attr_one(
                            lines,
                            a,
                            ntransactions - 1 - slot(nc, c, b),
                        )) || (slot(nc, c, b) == r && a + 1 < j && attr_one(lines, a, t as int)))),
                    j == 0 ==> target@ == before,
                    j > 0 ==> target@ == before.push(usize_value(toks[0]) as usize),
                decreases ranges@.len() - j,
            {
                let (st, en) = ranges[j];
                if j == 0 {
                    let tok = sub_bytes(line, st, en);
                    let class = parse_usize(tok.as_slice()).unwrap();
                    target.push(class);
                } else {
                    let one = is_one_at(line, st, en);
                    if one {
                        let a = j - 1;
                        let ghost old_inputs = inputs@;
                        let word = DataLong::bit_to_one(inputs[a][actual_chunk], counter as u64);
                        inputs[a][actual_chunk] = word;
                        proof {
                            assert forall|a2: int, c: int, b: int|
                                0 <= a2 < nattributes && 0 <= c < nc && 0 <= b < 64 implies (
                            #[trigger] bit_set(inputs@[a2]@[c], b as u64) <==> ((slot(nc, c, b)
                                < r && attr_one(lines, a2, ntransactions - 1 - slot(nc, c, b)))
                                || (slot(nc, c, b) == r && a2 + 1 < j + 1 && attr_one(
                                lines,
                                a2,
                                t as int,
                            )))) by {
                                if a2 == a && c == actual_chunk {
                                    lemma_bit_set_or(old_inputs[a2]@[c], counter as u64, b as u64);
                                    lemma_slot_injective(nc, c, b, actual_chunk as int, counter as int);
                                } else {
                                    assert(inputs@[a2]@[c] == old_inputs[a2]@[c]);
                                    if a2 != a {
                                    } else {
                                        lemma_slot_injective(nc, c, b, actual_chunk as int, counter as int);
                                    }
                                }
                            }
                        }
                    } else {
                        proof {
                            assert forall|a2: int, c: int, b: int|
                                0 <= a2 < nattributes && 0 <= c < nc && 0 <= b < 64 && a2 + 1 == j
                                && slot(nc, c, b) == r implies !attr_one(lines, a2, t as int) by {
                                assert(toks[j as int] == line@.subrange(st as int, en as int));
                            }
                        }
                    }
                }
                j = j + 1;
            }
            proof {
                let sub = lines.subrange(t as int, ntransactions as int);
                assert(sub.drop_first() =~= lines.subrange(ntransactions - r, ntransactions as int));
                assert(sub[0] == lines[t as int]);
                assert forall|a: int| 0 <= a < nattributes && attr_one(lines, a, t as int) implies a
                    + 1 < j by {}
            }
            counter += 1;
            r += 1;
        }
        assert(lines.subrange(0, ntransactions as int) =~= lines);
        let nclasses = count_classes(&target);
        let mut targets_bv = zero_rows(nclasses, nchunks);
        proof {
            assert forall|b: u64| !bit_set(0, b) by {
                lemma_bit_set_zero(b);
            }
        }
        let tg_len = target.len();
        proof {
            lemma_classes_len(lines);
        }
        let mut counter: usize = 0;
        let mut actual_chunk: usize = nchunks - 1;
        let mut i: usize = 0;
        while i < tg_len
            invariant
                lines == data@,
                lines_well_formed(lines),
                target@ == classes_last_first(lines),
                tg_len == target@.len(),
                tg_len <= ntransactions,
                nclasses == class_count(lines),
                ntransactions <= nc * 64,
                nchunks == nc,
                i <= tg_len,
                actual_chunk < nc,
                counter <= 64,
                i == slot(nc, actual_chunk as int, counter as int),
                i == 0 ==> counter == 0,
                i > 0 ==> counter >= 1,
                targets_bv@.len() == nclasses,
                forall|k: int| 0 <= k < nclasses ==> (#[trigger] targets_bv@[k])@.len() == nc,
                forall|k: int, c: int, b: int|
                    0 <= k < nclasses && 0 <= c < nc && 0 <= b < 64 ==> (#[trigger] bit_set(targets_bv@[k]@[c], b as u64) <==> (slot(nc, c, b) < i && target@[slot(nc, c, b)] == k)),
            decreases tg_len - i,
        {
            if counter == 64 {
                proof {
                    lemma_slot_next_chunk(nc, actual_chunk as int);
                }
                actual_chunk -= 1;
                counter = 0;
            }
            let class = target[i];
            assert(class < nclasses);
            let ghost old_bv = targets_bv@;
            let word = DataLong::bit_to_one(targets_bv[class][actual_chunk], counter as u64);
            targets_bv[class][actual_chunk] = word;
            proof {
                assert forall|k: int, c: int, b: int|
                    0 <= k < nclasses && 0 <= c < nc && 0 <= b < 64 implies (#[trigger] bit_set(targets_bv@[k]@[c], b as u64) <==> (slot(nc, c, b) < i + 1 && target@[slot(nc, c, b)] == k)) by {
                    lemma_slot_injective(nc, c, b, actual_chunk as int, counter as int);
                    if k == class && c == actual_chunk {
                        lemma_bit_set_or(old_bv[k]@[c], counter as u64, b as u64);
                    } else {
                        assert(targets_bv@[k]@[c] == old_bv[k]@[c]);
                    }
                }
            }
            counter += 1;
            i += 1;
        }
        Ok(
            DataLong {
                filename,
                ntransactions,
                nattributes,
                nclasses,
                data: inputs,
                target: targets_bv,
            },
        )
    }

    /// Whether the dataset has the shape that the itemset operations rely
    /// on.
    pub fn check_wf(&self) -> (r: bool)
        ensures
            r == self.wf(),
    {
        if self.data.len() != self.nattributes || self.target.len() != self.nclasses
            || self.nattributes < 1 || self.nclasses < 1 || self.ntransactions < 1 {
            return false;
        }
        let n = self.ntransactions;
        let nc: usize = if n > 64 {
            if n % 64 == 0 {
                n / 64
            } else {
                n / 64 + 1
            }
        } else {
            1
        };
        let bits = match nc.checked_mul(64) {
            Some(b) => b,
            None => {
                return false;
            },
        };
        match self.nclasses.checked_mul(bits) {
            Some(_) => {},
            None => {
                return false;
            },
        }
        let mut a: usize = 0;
        while a < self.nattributes
            invariant
                a <= self.nattributes,
                self.data@.len() == self.nattributes,
                n == self.ntransactions,
                nc == chunk_count(n as nat),
                forall|i: int| 0 <= i < a ==> (#[trigger] self.data@[i])@.len() == nc,
            decreases self.nattributes - a,
        {
            if self.data[a].len() != nc {
                assert(self.data@[a as int]@.len() != chunk_count(self.ntransactions as nat));
                return false;
            }
            a = a + 1;
        }
        let mut k: usize = 0;
        while k < self.nclasses
            invariant
                k <= self.nclasses,
                self.target@.len() == self.nclasses,
                n == self.ntransactions,
                nc == chunk_count(n as nat),
                forall|i: int| 0 <= i < k ==> (#[trigger] self.target@[i])@.len() == nc,
            decreases self.nclasses - k,
        {
            if self.target[k].len() != nc {
                assert(self.target@[k as int]@.len() != chunk_count(self.ntransactions as nat));
                return false;
            }
            k = k + 1;
        }
        true
    }

    /// Sets bit `bit` of `word`.
    pub fn bit_to_one(word: u64, bit: u64) -> (r: u64)
        requires
            bit < 64,
        ensures
            r == word | (1u64 << bit),
            forall|b: u64| b < 64 ==> (bit_set(r, b) <==> (bit_set(word, b) || b == bit)),
    {
        let mask = 1u64 << bit;
        proof {
            assert forall|b: u64| b < 64 implies (bit_set(word | mask, b) <==> (bit_set(word, b)
                || b == bit)) by {
                lemma_bit_set_or(word, bit, b);
            }
        }
        word | mask
    }
}

/// `rows` rows of `cols` zero words.
fn zero_rows(rows: usize, cols: usize) -> (r: Vec<Vec<u64>>)
    ensures
        r@.len() == rows,
        forall|a: int| 0 <= a < rows ==> (#[trigger] r@[a])@.len() == cols,
        forall|a: int, c: int| 0 <= a < rows && 0 <= c < cols ==> #[trigger] r@[a]@[c] == 0,
{
    let mut r: Vec<Vec<u64>> = Vec::new();
    let mut i: usize = 0;
    while i < rows
        invariant
            i <= rows,
            r@.len() == i,
            forall|a: int| 0 <= a < i ==> (#[trigger] r@[a])@.len() == cols,
            forall|a: int, c: int| 0 <= a < i && 0 <= c < cols ==> #[trigger] r@[a]@[c] == 0,
        decreases rows - i,
    {
        let mut row: Vec<u64> = Vec::new();
        let mut j: usize = 0;
        while j < cols
            invariant
                j <= cols,
                row@.len() == j,
                forall|c: int| 0 <= c < j ==> #[trigger] row@[c] == 0,
            decreases cols - j,
        {
            row.push(0);
            j = j + 1;
        }
        r.push(row);
        i = i + 1;
    }
    r
}

pub proof fn lemma_chunk_count_bounds(n: nat)
    requires
        n >= 1,
    ensures
        n <= chunk_count(n) * 64,
        n > (chunk_count(n) - 1) * 64,
        chunk_count(n) >= 1,
{
}

proof fn lemma_slot_next_chunk(nc: nat, c: int)
    requires
        0 <= c < nc,
    ensures
        slot(nc, c, 64) == slot(nc, c - 1, 0),
{
}

pub proof fn lemma_slot_injective(nc: nat, c1: int, b1: int, c2: int, b2: int)
    requires
        0 <= b1 < 64,
        0 <= b2 < 64,
        0 <= c1 < nc,
        0 <= c2 < nc,
    ensures
        slot(nc, c1, b1) == slot(nc, c2, b2) <==> (c1 == c2 && b1 == b2),
        c1 < c2 ==> slot(nc, c1, b1) > slot(nc, c2, b2),
        c1 == c2 ==> (slot(nc, c1, b1) < slot(nc, c2, b2) <==> b1 < b2),
{
    let q1 = nc - 1 - c1;
    let q2 = nc - 1 - c2;
    if c1 < c2 {
        assert(q1 >= q2 + 1);
        assert(q1 * 64 >= q2 * 64 + 64) by (nonlinear_arith)
            requires
                q1 >= q2 + 1,
        ;
    } else if c2 < c1 {
        assert(q2 >= q1 + 1);
        assert(q2 * 64 >= q1 * 64 + 64) by (nonlinear_arith)
            requires
                q2 >= q1 + 1,
        ;
    }
}

proof fn lemma_classes_len(lines: Seq<String>)
    ensures
        classes_last_first(lines).len() <= lines.len(),
    decreases lines.len(),
{
    if lines.len() > 0 {
        lemma_classes_len(lines.drop_first());
    }
}

} // verus!
