//! The dataset text format: one transaction per line, tokens separated by
//! ASCII whitespace, the first token the class (a decimal unsigned integer),
//! each following token the value of one attribute (`1` for true, anything
//! else for false).
use vstd::prelude::*;

verus! {

/// The bytes that `str::split_ascii_whitespace` splits on.
pub open spec fn is_ascii_ws(c: u8) -> bool {
    c == 9u8 || c == 10u8 || c == 12u8 || c == 13u8 || c == 32u8
}

/// Length of the run of non-whitespace bytes at the start of `b`.
pub open spec fn word_len(b: Seq<u8>) -> nat
    decreases b.len(),
{
    if b.len() == 0 || is_ascii_ws(b[0]) {
        0
    } else {
        1 + word_len(b.drop_first())
    }
}

pub proof fn lemma_word_len_bounds(b: Seq<u8>)
    ensures
        word_len(b) <= b.len(),
        b.len() > 0 && !is_ascii_ws(b[0]) ==> word_len(b) >= 1,
        forall|i: int| 0 <= i < word_len(b) ==> !is_ascii_ws(#[trigger] b[i]),
        word_len(b) < b.len() ==> is_ascii_ws(b[word_len(b) as int]),
    decreases b.len(),
{
    if b.len() == 0 || is_ascii_ws(b[0]) {
    } else {
        lemma_word_len_bounds(b.drop_first());
        assert forall|i: int| 0 <= i < word_len(b) implies !is_ascii_ws(#[trigger] b[i]) by {
            if i > 0 {
                assert(b[i] == b.drop_first()[i - 1]);
            }
        }
    }
}

/// The tokens of `b`, as `str::split_ascii_whitespace` yields them.
pub open spec fn tokens(b: Seq<u8>) -> Seq<Seq<u8>>
    decreases b.len(),
{
    if b.len() == 0 {
        seq![]
    } else if is_ascii_ws(b[0]) {
        tokens(b.drop_first())
    } else {
        let k = word_len(b);
        proof {
            lemma_word_len_bounds(b);
        }
        seq![b.take(k as int)] + tokens(b.skip(k as int))
    }
}

pub open spec fn is_digit(c: u8) -> bool {
    48u8 <= c && c <= 57u8
}

/// Value of a string of decimal digits.
pub open spec fn digits_value(s: Seq<u8>) -> nat
    decreases s.len(),
{
    if s.len() == 0 {
        0
    } else {
        digits_value(s.drop_last()) * 10 + (s.last() - 48u8) as nat
    }
}

/// The digits of an unsigned number, after an optional leading `+`.
pub open spec fn unsigned_digits(t: Seq<u8>) -> Seq<u8> {
    if t.len() > 0 && t[0] == 43u8 {
        t.drop_first()
    } else {
        t
    }
}

/// Whether `usize::from_str` accepts `t`.
pub open spec fn parses_as_usize(t: Seq<u8>) -> bool {
    let d = unsigned_digits(t);
    &&& d.len() > 0
    &&& forall|i: int| 0 <= i < d.len() ==> is_digit(#[trigger] d[i])
    &&& digits_value(d) <= usize::MAX
}

/// The number that `usize::from_str` reads from `t`.
pub open spec fn usize_value(t: Seq<u8>) -> nat {
    digits_value(unsigned_digits(t))
}

/// The token that marks an attribute as true.
pub open spec fn is_one_token(t: Seq<u8>) -> bool {
    t == seq![49u8]
}

/// The bytes of a line of text.
pub open spec fn line_bytes(s: String) -> Seq<u8> {
    vstd::utf8::encode_utf8(s@)
}

/// The tokens of a line of text.
pub open spec fn line_tokens(s: String) -> Seq<Seq<u8>> {
    tokens(line_bytes(s))
}

/// The byte ranges `(start, end)` of the tokens of `b`, in order.
pub fn token_ranges(b: &[u8]) -> (r: Vec<(usize, usize)>)
    ensures
        r@.len() == tokens(b@).len(),
        forall|k: int|
            0 <= k < r@.len() ==> {
                &&& (#[trigger] r@[k]).0 < r@[k].1 <= b@.len()
                &&& b@.subrange(r@[k].0 as int, r@[k].1 as int) == tokens(b@)[k]
            },
{
    let n = b.len();
    let mut r: Vec<(usize, usize)> = Vec::new();
    let mut i: usize = 0;
    assert(b@.skip(0) =~= b@);
    while i < n
        invariant
            n == b@.len(),
            i <= n,
            tokens(b@) == Seq::new(r@.len(), |k: int| b@.subrange(r@[k].0 as int, r@[k].1 as int))
                + tokens(b@.skip(i as int)),
            forall|k: int| 0 <= k < r@.len() ==> (#[trigger] r@[k]).0 < r@[k].1 <= i,
        decreases n - i,
    {
        let ghost rest = b@.skip(i as int);
        if is_ws_byte(b[i]) {
            assert(rest.drop_first() =~= b@.skip(i + 1));
            i = i + 1;
        } else {
            let start = i;
            let mut j: usize = i;
            while j < n && !is_ws_byte(b[j])
                invariant
                    n == b@.len(),
                    start <= j <= n,
                    forall|m: int| start <= m < j ==> !is_ascii_ws(#[trigger] b@[m]),
                decreases n - j,
            {
                j = j + 1;
            }
            proof {
                lemma_word_len_exact(rest, (j - start) as nat);
                lemma_word_len_bounds(rest);
                assert(rest.take((j - start) as int) =~= b@.subrange(start as int, j as int));
                assert(rest.skip((j - start) as int) =~= b@.skip(j as int));
            }
            let ghost old_r = r@;
            r.push((start, j));
            assert(Seq::new(r@.len(), |k: int| b@.subrange(r@[k].0 as int, r@[k].1 as int))
                =~= Seq::new(old_r.len(), |k: int| b@.subrange(old_r[k].0 as int, old_r[k].1 as int))
                + seq![b@.subrange(start as int, j as int)]);
            i = j;
        }
    }
    assert(b@.skip(n as int) =~= Seq::<u8>::empty());
    assert(tokens(b@) =~= Seq::new(r@.len(), |k: int| b@.subrange(r@[k].0 as int, r@[k].1 as int)));
    r
}

proof fn lemma_word_len_exact(b: Seq<u8>, k: nat)
    requires
        k <= b.len(),
        forall|m: int| 0 <= m < k ==> !is_ascii_ws(#[trigger] b[m]),
        k == b.len() || is_ascii_ws(b[k as int]),
    ensures
        word_len(b) == k,
    decreases k,
{
    if k > 0 {
        assert(!is_ascii_ws(b[0]));
        assert forall|m: int| 0 <= m < k - 1 implies !is_ascii_ws(#[trigger] b.drop_first()[m]) by {
            assert(b.drop_first()[m] == b[m + 1]);
        }
        if k < b.len() {
            assert(b.drop_first()[k - 1] == b[k as int]);
        }
        lemma_word_len_exact(b.drop_first(), (k - 1) as nat);
    }
}

fn is_ws_byte(c: u8) -> (r: bool)
    ensures
        r == is_ascii_ws(c),
{
    c == 9u8 || c == 10u8 || c == 12u8 || c == 13u8 || c == 32u8
}

/// Reads an unsigned decimal number as `usize::from_str` does; `None` where
/// that would fail.
pub fn parse_usize(t: &[u8]) -> (r: Option<usize>)
    ensures
        r is Some <==> parses_as_usize(t@),
        r matches Some(v) ==> v as nat == usize_value(t@),
{
    let n = t.len();
    let mut start: usize = 0;
    if n > 0 && t[0] == 43u8 {
        start = 1;
    }
    let ghost d = unsigned_digits(t@);
    assert(d =~= t@.skip(start as int));
    if start == n {
        return None;
    }
    let mut acc: usize = 0;
    let mut i: usize = start;
    while i < n
        invariant
            start < n == t@.len(),
            d == t@.skip(start as int),
            d == unsigned_digits(t@),
            start <= i <= n,
            forall|m: int| start <= m < i ==> is_digit(#[trigger] t@[m]),
            acc as nat == digits_value(t@.subrange(start as int, i as int)),
        decreases n - i,
    {
        let c = t[i];
        if c < 48u8 || c > 57u8 {
            assert(d[i - start] == c);
            assert(!is_digit(d[i - start]));
            return None;
        }
        let ghost prefix = t@.subrange(start as int, i as int + 1);
        assert(prefix.drop_last() =~= t@.subrange(start as int, i as int));
        let digit = (c - 48u8) as usize;
        match acc.checked_mul(10) {
            None => {
                proof {
                    assert(d.take(i - start + 1) =~= prefix);
                    if forall|m: int| 0 <= m < d.len() ==> is_digit(#[trigger] d[m]) {
                        lemma_digits_value_prefix_mono(d, (i - start + 1) as nat);
                    }
                }
                return None;
            },
            Some(m) => match m.checked_add(digit) {
                None => {
                    proof {
                        assert(d.take(i - start + 1) =~= prefix);
                        if forall|m: int| 0 <= m < d.len() ==> is_digit(#[trigger] d[m]) {
                            lemma_digits_value_prefix_mono(d, (i - start + 1) as nat);
                        }
                    }
                    return None;
                },
                Some(v) => {
                    acc = v;
                },
            },
        }
        i = i + 1;
    }
    assert(t@.subrange(start as int, n as int) =~= d);
    Some(acc)
}

/// The value of a digit string is at least the value of any of its prefixes.
proof fn lemma_digits_value_prefix_mono(d: Seq<u8>, k: nat)
    requires
        k <= d.len(),
        forall|i: int| 0 <= i < d.len() ==> is_digit(#[trigger] d[i]),
    ensures
        digits_value(d.take(k as int)) <= digits_value(d),
    decreases d.len() - k,
{
    if k < d.len() {
        lemma_digits_value_prefix_mono(d, k + 1);
        assert(d.take(k as int + 1).drop_last() =~= d.take(k as int));
    } else {
        assert(d.take(k as int) =~= d);
    }
}


/// The class written on a line, if the line holds any token.
pub open spec fn line_class(s: String) -> Option<usize> {
    let toks = line_tokens(s);
    if toks.len() > 0 {
        Some(usize_value(toks[0]) as usize)
    } else {
        None
    }
}

/// The classes of the lines that hold a token, the last line first.
pub open spec fn classes_last_first(lines: Seq<String>) -> Seq<usize>
    decreases lines.len(),
{
    if lines.len() == 0 {
        seq![]
    } else {
        let rest = classes_last_first(lines.drop_first());
        match line_class(lines[0]) {
            Some(c) => rest.push(c),
            None => rest,
        }
    }
}

/// The number of classes: the number of distinct classes written, and at
/// least two.
pub open spec fn class_count(lines: Seq<String>) -> nat {
    let d = classes_last_first(lines).to_set().len();
    if d < 2 {
        2
    } else {
        d
    }
}

/// The number of attributes: the tokens of the first line but the class.
pub open spec fn attribute_count(lines: Seq<String>) -> nat {
    (line_tokens(lines[0]).len() - 1) as nat
}

/// The lines that a dataset can be read from, but for the classes' range:
/// at least one line, a first line with a class, no line with more
/// attributes than the first, and a readable class on each line that holds
/// a token.
pub open spec fn lines_readable(lines: Seq<String>) -> bool {
    &&& lines.len() > 0
    &&& line_tokens(lines[0]).len() > 0
    &&& forall|t: int|
        0 <= t < lines.len() ==> (#[trigger] line_tokens(lines[t])).len() <= line_tokens(
            lines[0],
        ).len()
    &&& forall|t: int|
        0 <= t < lines.len() && line_tokens(lines[t]).len() > 0 ==> parses_as_usize(
            #[trigger] line_tokens(lines[t])[0],
        )
}

/// The inputs that the chunked dataset can be read from: readable lines, and
/// every class below the number of classes.
pub open spec fn lines_well_formed(lines: Seq<String>) -> bool {
    &&& lines_readable(lines)
    &&& forall|k: int|
        0 <= k < classes_last_first(lines).len() ==> (#[trigger] classes_last_first(lines)[k])
            < class_count(lines)
}

/// Whether line `t` gives attribute `a` the value true.
pub open spec fn attr_one(lines: Seq<String>, a: int, t: int) -> bool {
    let toks = line_tokens(lines[t]);
    a + 1 < toks.len() && is_one_token(toks[a + 1])
}

/// The classes of the lines that hold a token, in the order of the lines.
pub open spec fn classes_in_order(lines: Seq<String>) -> Seq<usize>
    decreases lines.len(),
{
    if lines.len() == 0 {
        seq![]
    } else {
        let rest = classes_in_order(lines.drop_last());
        match line_class(lines.last()) {
            Some(c) => rest.push(c),
            None => rest,
        }
    }
}

/// The number of distinct classes written, or at least two where
/// `at_least_two`.
pub open spec fn class_bound(lines: Seq<String>, at_least_two: bool) -> nat {
    let d = classes_in_order(lines).to_set().len();
    if at_least_two && d < 2 {
        2
    } else {
        d
    }
}

/// Readable lines whose classes, in order, lie below `class_bound`.
pub open spec fn lines_well_formed_in_order(lines: Seq<String>, at_least_two: bool) -> bool {
    &&& lines_readable(lines)
    &&& forall|k: int|
        0 <= k < classes_in_order(lines).len() ==> (#[trigger] classes_in_order(lines)[k])
            < class_bound(lines, at_least_two)
}

/// Where every line holds a token, each line gives one class, in order.
pub proof fn lemma_classes_in_order_full(lines: Seq<String>)
    requires
        forall|t: int| 0 <= t < lines.len() ==> #[trigger] line_tokens(lines[t]).len() > 0,
    ensures
        classes_in_order(lines).len() == lines.len(),
    decreases lines.len(),
{
    if lines.len() > 0 {
        let d = lines.drop_last();
        assert forall|t: int| 0 <= t < d.len() implies #[trigger] line_tokens(d[t]).len() > 0 by {
            assert(d[t] == lines[t]);
        }
        lemma_classes_in_order_full(d);
        assert(line_tokens(lines[lines.len() - 1]).len() > 0);
    }
}

/// Where every line holds a token, each line gives one class, the last line
/// first.
pub proof fn lemma_classes_last_first_full(lines: Seq<String>)
    requires
        forall|t: int| 0 <= t < lines.len() ==> #[trigger] line_tokens(lines[t]).len() > 0,
    ensures
        classes_last_first(lines).len() == lines.len(),
    decreases lines.len(),
{
    if lines.len() > 0 {
        let d = lines.drop_first();
        assert forall|t: int| 0 <= t < d.len() implies #[trigger] line_tokens(d[t]).len() > 0 by {
            assert(d[t] == lines[t + 1]);
        }
        lemma_classes_last_first_full(d);
        assert(line_tokens(lines[0]).len() > 0);
    }
}

pub proof fn lemma_classes_in_order_len(lines: Seq<String>)
    ensures
        classes_in_order(lines).len() <= lines.len(),
    decreases lines.len(),
{
    if lines.len() > 0 {
        lemma_classes_in_order_len(lines.drop_last());
    }
}

/// The bytes of `b` between `start` and `end`.
pub fn sub_bytes(b: &[u8], start: usize, end: usize) -> (r: Vec<u8>)
    requires
        start <= end <= b@.len(),
    ensures
        r@ == b@.subrange(start as int, end as int),
{
    let mut r: Vec<u8> = Vec::new();
    let mut i = start;
    while i < end
        invariant
            start <= i <= end <= b@.len(),
            r@ == b@.subrange(start as int, i as int),
        decreases end - i,
    {
        r.push(b[i]);
        i = i + 1;
    }
    r
}

/// Whether the token of `b` between `start` and `end` is `1`.
pub fn is_one_at(b: &[u8], start: usize, end: usize) -> (r: bool)
    requires
        start <= end <= b@.len(),
    ensures
        r == is_one_token(b@.subrange(start as int, end as int)),
{
    let ghost sub = b@.subrange(start as int, end as int);
    if end - start == 1 && b[start] == 49u8 {
        assert(sub =~= seq![49u8]);
        true
    } else {
        assert(sub.len() == end - start);
        if end - start == 1 {
            assert(sub[0] == b@[start as int]);
            assert(sub[0] != seq![49u8][0]);
        }
        assert(sub != seq![49u8]);
        false
    }
}

/// The class of the line `s`: `Some(None)` for a line without tokens,
/// `None` where the first token is no number.
pub fn read_line_class(s: &String) -> (r: Option<Option<usize>>)
    ensures
        r is None <==> (line_tokens(*s).len() > 0 && !parses_as_usize(line_tokens(*s)[0])),
        r matches Some(c) ==> c == line_class(*s),
{
    let b = s.as_str().as_bytes();
    let ranges = token_ranges(b);
    if ranges.len() == 0 {
        return Some(None);
    }
    let (st, en) = ranges[0];
    let tok = sub_bytes(b, st, en);
    match parse_usize(tok.as_slice()) {
        None => None,
        Some(v) => Some(Some(v)),
    }
}

/// The classes of the lines, the last line first; `None` where a class
/// cannot be read.
pub fn read_classes(lines: &Vec<String>) -> (r: Option<Vec<usize>>)
    ensures
        r is Some <==> (forall|t: int|
            0 <= t < lines@.len() && line_tokens(lines@[t]).len() > 0 ==> parses_as_usize(
                #[trigger] line_tokens(lines@[t])[0],
            )),
        r matches Some(v) ==> v@ == classes_last_first(lines@),
{
    let n = lines.len();
    let mut out: Vec<usize> = Vec::new();
    let mut k: usize = 0;
    assert(lines@.subrange(n as int, n as int) =~= Seq::<String>::empty());
    while k < n
        invariant
            n == lines@.len(),
            k <= n,
            out@ == classes_last_first(lines@.subrange(n - k, n as int)),
            forall|t: int|
                n - k <= t < n && line_tokens(lines@[t]).len() > 0 ==> parses_as_usize(
                    #[trigger] line_tokens(lines@[t])[0],
                ),
        decreases n - k,
    {
        let t = n - 1 - k;
        let ghost sub = lines@.subrange(t as int, n as int);
        assert(sub.drop_first() =~= lines@.subrange(n - k, n as int));
        assert(sub[0] == lines@[t as int]);
        match read_line_class(&lines[t]) {
            None => {
                return None;
            },
            Some(None) => {},
            Some(Some(c)) => {
                out.push(c);
            },
        }
        k = k + 1;
    }
    assert(lines@.subrange(0, n as int) =~= lines@);
    Some(out)
}

/// The number of distinct values of `v`.
pub fn distinct_count(v: &Vec<usize>) -> (r: usize)
    ensures
        r == v@.to_set().len(),
{
    broadcast use vstd::std_specs::hash::group_hash_axioms;

    let mut set: std::collections::HashSet<usize> = std::collections::HashSet::new();
    let mut i: usize = 0;
    while i < v.len()
        invariant
            i <= v@.len(),
            set@ == v@.take(i as int).to_set(),
        decreases v@.len() - i,
    {
        let ghost before = v@.take(i as int);
        set.insert(v[i]);
        assert(v@.take(i as int + 1) =~= before.push(v@[i as int]));
        assert(before.push(v@[i as int]).to_set() =~= before.to_set().insert(v@[i as int])) by {
            assert forall|x: usize| before.push(v@[i as int]).contains(x) <==> (before.contains(x)
                || x == v@[i as int]) by {
                if before.push(v@[i as int]).contains(x) {
                    let j = choose|j: int| 0 <= j < before.len() + 1 && before.push(v@[i as int])[j] == x;
                    if j < before.len() {
                        assert(before[j] == x);
                    }
                }
                if before.contains(x) {
                    let j = choose|j: int| 0 <= j < before.len() && before[j] == x;
                    assert(before.push(v@[i as int])[j] == x);
                }
                if x == v@[i as int] {
                    assert(before.push(v@[i as int])[before.len() as int] == x);
                }
            }
        }
        i = i + 1;
    }
    assert(v@.take(v@.len() as int) =~= v@);
    proof {
        vstd::seq_lib::seq_to_set_is_finite(v@);
    }
    set.len()
}

/// The number of distinct values of `v`, and at least two.
pub fn count_classes(v: &Vec<usize>) -> (r: usize)
    ensures
        r == (if v@.to_set().len() < 2 {
            2
        } else {
            v@.to_set().len()
        }),
{
    let d = distinct_count(v);
    if d < 2 {
        2
    } else {
        d
    }
}

/// The classes of the lines, in order; `None` where a class cannot be read.
pub fn read_classes_in_order(lines: &Vec<String>) -> (r: Option<Vec<usize>>)
    ensures
        r is Some <==> (forall|t: int|
            0 <= t < lines@.len() && line_tokens(lines@[t]).len() > 0 ==> parses_as_usize(
                #[trigger] line_tokens(lines@[t])[0],
            )),
        r matches Some(v) ==> v@ == classes_in_order(lines@),
{
    let n = lines.len();
    let mut out: Vec<usize> = Vec::new();
    let mut t: usize = 0;
    assert(lines@.take(0) =~= Seq::<String>::empty());
    while t < n
        invariant
            n == lines@.len(),
            t <= n,
            out@ == classes_in_order(lines@.take(t as int)),
            forall|u: int|
                0 <= u < t && line_tokens(lines@[u]).len() > 0 ==> parses_as_usize(
                    #[trigger] line_tokens(lines@[u])[0],
                ),
        decreases n - t,
    {
        let ghost sub = lines@.take(t as int + 1);
        assert(sub.drop_last() =~= lines@.take(t as int));
        assert(sub.last() == lines@[t as int]);
        match read_line_class(&lines[t]) {
            None => {
                return None;
            },
            Some(None) => {},
            Some(Some(c)) => {
                out.push(c);
            },
        }
        t = t + 1;
    }
    assert(lines@.take(n as int) =~= lines@);
    Some(out)
}

/// Whether `lines` can be read in order with classes below
/// `class_bound(lines, at_least_two)`.
pub fn check_lines_in_order(lines: &Vec<String>, at_least_two: bool) -> (r: bool)
    ensures
        r == lines_well_formed_in_order(lines@, at_least_two),
{
    if !check_readable(lines) {
        return false;
    }
    let classes = match read_classes_in_order(lines) {
        None => {
            return false;
        },
        Some(c) => c,
    };
    let d = distinct_count(&classes);
    let bound = if at_least_two && d < 2 {
        2
    } else {
        d
    };
    let mut k: usize = 0;
    while k < classes.len()
        invariant
            k <= classes@.len(),
            classes@ == classes_in_order(lines@),
            bound == class_bound(lines@, at_least_two),
            forall|m: int| 0 <= m < k ==> (#[trigger] classes@[m]) < bound,
        decreases classes@.len() - k,
    {
        if classes[k] >= bound {
            return false;
        }
        k = k + 1;
    }
    true
}

/// Whether `lines` is readable (see `lines_readable`).
pub fn check_readable(lines: &Vec<String>) -> (r: bool)
    ensures
        r == lines_readable(lines@),
{
    let n = lines.len();
    if n == 0 {
        return false;
    }
    let first = token_ranges(lines[0].as_str().as_bytes()).len();
    if first == 0 {
        return false;
    }
    let mut t: usize = 0;
    while t < n
        invariant
            n == lines@.len(),
            t <= n,
            first == line_tokens(lines@[0]).len(),
            forall|u: int| 0 <= u < t ==> (#[trigger] line_tokens(lines@[u])).len() <= first,
        decreases n - t,
    {
        if token_ranges(lines[t].as_str().as_bytes()).len() > first {
            assert(line_tokens(lines@[t as int]).len() > line_tokens(lines@[0]).len());
            return false;
        }
        t = t + 1;
    }
    match read_classes(lines) {
        None => false,
        Some(_) => true,
    }
}

/// Whether `lines` is an input the chunked dataset can be read from (see
/// `lines_well_formed`).
pub fn check_lines(lines: &Vec<String>) -> (r: bool)
    ensures
        r == lines_well_formed(lines@),
{
    if !check_readable(lines) {
        return false;
    }
    let classes = match read_classes(lines) {
        None => {
            return false;
        },
        Some(c) => c,
    };
    let count = count_classes(&classes);
    let mut k: usize = 0;
    while k < classes.len()
        invariant
            k <= classes@.len(),
            classes@ == classes_last_first(lines@),
            count == class_count(lines@),
            forall|m: int| 0 <= m < k ==> (#[trigger] classes@[m]) < count,
        decreases classes@.len() - k,
    {
        if classes[k] >= count {
            return false;
        }
        k = k + 1;
    }
    true
}

} // verus!
