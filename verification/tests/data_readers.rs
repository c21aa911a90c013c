use dl85::data::dt::Data as ColumnData;
use dl85::data::dt_chuncked::DataChunked;
use dl85::data::dt_longed::DataLong;
use dl85::data::lines::{check_lines, check_lines_in_order, count_classes, distinct_count, parse_usize, token_ranges};
use dl85::data::Data;

fn sample() -> Vec<String> {
    vec![
        "1 1 0".to_string(),
        "0 0 1".to_string(),
        "1 1 1".to_string(),
        "0 0 0".to_string(),
        "1 1 0".to_string(),
    ]
}

fn value(lines: &[String], a: usize, t: usize) -> bool {
    lines[t].split_ascii_whitespace().nth(a + 1) == Some("1")
}

#[test]
fn sample_lines_are_well_formed() {
    let lines = sample();
    assert!(check_lines(&lines));
    assert!(check_lines_in_order(&lines, false));
    assert!(check_lines_in_order(&lines, true));
}

#[test]
fn empty_input_is_refused() {
    let lines: Vec<String> = vec![];
    assert!(!check_lines(&lines));
    assert!(!check_lines_in_order(&lines, false));
}

#[test]
fn longer_line_than_first_is_refused() {
    let lines = vec!["1 0".to_string(), "0 1 1".to_string()];
    assert!(!check_lines(&lines));
}

#[test]
fn unreadable_class_is_refused() {
    let lines = vec!["x 0 1".to_string(), "0 1 1".to_string()];
    assert!(!check_lines(&lines));
    assert!(!check_lines_in_order(&lines, true));
}

#[test]
fn class_out_of_range_is_refused() {
    // Two distinct classes, but one of them is 5.
    let lines = vec!["0 1".to_string(), "5 0".to_string()];
    assert!(!check_lines_in_order(&lines, false));
    assert!(!check_lines(&lines));
}

#[test]
fn token_ranges_split_on_ascii_whitespace() {
    let r = token_ranges("  ab\tc  d ".as_bytes());
    assert_eq!(r, vec![(2, 4), (5, 6), (8, 9)]);
    assert_eq!(token_ranges("".as_bytes()), vec![]);
}

#[test]
fn parse_usize_reads_decimal_numbers() {
    assert_eq!(parse_usize("42".as_bytes()), Some(42));
    assert_eq!(parse_usize("+7".as_bytes()), Some(7));
    assert_eq!(parse_usize("".as_bytes()), None);
    assert_eq!(parse_usize("4a".as_bytes()), None);
    assert_eq!(parse_usize("-1".as_bytes()), None);
    assert_eq!(parse_usize("18446744073709551616".as_bytes()), None);
}

#[test]
fn class_counts() {
    assert_eq!(distinct_count(&vec![3, 1, 3, 0]), 3);
    assert_eq!(count_classes(&vec![4, 4, 4]), 2);
    assert_eq!(count_classes(&vec![0, 1, 2]), 3);
}

#[test]
fn row_reader_holds_each_line() {
    let lines = sample();
    let d = Data::new(lines.clone(), "sample".to_string()).unwrap();
    assert_eq!(d.filename, "sample");
    assert_eq!(d.ntransactions, 5);
    assert_eq!(d.nattributes, 2);
    assert_eq!(d.nclasses, 2);
    for t in 0..5 {
        for a in 0..2 {
            assert_eq!(d.data[t].get(a), Some(value(&lines, a, t)));
        }
    }
    let class1: Vec<bool> = d.target[1].iter().collect();
    assert_eq!(class1, vec![true, false, true, false, true]);
}

#[test]
fn column_reader_holds_each_attribute() {
    let lines = sample();
    let d = ColumnData::data_as_it(lines.clone(), "sample".to_string()).unwrap();
    assert_eq!(d.ntransactions, 5);
    assert_eq!(d.nattributes, 2);
    assert_eq!(d.nclasses, 2);
    let a0: Vec<bool> = d.data[0].iter().collect();
    let a1: Vec<bool> = d.data[1].iter().collect();
    assert_eq!(a0, vec![true, false, true, false, true]);
    assert_eq!(a1, vec![false, true, true, false, false]);
    let class0: Vec<bool> = d.target[0].iter().collect();
    assert_eq!(class0, vec![false, true, false, true, false]);
}

#[test]
fn chunked_reader_holds_transaction_t_at_bit_t_mod_64() {
    let lines = sample();
    let d = DataChunked::data_chunked(lines.clone(), "sample".to_string()).unwrap();
    assert_eq!(d.nclasses, 2);
    assert_eq!(d.data.len(), 2);
    assert_eq!(d.data[0].len(), 1);
    assert_eq!(d.data[0][0].len(), 64);
    for a in 0..2 {
        for t in 0..64 {
            assert_eq!(d.data[a][0].get(t), Some(t < 5 && value(&lines, a, t)));
        }
    }
    assert_eq!(d.target[1][0].get(4), Some(true));
    assert_eq!(d.target[1][0].get(3), Some(false));
    assert_eq!(d.target[0][0].get(5), Some(false));
}

#[test]
fn chunked_reader_with_one_class_has_two_class_rows() {
    let lines = vec!["3 1".to_string(), "3 0".to_string()];
    // One distinct class: the chunked reader keeps two class rows, so class 3
    // is out of range.
    assert!(!check_lines_in_order(&lines, true));
    let lines = vec!["1 1".to_string(), "1 0".to_string()];
    assert!(check_lines_in_order(&lines, true));
    let d = DataChunked::data_chunked(lines, "one".to_string()).unwrap();
    assert_eq!(d.nclasses, 2);
    assert_eq!(d.target[1][0].get(0), Some(true));
    assert_eq!(d.target[1][0].get(1), Some(true));
}

#[test]
fn chunked_reader_spans_several_chunks() {
    let mut lines = vec![];
    for t in 0..70 {
        lines.push(format!("{} {}", t % 2, if t % 3 == 0 { 1 } else { 0 }));
    }
    let d = DataChunked::data_chunked(lines, "long".to_string()).unwrap();
    assert_eq!(d.data[0].len(), 2);
    assert_eq!(d.data[0][1].get(2), Some(true)); // transaction 66
    assert_eq!(d.data[0][1].get(3), Some(false)); // transaction 67
    assert_eq!(d.data[0][1].get(6), Some(false)); // past the last transaction
    assert_eq!(d.target[1][1].get(5), Some(true)); // transaction 69
}

#[test]
fn long_reader_holds_transactions_last_first() {
    let lines = sample();
    let d = DataLong::data_to_long(lines, "sample".to_string()).unwrap();
    assert_eq!(d.ntransactions, 5);
    assert_eq!(d.nattributes, 2);
    assert_eq!(d.nclasses, 2);
    // Transaction t sits at bit 4 - t of the only chunk.
    assert_eq!(d.data[0], vec![0b10101]);
    assert_eq!(d.data[1], vec![0b01100]);
    assert_eq!(d.target[1], vec![0b10101]);
    assert_eq!(d.target[0], vec![0b01010]);
}

#[test]
fn long_reader_spans_several_chunks() {
    let mut lines = vec![];
    for t in 0..65 {
        lines.push(format!("0 {}", if t == 0 { 1 } else { 0 }));
    }
    lines[64] = "1 1".to_string();
    let d = DataLong::data_to_long(lines, "l".to_string()).unwrap();
    // 65 transactions: the first chunk holds the first line at bit 0, the
    // second chunk the 64 lines after it, the last line at bit 0.
    assert_eq!(d.data[0], vec![1, 1]);
    assert_eq!(d.target[1], vec![0, 1]);
}

#[test]
fn bit_to_one_sets_one_bit() {
    assert_eq!(DataLong::bit_to_one(0, 0), 1);
    assert_eq!(DataLong::bit_to_one(0b1000, 1), 0b1010);
    assert_eq!(DataLong::bit_to_one(5, 2), 5);
    assert_eq!(DataLong::bit_to_one(0, 63), 1u64 << 63);
}

#[test]
fn readers_agree_on_the_sample() {
    let lines = sample();
    let rows = Data::new(lines.clone(), "s".to_string()).unwrap();
    let cols = ColumnData::data_as_it(lines.clone(), "s".to_string()).unwrap();
    let chunked = DataChunked::data_chunked(lines.clone(), "s".to_string()).unwrap();
    let long = DataLong::data_to_long(lines.clone(), "s".to_string()).unwrap();
    let n = 5;
    for a in 0..2 {
        for t in 0..n {
            let v = rows.data[t].get(a).unwrap();
            assert_eq!(cols.data[a].get(t).unwrap(), v);
            assert_eq!(chunked.data[a][t / 64].get(t % 64).unwrap(), v);
            let s = n - 1 - t;
            assert_eq!((long.data[a][long.data[a].len() - 1 - s / 64] >> (s % 64)) & 1 == 1, v);
        }
    }
}
