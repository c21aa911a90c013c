use dl85::data::dt::Data as ColumnData;
use dl85::data::dt_chuncked::DataChunked;
use dl85::data::dt_longed::DataLong;
use dl85::mining::itemset_bitvector_trait::{first_max, sum_counts, ItemsetBitvector};
use dl85::mining::its_ops::ItemsetOps;
use dl85::mining::its_ops_chunked::ItemsetOpsChunked;
use dl85::mining::its_ops_long::ItemsetOpsLong;

fn sample() -> Vec<String> {
    vec![
        "1 1 0".to_string(),
        "0 0 1".to_string(),
        "1 1 1".to_string(),
        "0 0 0".to_string(),
        "1 1 0".to_string(),
    ]
}

fn seventy() -> Vec<String> {
    let mut lines = vec![];
    for t in 0..70 {
        lines.push(format!("{} {} {}", t % 2, if t % 3 == 0 { 1 } else { 0 }, if t < 10 { 1 } else { 0 }));
    }
    lines
}

fn exercise<T: ItemsetBitvector>(ops: &mut T) {
    assert_eq!(ops.get_infos(), (5, 2, 2));
    assert_eq!(ops.get_nclasses(), 2);
    assert_eq!(ops.support(), 5);
    assert_eq!(ops.classes_cover(), vec![2, 3]);
    assert_eq!(ops.top_class(), (1, 3));
    assert_eq!(ops.leaf_misclassication_error(), (2, 1));

    assert_eq!(ops.intersection_cover(&(0, true)), 3);
    assert_eq!(ops.get_current(), vec![(0, true)]);
    assert_eq!(ops.classes_cover(), vec![0, 3]);
    assert_eq!(ops.leaf_misclassication_error(), (0, 1));
    assert_eq!(ops.temp_intersection(&(1, true)), 1);
    assert_eq!(ops.get_current(), vec![(0, true)]);
    assert_eq!(ops.temp_classes_cover(&(1, false)), vec![0, 2]);
    assert_eq!(ops.support(), 3);

    ops.backtrack();
    assert_eq!(ops.get_current(), vec![]);
    assert_eq!(ops.support(), 5);

    assert_eq!(ops.intersection_cover(&(0, false)), 2);
    assert_eq!(ops.classes_cover(), vec![2, 0]);
    assert_eq!(ops.top_class(), (0, 2));
    assert_eq!(ops.leaf_misclassication_error(), (0, 0));
    assert_eq!(ops.intersection_cover(&(1, true)), 1);
    assert_eq!(ops.get_current(), vec![(0, false), (1, true)]);
    assert_eq!(ops.classes_cover(), vec![1, 0]);

    ops.reset();
    assert_eq!(ops.get_current(), vec![]);
    assert_eq!(ops.support(), 5);
}

#[test]
fn column_operator_counts_covers() {
    let data = ColumnData::data_as_it(sample(), "s".to_string()).unwrap();
    let mut ops = ItemsetOps::new(&data);
    exercise(&mut ops);
    assert_eq!(ops.frequency_parts(), (5, 5));
    ops.intersection_cover(&(1, false));
    assert_eq!(ops.frequency_parts(), (3, 5));
}

#[test]
fn long_operator_counts_covers() {
    let data = DataLong::data_to_long(sample(), "s".to_string()).unwrap();
    let mut ops = ItemsetOpsLong::new(&data);
    exercise(&mut ops);
    assert_eq!(ops.frequency_parts(), (5, 5));
    ops.intersection_cover(&(1, false));
    assert_eq!(ops.frequency_parts(), (3, 5));
}

#[test]
fn empty_itemset_covers_every_transaction() {
    let lines = seventy();
    let cols = ColumnData::data_as_it(lines.clone(), "s".to_string()).unwrap();
    let long = DataLong::data_to_long(lines.clone(), "s".to_string()).unwrap();
    let chunked = DataChunked::data_chunked(lines, "s".to_string()).unwrap();
    assert_eq!(ItemsetOps::new(&cols).support(), 70);
    assert_eq!(ItemsetOpsLong::new(&long).support(), 70);
    let mut c = ItemsetOpsChunked::new(vec![], &chunked, None, None, 70, false, 2);
    assert_eq!(c.support(), 70);
}

#[test]
fn testing_an_attribute_splits_the_support() {
    let lines = seventy();
    let long = DataLong::data_to_long(lines.clone(), "s".to_string()).unwrap();
    let cols = ColumnData::data_as_it(lines, "s".to_string()).unwrap();
    let mut a = ItemsetOpsLong::new(&long);
    let mut b = ItemsetOps::new(&cols);
    a.intersection_cover(&(1, true));
    b.intersection_cover(&(1, true));
    for attr in 0..2 {
        let whole = a.support();
        let f = a.temp_intersection(&(attr, false));
        let t = a.temp_intersection(&(attr, true));
        assert_eq!(f + t, whole);
        assert_eq!(b.temp_intersection(&(attr, false)), f);
        assert_eq!(b.temp_intersection(&(attr, true)), t);
    }
    // Of the first ten transactions, 0, 3, 6 and 9 hold attribute 0.
    assert_eq!(a.temp_intersection(&(0, true)), 4);
    assert_eq!(a.support(), 10);
    assert_eq!(a.intersection_cover(&(0, true)), 4);
    assert_eq!(a.support(), 4);
    assert_eq!(a.classes_cover(), vec![2, 2]);
    assert_eq!(a.top_class(), (0, 2));
    assert_eq!(a.leaf_misclassication_error(), (2, 0));
}

#[test]
fn backtrack_undoes_intersection_cover() {
    let data = DataLong::data_to_long(sample(), "s".to_string()).unwrap();
    let mut ops = ItemsetOpsLong::new(&data);
    ops.intersection_cover(&(1, false));
    let before = ops.get_current();
    let s0 = ops.support();
    let temp = ops.temp_intersection(&(0, true));
    let added = ops.intersection_cover(&(0, true));
    assert_eq!(temp, added);
    ops.backtrack();
    assert_eq!(ops.get_current(), before);
    assert_eq!(ops.support(), s0);
}

#[test]
fn search_space_counts_nodes_level_by_level() {
    let data = DataLong::data_to_long(sample(), "s".to_string()).unwrap();
    let ops = ItemsetOpsLong::new(&data);
    assert_eq!(ops.max_search_tree_space(2, 0), 0);
    assert_eq!(ops.max_search_tree_space(2, 1), 4);
    assert_eq!(ops.max_search_tree_space(2, 2), 12);
    assert_eq!(ops.max_search_tree_space(1, 3), 2);
    assert_eq!(ops.max_search_tree_space(3, 3), 6 + 24 + 48);
}

#[test]
fn first_max_takes_the_first_largest() {
    assert_eq!(first_max(&vec![3, 7, 7, 1]), (1, 7));
    assert_eq!(first_max(&vec![5]), (0, 5));
    assert_eq!(first_max(&vec![0, 0]), (0, 0));
    assert_eq!(sum_counts(&vec![3, 7, 7, 1], 100), 18);
}

#[test]
fn chunked_operator_counts_covers() {
    let data = DataChunked::data_chunked(sample(), "s".to_string()).unwrap();
    let mut ops = ItemsetOpsChunked::new(vec![], &data, None, None, 5, false, 1);
    assert_eq!(ops.support(), 5);
    assert_eq!(ops.classes_cover(), vec![2, 3]);
    assert_eq!(ops.top_class(), (1, 3));
    assert_eq!(ops.union_cover(&(0, true)), 3);
    assert_eq!(ops.current, vec![(0, true)]);
    assert_eq!(ops.classes_cover(), vec![0, 3]);
    assert_eq!(ops.frequency_parts(), (3, 5));
    ops.union(&(1, true));
    assert_eq!(ops.current, vec![(0, true), (1, true)]);
    assert_eq!(ops.support(), 1);
    assert_eq!(ops.classes_cover(), vec![0, 1]);
}

#[test]
fn chunked_operator_keeps_a_held_support() {
    let data = DataChunked::data_chunked(sample(), "s".to_string()).unwrap();
    // A support held as up to date is returned as it is.
    let mut ops = ItemsetOpsChunked::new(vec![(0, true)], &data, Some(42), None, 5, true, 1);
    assert_eq!(ops.support(), 42);
    assert_eq!(ops.frequency_parts(), (42, 5));
    // Not up to date: recomputed from the full mask.
    let mut ops = ItemsetOpsChunked::new(vec![(0, true)], &data, Some(42), None, 5, false, 1);
    assert_eq!(ops.frequency_parts(), (3, 5));
}

#[test]
fn chunked_operator_over_two_chunks() {
    let data = DataChunked::data_chunked(seventy(), "s".to_string()).unwrap();
    let mut ops = ItemsetOpsChunked::new(vec![], &data, None, None, 70, false, 2);
    assert_eq!(ops.support(), 70);
    assert_eq!(ops.classes_cover(), vec![35, 35]);
    assert_eq!(ops.union_cover(&(0, true)), 24);
    assert_eq!(ops.union_cover(&(1, false)), 20);
    assert_eq!(ops.classes_cover(), vec![10, 10]);
    assert_eq!(ops.top_class(), (0, 10));
}

#[test]
fn class_supports_add_up_to_the_support() {
    let lines = seventy();
    let long = DataLong::data_to_long(lines.clone(), "s".to_string()).unwrap();
    let cols = ColumnData::data_as_it(lines, "s".to_string()).unwrap();
    let mut a = ItemsetOpsLong::new(&long);
    let mut b = ItemsetOps::new(&cols);
    for item in [(0, true), (1, false), (0, false)] {
        assert_eq!(a.classes_cover().iter().sum::<usize>(), a.support());
        assert_eq!(b.classes_cover().iter().sum::<usize>(), b.support());
        a.intersection_cover(&item);
        b.intersection_cover(&item);
    }
    assert_eq!(a.support(), 0);
    assert_eq!(a.classes_cover(), vec![0, 0]);
}
