use dl85::cache::trie::{Trie, TrieEdges, TrieNode};
use dl85::cli::{default_bool, default_log_error, default_option};
use dl85::data::dt::Data as ColumnData;
use dl85::data::dt_longed::DataLong;
use dl85::dl85::basic_dl85::{SearchHeuristics, DL85};
use dl85::mining::its_ops::ItemsetOps;
use dl85::mining::its_ops_long::ItemsetOpsLong;
use dl85::mining::sort_items;
use dl85::node::node::Node;
use dl85::solution::solution::get_solution_tree;
use dl85::timing::TimeLimit;
use dl85::tree::Tree;
use std::cell::RefCell;

struct Recorder {
    errors: RefCell<Vec<u64>>,
}

impl SearchHeuristics for Recorder {
    fn information_gain_rank(&self, _actual: &Vec<usize>, left: &Vec<usize>, _nclasses: usize) -> u64 {
        // Prefer splits that send more transactions of class 0 to the left.
        left[0] as u64
    }

    fn record_current_error(&self, error: u64) {
        self.errors.borrow_mut().push(error);
    }
}

fn recorder() -> Recorder {
    Recorder { errors: RefCell::new(vec![]) }
}

fn sample() -> Vec<String> {
    vec![
        "1 1 0".to_string(),
        "0 0 1".to_string(),
        "1 1 1".to_string(),
        "0 0 0".to_string(),
        "1 1 0".to_string(),
    ]
}

fn xor_lines() -> Vec<String> {
    // The class is the exclusive or of the two attributes.
    vec![
        "0 0 0".to_string(),
        "1 0 1".to_string(),
        "1 1 0".to_string(),
        "0 1 1".to_string(),
        "0 0 0".to_string(),
        "0 1 1".to_string(),
    ]
}

fn no_limit() -> TimeLimit {
    TimeLimit { secs: None, final_millis: u128::MAX }
}

#[test]
fn cli_defaults() {
    assert_eq!(default_log_error(), -1);
    assert!(!default_bool());
    assert_eq!(default_option(), None);
}

#[test]
fn fresh_nodes_and_tries() {
    let n = Node::new(3, 2);
    assert_eq!(n.test, 3);
    assert_eq!(n.current_depth, 2);
    assert_eq!(n.node_error, u64::MAX);
    assert_eq!(n.leaf_error, u64::MAX);
    assert_eq!(n.lower_bound, 0);
    assert_eq!(n.max_class, usize::MAX);
    assert!(!n.is_explored && !n.is_leaf);
    assert_eq!(n.current_discrepancy, None);
    assert!(TrieEdges::new().edges.is_empty());
    let t = TrieNode::new((4, true));
    assert_eq!(t.item, (4, true));
    assert!(t.is_new);
    assert_eq!(t.data.test, 4);
    let trie = Trie::new();
    assert_eq!(trie.root.item, (usize::MAX, false));
    assert_eq!(trie.cachesize, 0);
    assert!(!trie.is_done && !trie.has_timeout);
    assert_eq!(trie.recursion_count, 0);
}

#[test]
fn insert_then_get() {
    let mut trie = Trie::new();
    let key = vec![(0, true), (1, false)];
    {
        let node = trie.insert(&key);
        assert_eq!(node.item, (1, false));
        assert!(node.is_new);
        assert_eq!(node.data.test, 1);
    }
    assert_eq!(trie.cachesize, 2);
    assert!(trie.get(&vec![(0, true)]).is_some());
    assert!(trie.get(&vec![(1, false)]).is_none());
    assert_eq!(trie.get(&key).unwrap().item, (1, false));
    assert_eq!(trie.get(&vec![]).unwrap().item, (usize::MAX, false));
    // Inserting a held itemset adds nothing.
    trie.insert(&key);
    trie.insert(&vec![(0, true)]);
    assert_eq!(trie.cachesize, 2);
    trie.insert(&vec![(1, false)]);
    assert_eq!(trie.cachesize, 3);
}

#[test]
fn update_then_get_gives_the_record() {
    let mut trie = Trie::new();
    let key = vec![(2, false)];
    trie.insert(&key);
    let other = vec![(3, true)];
    trie.insert(&other);
    let mut data = Node::new(7, 1);
    data.node_error = 4;
    data.leaf_error = 5;
    data.max_class = 1;
    assert!(trie.update(&key, data));
    let got = trie.get(&key).unwrap();
    assert!(!got.is_new);
    assert_eq!(got.data.node_error, 4);
    assert_eq!(got.data.leaf_error, 5);
    assert_eq!(got.data.test, 7);
    let untouched = trie.get(&other).unwrap();
    assert!(untouched.is_new);
    assert_eq!(untouched.data.node_error, u64::MAX);
    assert_eq!(trie.cachesize, 2);

    assert!(trie.set_node_exploration_status(&key, true));
    let got = trie.get(&key).unwrap();
    assert!(got.data.is_explored);
    assert_eq!(got.data.node_error, 4);
    assert!(!got.is_new);
}

#[test]
fn sort_items_orders_by_attribute_then_value() {
    let mut v = vec![(3, true), (1, true), (3, false), (0, false)];
    sort_items(&mut v);
    assert_eq!(v, vec![(0, false), (1, true), (3, false), (3, true)]);
    let mut e: Vec<(usize, bool)> = vec![];
    sort_items(&mut e);
    assert!(e.is_empty());
}

#[test]
fn discrepancy_fits() {
    assert!(!DL85::discrepancy_fits(0, 1));
    assert!(!DL85::discrepancy_fits(2, 3));
    assert!(DL85::discrepancy_fits(3, 2));
    assert!(DL85::discrepancy_fits(1, 0));
}

#[test]
fn root_candidates_keep_attributes_with_support_on_both_sides() {
    let lines = vec!["1 1 0".to_string(), "0 1 1".to_string(), "1 1 0".to_string()];
    let data = DataLong::data_to_long(lines, "c".to_string()).unwrap();
    let mut ops = ItemsetOpsLong::new(&data);
    let algo = DL85::new((3, 2, 2));
    // Attribute 0 is true on every transaction.
    assert_eq!(algo.root_candidate_list(&mut ops, 1), vec![0, 1]);
    assert_eq!(algo.root_candidate_list(&mut ops, 2), vec![]);
    let lines = vec!["1 1 0".to_string(), "0 0 1".to_string(), "1 1 0".to_string(), "1 0 1".to_string()];
    let data = DataLong::data_to_long(lines, "c".to_string()).unwrap();
    let mut ops = ItemsetOpsLong::new(&data);
    let algo = DL85::new((4, 2, 2));
    assert_eq!(algo.root_candidate_list(&mut ops, 2), vec![0, 1]);
    assert_eq!(algo.root_candidate_list(&mut ops, 3), vec![]);
}

fn leaf(t: &Tree) -> (usize, Option<u64>) {
    assert!(t.is_leaf);
    assert!(t.left.is_empty() && t.right.is_empty());
    (t.max_class, t.error)
}

#[test]
fn search_finds_a_perfect_split() {
    let data = DataLong::data_to_long(sample(), "s".to_string()).unwrap();
    let ops = ItemsetOpsLong::new(&data);
    let rec = recorder();
    let mut algo = DL85::new((5, 2, 2));
    let out = algo.run(1, 2, u64::MAX, &no_limit(), false, false, None, None, false, ops, Trie::new(), &rec);
    let cache = out.0;
    assert!(cache.is_done);
    assert!(!cache.has_timeout);
    assert_eq!(cache.root.data.node_error, 0);
    assert_eq!(cache.root.data.test, 0);
    assert_eq!(out.2.node_error, 0);
    assert_eq!(out.2.test, 0);
    assert!(!rec.errors.borrow().is_empty());
    let (tree, cache) = get_solution_tree(cache);
    assert_eq!(cache.root.data.test, 0);
    assert_eq!(tree.root, 0);
    assert!(!tree.is_leaf);
    assert_eq!(tree.error, None);
    assert_eq!(leaf(&tree.left[0]), (0, Some(0)));
    assert_eq!(leaf(&tree.right[0]), (1, Some(0)));
}

#[test]
fn search_needs_depth_two_for_xor() {
    let data = ColumnData::data_as_it(xor_lines(), "x".to_string()).unwrap();
    let rec = recorder();

    let ops = ItemsetOps::new(&data);
    let mut algo = DL85::new((6, 2, 2));
    let out = algo.run(1, 1, u64::MAX, &no_limit(), false, false, None, None, false, ops, Trie::new(), &rec);
    // One test leaves half of each side misclassified.
    assert!(out.0.root.data.node_error >= 2);

    let ops = ItemsetOps::new(&data);
    let mut algo = DL85::new((6, 2, 2));
    let out = algo.run(1, 2, u64::MAX, &no_limit(), true, false, None, None, false, ops, Trie::new(), &rec);
    assert_eq!(out.0.root.data.node_error, 0);
    let (tree, _) = get_solution_tree(out.0);
    assert!(!tree.is_leaf);
    let left = &tree.left[0];
    let right = &tree.right[0];
    assert!(!left.is_leaf && !right.is_leaf);
    assert_eq!(left.left[0].error, Some(0));
    assert_eq!(left.right[0].error, Some(0));
    assert_eq!(right.left[0].error, Some(0));
    assert_eq!(right.right[0].error, Some(0));
}

#[test]
fn discrepancy_search_reaches_the_same_error() {
    let data = DataLong::data_to_long(sample(), "s".to_string()).unwrap();
    let ops = ItemsetOpsLong::new(&data);
    let rec = recorder();
    let mut algo = DL85::new((5, 2, 2));
    let out = algo.run(1, 2, u64::MAX, &no_limit(), false, true, None, None, false, ops, Trie::new(), &rec);
    assert_eq!(out.0.root.data.node_error, 0);
    // Two candidates down to depth two: discrepancies 1 + 0.
    assert_eq!(out.0.max_discrepancy, Some(1));
    assert!(out.0.discrepancy.is_some());
}

#[test]
fn recursion_limit_stops_the_search() {
    let data = DataLong::data_to_long(xor_lines(), "x".to_string()).unwrap();
    let ops = ItemsetOpsLong::new(&data);
    let rec = recorder();
    let mut algo = DL85::new((6, 2, 2));
    let out = algo.run(1, 2, u64::MAX, &no_limit(), false, false, None, Some(1), false, ops, Trie::new(), &rec);
    assert_eq!(out.0.recursion_count, 1);
}

#[test]
fn a_search_without_a_test_yields_the_lone_node() {
    let trie = Trie::new();
    let (tree, back) = get_solution_tree(trie);
    assert_eq!(tree.root, usize::MAX);
    assert!(tree.left.is_empty() && tree.right.is_empty());
    assert!(!tree.is_leaf);
    assert_eq!(back.cachesize, 0);
}

#[test]
fn a_finished_search_reports_a_timeout_past_the_final_millis() {
    let data = DataLong::data_to_long(sample(), "s".to_string()).unwrap();
    let ops = ItemsetOpsLong::new(&data);
    let rec = recorder();
    let mut algo = DL85::new((5, 2, 2));
    let limit = TimeLimit { secs: Some(1000), final_millis: 0 };
    let out = algo.run(1, 2, u64::MAX, &limit, false, false, None, None, false, ops, Trie::new(), &rec);
    assert!(out.0.has_timeout);
}

#[test]
fn a_search_without_a_time_limit_never_reports_a_timeout() {
    let data = DataLong::data_to_long(sample(), "s".to_string()).unwrap();
    let rec = recorder();
    let limit = TimeLimit { secs: None, final_millis: 0 };
    let mut algo = DL85::new((5, 2, 2));
    let out = algo.run(1, 2, u64::MAX, &limit, false, false, None, None, false, ItemsetOpsLong::new(&data), Trie::new(), &rec);
    assert!(!out.0.has_timeout);
    let mut algo = DL85::new((5, 2, 2));
    let out = algo.run(1, 2, u64::MAX, &limit, false, true, None, None, false, ItemsetOpsLong::new(&data), Trie::new(), &rec);
    assert!(!out.0.has_timeout);
}

#[test]
fn the_time_limit_counts_whole_seconds_past_the_limit() {
    let limit = TimeLimit { secs: Some(2), final_millis: 2000 };
    assert!(!limit.is_exceeded(2));
    assert!(limit.is_exceeded(3));
    let none = TimeLimit { secs: None, final_millis: 0 };
    assert!(!none.is_exceeded(u64::MAX));
}

fn four_rows(classes: [usize; 4]) -> Vec<String> {
    // Rows (a0, a1): (1,1), (1,0), (0,1), (0,0).
    let attrs = ["1 1", "1 0", "0 1", "0 0"];
    (0..4).map(|i| format!("{} {}", classes[i], attrs[i])).collect()
}

#[test]
fn a_pure_split_is_recorded_at_the_root() {
    // Attribute 0 separates the classes; attribute 1 would cost two errors.
    let data = DataLong::data_to_long(four_rows([1, 1, 0, 0]), "p".to_string()).unwrap();
    let rec = recorder();
    let mut algo = DL85::new((4, 2, 2));
    let out = algo.run(1, 1, u64::MAX, &no_limit(), false, false, None, None, false, ItemsetOpsLong::new(&data), Trie::new(), &rec);
    assert_eq!(out.2.node_error, 0);
    assert_eq!(out.2.test, 0);
    assert_eq!(out.0.root.data.node_error, 0);
    assert_eq!(out.0.root.data.test, 0);
    assert!(out.0.is_done);
}

#[test]
fn a_tie_keeps_the_first_attribute() {
    // Exclusive or over four rows: every one-test tree errs on two rows.
    let data = DataLong::data_to_long(four_rows([0, 1, 1, 0]), "x".to_string()).unwrap();
    let rec = recorder();
    let mut algo = DL85::new((4, 2, 2));
    let out = algo.run(1, 1, u64::MAX, &no_limit(), false, false, None, None, false, ItemsetOpsLong::new(&data), Trie::new(), &rec);
    assert_eq!(out.2.node_error, 2);
    assert_eq!(out.2.test, 0);
    assert_eq!(out.0.root.data.node_error, 2);
    assert!(out.0.is_done);
}

#[test]
fn no_tree_under_the_bound_leaves_none_at_the_root() {
    let data = DataLong::data_to_long(four_rows([0, 1, 1, 0]), "x".to_string()).unwrap();
    let rec = recorder();
    let mut algo = DL85::new((4, 2, 2));
    let out = algo.run(1, 1, 2, &no_limit(), false, false, None, None, false, ItemsetOpsLong::new(&data), Trie::new(), &rec);
    assert_eq!(out.2.node_error, u64::MAX);
    assert_eq!(out.2.test, usize::MAX);
    assert_eq!(out.0.root.data.node_error, u64::MAX);
    let (tree, _) = get_solution_tree(out.0);
    assert_eq!(tree.root, usize::MAX);
    assert_eq!(tree.max_class, 0);
}

#[test]
fn a_limited_call_count_stores_the_leaf_error() {
    let data = DataLong::data_to_long(xor_lines(), "x".to_string()).unwrap();
    let rec = recorder();
    let mut algo = DL85::new((6, 2, 2));
    let out = algo.run(1, 2, u64::MAX, &no_limit(), false, false, None, Some(1), false, ItemsetOpsLong::new(&data), Trie::new(), &rec);
    assert!(out.0.recursion_count >= 1);
}

#[test]
fn at_depth_two_exclusive_or_is_separated_by_the_first_attribute() {
    let data = DataLong::data_to_long(four_rows([0, 1, 1, 0]), "x".to_string()).unwrap();
    let rec = recorder();
    let mut algo = DL85::new((4, 2, 2));
    let out = algo.run(1, 2, u64::MAX, &no_limit(), false, false, None, None, false, ItemsetOpsLong::new(&data), Trie::new(), &rec);
    assert_eq!(out.2.node_error, 0);
    assert_eq!(out.0.root.data.node_error, 0);
    assert_eq!(out.0.root.data.test, 0);
    assert!(same_record(&out.2, &out.0.root.data));
}

#[test]
fn a_discrepancy_search_stops_at_error_zero_or_the_budget() {
    let rec = recorder();
    for lines in [sample(), xor_lines()] {
        let data = DataLong::data_to_long(lines, "d".to_string()).unwrap();
        let mut algo = DL85::new((data.ntransactions, data.nattributes, data.nclasses));
        let out = algo.run(1, 2, u64::MAX, &no_limit(), false, true, None, None, false, ItemsetOpsLong::new(&data), Trie::new(), &rec);
        assert!(out.0.discrepancy == out.0.max_discrepancy || out.0.has_timeout || out.0.root.data.node_error == 0);
        assert!(same_record(&out.2, &out.0.root.data));
    }
}

#[test]
fn the_call_count_never_passes_the_limit() {
    let rec = recorder();
    for limit in 1..6usize {
        let data = DataLong::data_to_long(xor_lines(), "x".to_string()).unwrap();
        let mut algo = DL85::new((6, 2, 2));
        let out = algo.run(1, 2, u64::MAX, &no_limit(), false, false, None, Some(limit), false, ItemsetOpsLong::new(&data), Trie::new(), &rec);
        assert!(out.0.recursion_count <= limit);
        assert!(same_record(&out.2, &out.0.root.data));
    }
}

fn same_record(a: &Node, b: &Node) -> bool {
    a.is_explored == b.is_explored
        && a.current_depth == b.current_depth
        && a.test == b.test
        && a.leaf_error == b.leaf_error
        && a.current_discrepancy == b.current_discrepancy
        && a.node_error == b.node_error
        && a.lower_bound == b.lower_bound
        && a.max_class == b.max_class
        && a.is_leaf == b.is_leaf
}

#[test]
fn a_discrepancy_search_searches_once_per_discrepancy() {
    let rec = recorder();
    let data = DataLong::data_to_long(xor_lines(), "x".to_string()).unwrap();
    let mut algo = DL85::new((6, 2, 2));
    let out = algo.run(1, 2, u64::MAX, &no_limit(), false, true, None, None, false, ItemsetOpsLong::new(&data), Trie::new(), &rec);
    let d = out.0.discrepancy.unwrap();
    assert!(out.0.recursion_count >= d + 1);
}
