use dl85::cache::trie::Trie;
use dl85::data::dt::Data as ColumnData;
use dl85::data::dt_longed::DataLong;
use dl85::dl85::basic_dl85::{SearchHeuristics, DL85};
use dl85::mining::its_ops::ItemsetOps;
use dl85::mining::its_ops_long::ItemsetOpsLong;
use dl85::timing::TimeLimit;

struct Quiet;

impl SearchHeuristics for Quiet {
    fn information_gain_rank(&self, _a: &Vec<usize>, left: &Vec<usize>, _n: usize) -> u64 {
        (left[0] * 7 + left[1] * 3) as u64
    }
    fn record_current_error(&self, _e: u64) {}
}

struct Lcg(u64);

impl Lcg {
    fn next(&mut self) -> u64 {
        self.0 = self.0.wrapping_mul(6364136223846793005).wrapping_add(1442695040888963407);
        self.0 >> 33
    }
}

fn random_lines(seed: u64, n: usize, nattr: usize) -> Vec<String> {
    let mut g = Lcg(seed);
    let mut lines = vec![];
    for t in 0..n {
        let class = if t < 2 { t } else { (g.next() % 2) as usize };
        let mut line = format!("{}", class);
        for _ in 0..nattr {
            line.push_str(if g.next() % 3 == 0 { " 1" } else { " 0" });
        }
        lines.push(line);
    }
    lines
}

fn parse(lines: &[String]) -> Vec<(usize, Vec<bool>)> {
    lines
        .iter()
        .map(|l| {
            let toks: Vec<&str> = l.split_ascii_whitespace().collect();
            (toks[0].parse().unwrap(), toks[1..].iter().map(|x| *x == "1").collect())
        })
        .collect()
}

/// The smallest error of a tree, by trying every tree: a leaf predicts its
/// first largest class; below the root, the leaf is always a candidate; the
/// root has no leaf of its own.
fn exhaustive(rows: &[(usize, Vec<bool>)], items: &mut Vec<(usize, bool)>, maxd: usize, ms: usize, nattr: usize, root: bool) -> u64 {
    let cover: Vec<&(usize, Vec<bool>)> =
        rows.iter().filter(|(_, a)| items.iter().all(|(i, v)| a[*i] == *v)).collect();
    let mut counts = [0usize; 2];
    for (c, _) in &cover {
        counts[*c] += 1;
    }
    let leaf = (counts[0] + counts[1] - counts[0].max(counts[1])) as u64;
    let lam = if root { u64::MAX } else { leaf };
    if items.len() >= maxd || cover.len() < 2 * ms {
        return lam;
    }
    if lam == 0 {
        return 0;
    }
    let mut best: Option<u64> = None;
    for a in 0..nattr {
        let left = cover.iter().filter(|(_, x)| !x[a]).count();
        let right = cover.len() - left;
        if left >= ms && right >= ms {
            items.push((a, false));
            let l = exhaustive(rows, items, maxd, ms, nattr, false);
            items.pop();
            items.push((a, true));
            let r = exhaustive(rows, items, maxd, ms, nattr, false);
            items.pop();
            let e = l + r;
            best = Some(match best {
                Some(b) if b <= e => b,
                _ => e,
            });
        }
    }
    best.unwrap_or(lam)
}

#[test]
fn search_error_is_the_exhaustive_optimum() {
    let limit = TimeLimit { secs: None, final_millis: u128::MAX };
    for seed in 0..12u64 {
        let n = 6 + (seed as usize % 5) * 5;
        let nattr = 2 + (seed as usize % 3);
        let lines = random_lines(seed + 1, n, nattr);
        let rows = parse(&lines);
        for maxd in 1..=3u64 {
            for ms in 1..=3u64 {
                let expected = exhaustive(&rows, &mut vec![], maxd as usize, ms as usize, nattr, true);
                for info_gain in [false, true] {
                    let long = DataLong::data_to_long(lines.clone(), "r".to_string()).unwrap();
                    let ops = ItemsetOpsLong::new(&long);
                    let mut algo = DL85::new((n, nattr, 2));
                    let out = algo.run(ms, maxd, u64::MAX, &limit, info_gain, false, None, None, false, ops, Trie::new(), &Quiet);
                    assert_eq!(out.0.root.data.node_error, expected, "seed {} depth {} support {}", seed, maxd, ms);
                    assert_eq!(out.2.node_error, expected);

                    let cols = ColumnData::data_as_it(lines.clone(), "r".to_string()).unwrap();
                    let ops = ItemsetOps::new(&cols);
                    let mut algo = DL85::new((n, nattr, 2));
                    let out = algo.run(ms, maxd, u64::MAX, &limit, info_gain, false, None, None, false, ops, Trie::new(), &Quiet);
                    assert_eq!(out.2.node_error, expected);
                }
            }
        }
    }
}

#[test]
fn an_upper_bound_above_the_optimum_keeps_it() {
    let limit = TimeLimit { secs: None, final_millis: u128::MAX };
    let lines = random_lines(99, 20, 3);
    let rows = parse(&lines);
    let expected = exhaustive(&rows, &mut vec![], 2, 1, 3, true);
    let long = DataLong::data_to_long(lines.clone(), "r".to_string()).unwrap();
    let ops = ItemsetOpsLong::new(&long);
    let mut algo = DL85::new((20, 3, 2));
    let out = algo.run(1, 2, expected + 1, &limit, false, false, None, None, false, ops, Trie::new(), &Quiet);
    assert_eq!(out.2.node_error, expected);
    // At or below the optimum, no tree is reported better than it.
    let ops = ItemsetOpsLong::new(&long);
    let mut algo = DL85::new((20, 3, 2));
    let out = algo.run(1, 2, expected, &limit, false, false, None, None, false, ops, Trie::new(), &Quiet);
    assert!(out.2.node_error == u64::MAX || out.2.node_error >= expected);
}

#[test]
fn no_mode_reports_a_tree_better_than_the_optimum() {
    let no_limit = TimeLimit { secs: None, final_millis: u128::MAX };
    let at_once = TimeLimit { secs: Some(0), final_millis: 0 };
    for seed in 0..8u64 {
        let n = 8 + (seed as usize % 4) * 5;
        let nattr = 2 + (seed as usize % 3);
        let lines = random_lines(seed + 7, n, nattr);
        let rows = parse(&lines);
        for maxd in 1..=3u64 {
            for ms in 1..=2u64 {
                let expected = exhaustive(&rows, &mut vec![], maxd as usize, ms as usize, nattr, true);
                let long = DataLong::data_to_long(lines.clone(), "r".to_string()).unwrap();
                let sound = |e: u64| e == u64::MAX || e >= expected;

                // A limited discrepancy search, where its discrepancies can be counted.
                let mut probe = ItemsetOpsLong::new(&long);
                let algo = DL85::new((n, nattr, 2));
                let ncand = algo.root_candidate_list(&mut probe, ms).len();
                if DL85::discrepancy_fits(ncand, maxd) {
                    let mut algo = DL85::new((n, nattr, 2));
                    let out = algo.run(ms, maxd, u64::MAX, &no_limit, false, true, None, None, false, ItemsetOpsLong::new(&long), Trie::new(), &Quiet);
                    assert!(sound(out.2.node_error), "discrepancy, seed {} depth {}", seed, maxd);
                    assert_eq!(out.2.node_error, expected);
                }
                for calls in 1..4usize {
                    let mut algo = DL85::new((n, nattr, 2));
                    let out = algo.run(ms, maxd, u64::MAX, &no_limit, true, false, None, Some(calls), false, ItemsetOpsLong::new(&long), Trie::new(), &Quiet);
                    assert!(sound(out.2.node_error), "{} calls, seed {} depth {}", calls, seed, maxd);
                }
                let mut algo = DL85::new((n, nattr, 2));
                let out = algo.run(ms, maxd, u64::MAX, &no_limit, false, false, None, None, true, ItemsetOpsLong::new(&long), Trie::new(), &Quiet);
                assert!(sound(out.2.node_error));
                let mut algo = DL85::new((n, nattr, 2));
                let out = algo.run(ms, maxd, u64::MAX, &at_once, false, false, None, None, false, ItemsetOpsLong::new(&long), Trie::new(), &Quiet);
                assert!(sound(out.2.node_error));
            }
        }
    }
}

fn tree_error_and_depth(t: &dl85::tree::Tree) -> (u64, u64) {
    if t.is_leaf {
        (t.error.unwrap(), 0)
    } else {
        let (el, dl) = tree_error_and_depth(&t.left[0]);
        let (er, dr) = tree_error_and_depth(&t.right[0]);
        (el.saturating_add(er), 1 + dl.max(dr))
    }
}

#[test]
fn a_readable_tree_has_the_root_error_and_the_depth_bound() {
    let limit = TimeLimit { secs: None, final_millis: u128::MAX };
    let mut bad = vec![];
    for seed in 0..60u64 {
        let n = 6 + (seed as usize % 7) * 4;
        let nattr = 2 + (seed as usize % 4);
        let lines = random_lines(seed + 101, n, nattr);
        for maxd in 1..=4u64 {
            for ms in 1..=2u64 {
                for info_gain in [false, true] {
                    let long = DataLong::data_to_long(lines.clone(), "r".to_string()).unwrap();
                    let mut algo = DL85::new((n, nattr, 2));
                    let out = algo.run(ms, maxd, u64::MAX, &limit, info_gain, false, None, None, false, ItemsetOpsLong::new(&long), Trie::new(), &Quiet);
                    let root_err = out.0.root.data.node_error;
                    if !dl85::solution::solution::solution_readable(&out.0) {
                        continue;
                    }
                    let (tree, _) = dl85::solution::solution::get_solution_tree(out.0);
                    if tree.root == usize::MAX {
                        continue;
                    }
                    let (el, dl) = tree_error_and_depth(&tree.left[0]);
                    let (er, dr) = tree_error_and_depth(&tree.right[0]);
                    if el.saturating_add(er) != root_err || 1 + dl.max(dr) > maxd {
                        bad.push(format!("seed {} depth {} support {}", seed, maxd, ms));
                    }
                }
            }
        }
    }
    assert!(bad.is_empty(), "{:?}", bad);
}

#[test]
fn a_plain_search_can_leave_a_tree_that_cannot_be_read() {
    // A record below the root tests the attribute of an item that is not the
    // last of its itemset in order, and reading descends on that attribute
    // again, to an itemset the cache does not hold.
    let limit = TimeLimit { secs: None, final_millis: u128::MAX };
    let lines: Vec<String> = ["0 0 1 0", "1 0 0 0", "0 0 1 0", "0 1 0 1", "1 0 0 1", "0 1 0 1", "1 1 0 1", "0 0 0 0", "0 0 0 0", "0 1 0 1"]
        .iter()
        .map(|l| l.to_string())
        .collect();
    let long = DataLong::data_to_long(lines, "u".to_string()).unwrap();
    let mut algo = DL85::new((10, 3, 2));
    let out = algo.run(1, 3, u64::MAX, &limit, true, false, None, None, false, ItemsetOpsLong::new(&long), Trie::new(), &Quiet);
    assert!(out.0.is_done);
    assert!(!dl85::solution::solution::solution_readable(&out.0));
}
