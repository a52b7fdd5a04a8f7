use hands_on::is_there::{IsThere, URangeNode};
use hands_on::min_max::{MinMax, RangeNode};
use hands_on::segment::Range;

fn naive_max(vals: &[i32], start: usize, end: usize) -> i32 {
    *vals[start - 1..end].iter().max().unwrap()
}

#[test]
fn min_max_scenario() {
    let mut m = MinMax::new(vec![1, 2, 3, 4, 5]);
    assert_eq!(m.query_max(2, 3), 3);
    m.update_clamp(2, 3, 1);
    assert_eq!(m.query_max(2, 3), 1);
    assert_eq!(m.query_max(1, 5), 5);
}

#[test]
fn min_max_query_requests() {
    let mut m = MinMax::new(vec![1, 2, 3, 4, 5]);
    assert_eq!(m.query(1, 2, 3, 0), Some(3));
    assert_eq!(m.query(0, 2, 3, 1), Some(1));
    assert_eq!(m.query(1, 1, 5, 0), Some(5));
    assert_eq!(m.query(0, 1, 5, 2), Some(2));
    assert_eq!(m.query(1, 4, 4, 0), Some(2));
}

#[test]
fn min_max_single_element() {
    let mut m = MinMax::new(vec![7]);
    assert_eq!(m.len(), 1);
    assert_eq!(m.query_max(1, 1), 7);
    m.update_clamp(1, 1, 3);
    assert_eq!(m.query_max(1, 1), 3);
    m.update_clamp(1, 1, 10);
    assert_eq!(m.query_max(1, 1), 3);
}

#[test]
fn min_max_negative_values() {
    let mut m = MinMax::new(vec![-5, -1, -7]);
    assert_eq!(m.query_max(1, 3), -1);
    m.update_clamp(2, 2, -9);
    assert_eq!(m.query_max(1, 3), -5);
    assert_eq!(m.query_max(2, 3), -7);
}

#[test]
fn min_max_against_plain_array() {
    for n in 1..=17usize {
        let mut vals: Vec<i32> = (0..n).map(|i| ((i * 37 + 11) % 23) as i32 - 7).collect();
        let mut m = MinMax::new(vals.clone());
        assert_eq!(m.len(), n);
        let mut seed: usize = n;
        for _ in 0..60 {
            seed = (seed * 1103 + 12345) % 100003;
            let a = seed % n + 1;
            seed = (seed * 1103 + 12345) % 100003;
            let b = seed % n + 1;
            let (start, end) = if a <= b { (a, b) } else { (b, a) };
            if seed % 3 == 0 {
                let t = (seed % 19) as i32 - 9;
                m.update_clamp(start, end, t);
                for v in vals[start - 1..end].iter_mut() {
                    if *v > t {
                        *v = t;
                    }
                }
            }
            assert_eq!(m.query_max(start, end), naive_max(&vals, start, end));
        }
        for p in 1..=n {
            assert_eq!(m.query_max(p, p), vals[p - 1]);
        }
    }
}

#[test]
fn min_max_values_never_rise() {
    let mut m = MinMax::new(vec![9, 3, 8, 6, 7, 1]);
    let mut before: Vec<i32> = (1..=6).map(|p| m.query_max(p, p)).collect();
    for (start, end, t) in [(1, 4, 7), (3, 6, 9), (2, 5, 2), (1, 6, 5), (4, 4, 100)] {
        m.update_clamp(start, end, t);
        let after: Vec<i32> = (1..=6).map(|p| m.query_max(p, p)).collect();
        for p in 0..6 {
            assert!(after[p] <= before[p]);
        }
        before = after;
    }
    assert_eq!(before, vec![5, 2, 2, 2, 2, 1]);
}

#[test]
fn min_max_clamp_twice_same_as_once() {
    let mut once = MinMax::new(vec![4, 8, 1, 9, 5, 7, 3]);
    let mut twice = MinMax::new(vec![4, 8, 1, 9, 5, 7, 3]);
    once.update_clamp(2, 6, 5);
    twice.update_clamp(2, 6, 5);
    twice.update_clamp(2, 6, 5);
    for p in 1..=7 {
        assert_eq!(once.query_max(p, p), twice.query_max(p, p));
    }
    assert_eq!(once.query_max(1, 7), 5);
}

#[test]
fn is_there_scenario() {
    let mut h = IsThere::new(4);
    for p in 0..4 {
        assert!(h.query_has_count(p, p, 0));
    }
    h.update_increment(1, 2);
    assert_eq!(h.query_has_count(1, 1, 1), true);
    assert_eq!(h.query_has_count(1, 1, 0), false);
    assert_eq!(h.query_has_count(0, 0, 0), true);
    assert_eq!(h.query_has_count(0, 3, 1), true);
    assert_eq!(h.query_has_count(0, 3, 2), false);
}

#[test]
fn is_there_query_requests() {
    let mut h = IsThere::new(5);
    assert_eq!(h.query(0, 0, 2, 0), 0);
    assert_eq!(h.query(0, 1, 4, 0), 0);
    assert_eq!(h.query(1, 1, 2, 2), 1);
    assert_eq!(h.query(1, 0, 0, 2), 0);
    assert_eq!(h.query(1, 0, 0, 1), 1);
    assert_eq!(h.query(1, 3, 4, 0), 0);
}

#[test]
fn is_there_single_position() {
    let mut h = IsThere::new(1);
    assert_eq!(h.len(), 1);
    assert!(h.query_has_count(0, 0, 0));
    h.update_increment(0, 0);
    h.update_increment(0, 0);
    assert!(h.query_has_count(0, 0, 2));
    assert!(!h.query_has_count(0, 0, 1));
}

#[test]
fn is_there_exact_count() {
    let mut h = IsThere::new(6);
    let ranges = [(0, 1), (2, 2), (3, 5)];
    for &(s, e) in ranges.iter() {
        h.update_increment(s, e);
    }
    h.update_increment(2, 3);
    h.update_increment(2, 2);
    let counts = [1u128, 1, 3, 2, 1, 1];
    for p in 0..6 {
        for k in 0..8u128 {
            assert_eq!(h.query_has_count(p, p, k), k == counts[p]);
        }
    }
}

#[test]
fn is_there_against_plain_counts() {
    for n in 1..=13usize {
        let mut counts: Vec<u128> = vec![0; n];
        let mut h = IsThere::new(n as u128);
        assert_eq!(h.len(), n);
        let mut seed: usize = n + 7;
        for _ in 0..50 {
            seed = (seed * 1103 + 12345) % 100003;
            let a = seed % n;
            seed = (seed * 1103 + 12345) % 100003;
            let b = seed % n;
            let (start, end) = if a <= b { (a, b) } else { (b, a) };
            if seed % 2 == 0 {
                h.update_increment(start, end);
                for c in counts[start..=end].iter_mut() {
                    *c += 1;
                }
            } else {
                let k = (seed % 5) as u128;
                let expected = counts[start..=end].iter().any(|&c| c == k);
                assert_eq!(h.query_has_count(start, end, k), expected);
            }
        }
    }
}

#[test]
fn is_there_counts_past_the_width_are_lost() {
    let mut h = IsThere::new(2);
    for _ in 0..130 {
        h.update_increment(0, 0);
    }
    for k in [0u128, 1, 127] {
        assert!(!h.query_has_count(0, 0, k));
    }
    assert!(h.query_has_count(1, 1, 0));
    for _ in 0..127 {
        h.update_increment(1, 1);
    }
    assert!(h.query_has_count(0, 1, 127));
}

#[test]
fn nodes_clone_without_children() {
    let node = RangeNode { key: 4, range: Range::new(2, 5), id_left: Some(1), id_right: Some(2) };
    let copy = node.clone_node();
    assert_eq!(copy.key, 4);
    assert_eq!((copy.range.start, copy.range.end), (2, 5));
    assert!(copy.id_left.is_none() && copy.id_right.is_none());
    let unode = URangeNode { key: 6, range: Range::new(0, 3), id_left: Some(1), id_right: Some(4) };
    let ucopy = unode.clone_node();
    assert_eq!(ucopy.key, 6);
    assert_eq!((ucopy.range.start, ucopy.range.end), (0, 3));
    assert!(ucopy.id_left.is_none() && ucopy.id_right.is_none());
}
