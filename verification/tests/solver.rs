use held_karp::solver::{par_travel, set_to_num, travel};
use held_karp::DistanceMatrix;

#[test]
fn four_d() {
    let distances: Vec<u32> = vec![
        0, 2, 9, 0,
        1, 0, 6, 4,
        0, 7, 0, 8,
        6, 3, 0, 0,
    ];
    let w: DistanceMatrix = DistanceMatrix::new(4, distances);
    let result = travel(w).unwrap();
    assert_eq!(result.0, 21);
    assert_eq!(result.1, vec![0, 2, 3, 1, 0]);
}

#[test]
fn five_d() {
    let distances: Vec<u32> = vec![
        0, 1, 0, 1, 5,
        9, 0, 3, 2, 0,
        0, 0, 0, 4, 0,
        0, 0, 2, 0, 3,
        3, 0, 0, 0, 0,
    ];
    let w: DistanceMatrix = DistanceMatrix::new(5, distances);
    let result = travel(w).unwrap();
    assert_eq!(result.0, 14);
    assert_eq!(result.1, vec![0, 1, 2, 3, 4, 0]);
}

#[test]
fn invalid_distance_matrix_1() {
    let d: Vec<u32> = vec![0, 1];
    assert!(DistanceMatrix::try_new(2, d).is_none());
}

#[test]
fn invalid_distance_get() {
    let d: Vec<u32> = vec![
        0, 1,
        2, 0,
    ];
    let w: DistanceMatrix = DistanceMatrix::try_new(2, d).unwrap();
    assert!(w.try_get(2, 0).is_none());
}

#[test]
fn vec_to_bin1() {
    let mut vec_set: Vec<usize> = vec![4];
    let mut res = set_to_num(&vec_set);
    assert_eq!(16, res);
    vec_set = vec![1, 2, 3, 4];
    res = set_to_num(&vec_set);
    assert_eq!(30, res);
}

#[test]
fn set_to_num_empty() {
    let vec_set: Vec<usize> = vec![];
    assert_eq!(0, set_to_num(&vec_set));
}

#[test]
fn wikipedia_example() {
    let distances: Vec<u32> = vec![
        0, 2, 9, 10,
        1, 0, 6, 4,
        15, 7, 0, 8,
        6, 3, 12, 0,
    ];
    let w = DistanceMatrix::new(4, distances);
    let result = travel(w).unwrap();
    assert_eq!(result.0, 21);
    assert_eq!(result.1, vec![0, 2, 3, 1, 0]);
}

#[test]
fn two_nodes() {
    let w = DistanceMatrix::new(2, vec![0, 5, 7, 0]);
    let result = travel(w).unwrap();
    assert_eq!(result.0, 12);
    assert_eq!(result.1, vec![0, 1, 0]);
}

#[test]
fn diagonal_is_whatever_the_input_encodes() {
    // A zero on the diagonal decodes to "no edge", a nonzero value stays.
    let w = DistanceMatrix::new(2, vec![0, 5, 7, 3]);
    assert_eq!(w.get(0, 0), None);
    assert_eq!(w.get(1, 1), Some(3));
    assert_eq!(w.get(0, 1), Some(5));
    assert_eq!(w.get(1, 0), Some(7));
}

#[test]
fn infeasible_returns_none() {
    // No edges at all: no closed tour exists.
    let w = DistanceMatrix::new(3, vec![0, 0, 0, 0, 0, 0, 0, 0, 0]);
    assert!(travel(w).is_none());
}

#[test]
fn one_missing_edge_makes_it_infeasible() {
    // The only cycles through 3 nodes are 0-1-2-0 and 0-2-1-0; cutting one
    // edge of each leaves no tour.
    let w = DistanceMatrix::new(3, vec![0, 1, 0, 0, 0, 1, 0, 0, 0]);
    assert!(travel(w).is_none());
}

#[test]
fn three_nodes_exact() {
    let w = DistanceMatrix::new(3, vec![0, 1, 4, 2, 0, 1, 1, 3, 0]);
    let result = travel(w).unwrap();
    // 0 -> 1 -> 2 -> 0 costs 1 + 1 + 1 = 3; 0 -> 2 -> 1 -> 0 costs 4 + 3 + 2 = 9.
    assert_eq!(result.0, 3);
    assert_eq!(result.1, vec![0, 1, 2, 0]);
}

#[test]
fn repeated_calls_agree() {
    let distances: Vec<u32> = vec![
        0, 2, 9, 0,
        1, 0, 6, 4,
        0, 7, 0, 8,
        6, 3, 0, 0,
    ];
    let a = travel(DistanceMatrix::new(4, distances.clone())).unwrap();
    let b = travel(DistanceMatrix::new(4, distances)).unwrap();
    assert_eq!(a.0, b.0);
    assert_eq!(a.1, b.1);
}

#[test]
fn parallel_schedule_matches_sequential() {
    let cases: Vec<(usize, Vec<u32>)> = vec![
        (4, vec![0, 2, 9, 10, 1, 0, 6, 4, 15, 7, 0, 8, 6, 3, 12, 0]),
        (4, vec![0, 2, 9, 0, 1, 0, 6, 4, 0, 7, 0, 8, 6, 3, 0, 0]),
        (5, vec![0, 1, 0, 1, 5, 9, 0, 3, 2, 0, 0, 0, 0, 4, 0, 0, 0, 2, 0, 3, 3, 0, 0, 0, 0]),
        (3, vec![0, 0, 0, 0, 0, 0, 0, 0, 0]),
        (2, vec![0, 5, 7, 0]),
    ];
    for (n, distances) in cases {
        let seq = travel(DistanceMatrix::new(n, distances.clone()));
        let par = par_travel(DistanceMatrix::new(n, distances));
        assert_eq!(seq, par);
    }
}

/// Every permutation of `1..n` as a tour, priced by hand.
fn brute_force_best(n: usize, distances: &[u32]) -> Option<u64> {
    let edge = |i: usize, j: usize| -> Option<u64> {
        let raw = distances[i * n + j];
        if raw == 0 { None } else { Some(raw as u64) }
    };
    let mut rest: Vec<usize> = (1..n).collect();
    let mut best: Option<u64> = None;
    permute(&mut rest, 0, &mut |order: &[usize]| {
        let mut cost: Option<u64> = Some(0);
        let mut cur = 0usize;
        for &nxt in order {
            cost = match (cost, edge(cur, nxt)) {
                (Some(a), Some(b)) => Some(a + b),
                _ => None,
            };
            cur = nxt;
        }
        cost = match (cost, edge(cur, 0)) {
            (Some(a), Some(b)) => Some(a + b),
            _ => None,
        };
        if let Some(c) = cost {
            best = match best {
                None => Some(c),
                Some(b) => Some(b.min(c)),
            };
        }
    });
    best
}

fn permute(items: &mut Vec<usize>, k: usize, visit: &mut dyn FnMut(&[usize])) {
    if k == items.len() {
        visit(items);
    } else {
        for t in k..items.len() {
            items.swap(k, t);
            permute(items, k + 1, visit);
            items.swap(k, t);
        }
    }
}

#[test]
fn minimal_against_brute_force() {
    let cases: Vec<(usize, Vec<u32>)> = vec![
        (4, vec![0, 2, 9, 10, 1, 0, 6, 4, 15, 7, 0, 8, 6, 3, 12, 0]),
        (4, vec![0, 2, 9, 0, 1, 0, 6, 4, 0, 7, 0, 8, 6, 3, 0, 0]),
        (5, vec![0, 1, 0, 1, 5, 9, 0, 3, 2, 0, 0, 0, 0, 4, 0, 0, 0, 2, 0, 3, 3, 0, 0, 0, 0]),
        (6, vec![
            0, 3, 8, 2, 9, 4,
            3, 0, 5, 7, 1, 6,
            8, 5, 0, 4, 2, 7,
            2, 7, 4, 0, 6, 5,
            9, 1, 2, 6, 0, 3,
            4, 6, 7, 5, 3, 0,
        ]),
    ];
    for (n, distances) in cases {
        let expect = brute_force_best(n, &distances);
        let got = travel(DistanceMatrix::new(n, distances)).map(|r| r.0);
        assert_eq!(got, expect);
    }
}

#[test]
fn returned_path_prices_to_returned_cost() {
    let n = 6usize;
    let distances: Vec<u32> = vec![
        0, 3, 8, 2, 9, 4,
        3, 0, 5, 7, 1, 6,
        8, 5, 0, 4, 2, 7,
        2, 7, 4, 0, 6, 5,
        9, 1, 2, 6, 0, 3,
        4, 6, 7, 5, 3, 0,
    ];
    let w = DistanceMatrix::new(n, distances.clone());
    let (cost, path) = travel(w).unwrap();
    assert_eq!(path.len(), n + 1);
    assert_eq!(path[0], 0);
    assert_eq!(path[n], 0);
    let mut seen = vec![false; n];
    for &v in &path[..n] {
        assert!(!seen[v]);
        seen[v] = true;
    }
    assert!(seen.iter().all(|&b| b));
    let mut sum = 0u64;
    for t in 0..n {
        let raw = distances[path[t] * n + path[t + 1]];
        assert_ne!(raw, 0);
        sum += raw as u64;
    }
    assert_eq!(sum, cost);
}

#[test]
fn try_new_accepts_a_square_input() {
    let w = DistanceMatrix::try_new(2, vec![0, 1, 2, 0]).unwrap();
    assert_eq!(w.size, 2);
    assert_eq!(w.try_get(0, 1), Some(Some(1)));
    assert_eq!(w.try_get(1, 1), Some(None));
}
