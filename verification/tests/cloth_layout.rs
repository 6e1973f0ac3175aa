use cloth_sim::cloth::{Cloth, Spring};
use std::collections::HashSet;

fn spring(a: (usize, usize), b: (usize, usize)) -> Spring {
    Spring { p1: a, p2: b }
}

#[test]
fn new_two_by_three_springs_in_order() {
    let c = Cloth::new(2, 3);
    assert_eq!(c.rows, 2);
    assert_eq!(c.cols, 3);
    let expected = vec![
        spring((0, 0), (1, 0)),
        spring((0, 0), (0, 1)),
        spring((0, 1), (1, 1)),
        spring((0, 1), (0, 2)),
        spring((0, 2), (1, 2)),
        spring((1, 0), (1, 1)),
        spring((1, 1), (1, 2)),
    ];
    assert_eq!(c.springs, expected);
}

#[test]
fn new_anchors_the_top_corners() {
    let c = Cloth::new(2, 3);
    assert_eq!(c.fixed, vec![vec![false, false, false], vec![true, false, true]]);
    let big = Cloth::new(20, 20);
    let anchored: Vec<(usize, usize)> = (0..20)
        .flat_map(|i| (0..20).map(move |j| (i, j)))
        .filter(|&(i, j)| big.fixed[i][j])
        .collect();
    assert_eq!(anchored, vec![(19, 0), (19, 19)]);
}

#[test]
fn new_single_particle() {
    let c = Cloth::new(1, 1);
    assert_eq!(c.fixed, vec![vec![true]]);
    assert!(c.springs.is_empty());
}

#[test]
fn new_single_column_anchors_one_particle() {
    let c = Cloth::new(3, 1);
    assert_eq!(c.fixed, vec![vec![false], vec![false], vec![true]]);
    assert_eq!(c.springs, vec![spring((0, 0), (1, 0)), spring((1, 0), (2, 0))]);
}

#[test]
fn new_single_row() {
    let c = Cloth::new(1, 3);
    assert_eq!(c.fixed, vec![vec![true, false, true]]);
    assert_eq!(c.springs, vec![spring((0, 0), (0, 1)), spring((0, 1), (0, 2))]);
}

#[test]
fn springs_are_the_grid_edges_once_each() {
    for &(n, m) in &[(1, 1), (2, 2), (4, 7), (20, 20)] {
        let c = Cloth::new(n, m);
        assert_eq!(c.springs.len(), (n - 1) * m + n * (m - 1));
        let mut seen = HashSet::new();
        for s in &c.springs {
            assert!(seen.insert((s.p1, s.p2)));
            let up = s.p1.0 + 1 == s.p2.0 && s.p1.1 == s.p2.1;
            let right = s.p1.0 == s.p2.0 && s.p1.1 + 1 == s.p2.1;
            assert!(up || right);
            assert!(s.p2.0 < n && s.p2.1 < m);
        }
        for i in 0..n {
            for j in 0..m {
                if i + 1 < n {
                    assert!(seen.contains(&((i, j), (i + 1, j))));
                }
                if j + 1 < m {
                    assert!(seen.contains(&((i, j), (i, j + 1))));
                }
            }
        }
    }
}
