use cloth_sim::cloth::{Cloth, Spring};
use cloth_sim::grid::{flat_index, flatten_points};
use cloth_sim::picking::{closest_point, Grab};
use cloth_sim::render::spring_line_indices;

#[test]
fn line_indices_of_one_spring() {
    let s = [Spring { p1: (1, 2), p2: (2, 2) }];
    assert_eq!(spring_line_indices(&s, 20), vec![22, 42]);
}

#[test]
fn line_indices_address_the_endpoints() {
    let c = Cloth::new(20, 20);
    let idx = spring_line_indices(&c.springs, 20);
    assert_eq!(idx.len(), 2 * c.springs.len());
    assert_eq!(&idx[..4], &[0, 20, 0, 1]);
    let cells: Vec<Vec<(usize, usize)>> =
        (0..20).map(|i| (0..20).map(|j| (i, j)).collect()).collect();
    let vertices = flatten_points(&cells);
    for (k, s) in c.springs.iter().enumerate() {
        assert_eq!(vertices[idx[2 * k] as usize], s.p1);
        assert_eq!(vertices[idx[2 * k + 1] as usize], s.p2);
        assert_eq!(idx[2 * k] as usize, flat_index(s.p1.0, s.p1.1, 20));
    }
}

#[test]
fn line_indices_cut_coordinates_to_sixteen_bits() {
    let s = [Spring { p1: (0, 65536 + 3), p2: (1, 0) }];
    assert_eq!(spring_line_indices(&s, 65536 + 5), vec![3, 5]);
}

#[test]
fn closest_point_takes_the_smallest_key() {
    let keys = vec![vec![9, 4, 7], vec![5, 3, 8]];
    assert_eq!(closest_point(&keys), Some((1, 1)));
}

#[test]
fn closest_point_takes_the_first_of_equal_keys() {
    let keys = vec![vec![3, 1], vec![1, 0], vec![0]];
    assert_eq!(closest_point(&keys), Some((1, 1)));
    let flat = vec![vec![2, 2, 2]];
    assert_eq!(closest_point(&flat), Some((0, 0)));
    let neg = vec![vec![], vec![i32::MAX, i32::MIN, i32::MIN]];
    assert_eq!(closest_point(&neg), Some((1, 1)));
}

#[test]
fn closest_point_of_no_cells_is_none() {
    assert_eq!(closest_point(&vec![]), None);
    assert_eq!(closest_point(&vec![vec![], vec![]]), None);
}

#[test]
fn grab_holds_between_press_and_release() {
    let mut g = Grab::new();
    assert_eq!(g.held, None);
    let keys = vec![vec![4, 2], vec![6, 2]];
    assert_eq!(g.press(&keys), Some((0, 1)));
    assert_eq!(g.held, Some((0, 1)));
    assert_eq!(g.release(), Some((0, 1)));
    assert_eq!(g.held, None);
    assert_eq!(g.release(), None);
}

#[test]
fn grab_press_on_nothing_keeps_what_was_held() {
    let mut g = Grab::new();
    let keys = vec![vec![1]];
    assert_eq!(g.press(&keys), Some((0, 0)));
    assert_eq!(g.press(&vec![]), None);
    assert_eq!(g.held, Some((0, 0)));
    assert_eq!(g.release(), Some((0, 0)));
}

#[test]
fn grab_second_press_moves_the_hold() {
    let mut g = Grab::new();
    assert_eq!(g.press(&vec![vec![0, 5]]), Some((0, 0)));
    assert_eq!(g.press(&vec![vec![5, 0]]), Some((0, 1)));
    assert_eq!(g.release(), Some((0, 1)));
}
