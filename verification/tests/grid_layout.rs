use cloth_sim::grid::{flat_index, flatten_points, points_per_thread, unflatten_points};

#[test]
fn flatten_concatenates_rows_in_order() {
    let rows = vec![vec![1, 2, 3], vec![4, 5, 6]];
    assert_eq!(flatten_points(&rows), vec![1, 2, 3, 4, 5, 6]);
}

#[test]
fn flatten_keeps_ragged_and_empty_rows() {
    let rows: Vec<Vec<u8>> = vec![vec![7], vec![], vec![8, 9]];
    assert_eq!(flatten_points(&rows), vec![7, 8, 9]);
    let none: Vec<Vec<u8>> = vec![];
    assert_eq!(flatten_points(&none), Vec::<u8>::new());
}

#[test]
fn unflatten_cuts_full_rows() {
    let flat = [1, 2, 3, 4, 5, 6];
    assert_eq!(unflatten_points(&flat, 3), vec![vec![1, 2, 3], vec![4, 5, 6]]);
}

#[test]
fn unflatten_leaves_a_short_last_row() {
    let flat = [1, 2, 3, 4, 5];
    assert_eq!(unflatten_points(&flat, 2), vec![vec![1, 2], vec![3, 4], vec![5]]);
    assert_eq!(unflatten_points(&flat, 9), vec![vec![1, 2, 3, 4, 5]]);
}

#[test]
fn unflatten_of_nothing_is_no_rows() {
    let flat: [u32; 0] = [];
    assert_eq!(unflatten_points(&flat, 4), Vec::<Vec<u32>>::new());
}

#[test]
fn unflatten_undoes_flatten_on_a_rectangle() {
    let rows: Vec<Vec<i64>> = (0..5).map(|i| (0..4).map(|j| i * 10 + j).collect()).collect();
    let flat = flatten_points(&rows);
    assert_eq!(unflatten_points(&flat, 4), rows);
}

#[test]
fn flatten_undoes_unflatten() {
    let flat: Vec<u16> = (0..17).collect();
    for row_len in 1..20 {
        let rows = unflatten_points(&flat, row_len);
        assert_eq!(flatten_points(&rows), flat);
    }
}

#[test]
fn flat_index_addresses_the_cell() {
    let rows: Vec<Vec<(usize, usize)>> =
        (0..3).map(|i| (0..7).map(|j| (i, j)).collect()).collect();
    let flat = flatten_points(&rows);
    assert_eq!(flat.len(), 21);
    for i in 0..3 {
        for j in 0..7 {
            assert_eq!(flat[flat_index(i, j, 7)], (i, j));
        }
    }
    assert_eq!(flat_index(2, 5, 7), 19);
}

#[test]
fn points_per_thread_divides_by_four_per_core() {
    assert_eq!(points_per_thread(20, 20, 2), 50);
    assert_eq!(points_per_thread(20, 20, 3), 33);
    assert_eq!(points_per_thread(3, 3, 4), 0);
    assert_eq!(points_per_thread(1, 8, 1), 2);
}
