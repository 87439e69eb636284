use neuralang::grid::{same_partition_index, two_to_one, view_offsets, Grid, Point};

#[test]
fn view_offsets_radius_zero_is_the_cell_itself() {
    assert_eq!(view_offsets(0), vec![(0, 0)]);
}

#[test]
fn view_offsets_radius_one_is_a_cross() {
    assert_eq!(view_offsets(1), vec![(-1, 0), (0, -1), (0, 0), (0, 1), (1, 0)]);
}

#[test]
fn view_offsets_radius_two_has_thirteen_cells() {
    let v = view_offsets(2);
    assert_eq!(v.len(), 13);
    assert!(v.contains(&(2, 0)));
    assert!(v.contains(&(1, 1)));
    assert!(!v.contains(&(2, 1)));
}

#[test]
fn two_to_one_is_row_major() {
    assert_eq!(two_to_one(2, 3, 10), 23);
    assert_eq!(two_to_one(0, 0, 10), 0);
    assert_eq!(two_to_one(9, 9, 10), 99);
}

#[test]
fn same_partition_index_compares_both_coordinates() {
    assert!(same_partition_index((1, 2), (1, 2)));
    assert!(!same_partition_index((1, 2), (2, 1)));
}

#[test]
fn grid_new_divides_the_side() {
    let g = Grid::new(625, 125, 10);
    assert_eq!(g.n_cells, 125);
    assert_eq!(g.cell_len, 5_000);
    assert_eq!(g.view.len(), view_offsets(10).len());
}

#[test]
fn pos_to_cell_floors_each_coordinate() {
    let g = Grid::new(625, 125, 10);
    assert_eq!(g.pos_to_cell(Point { x: 12_345, y: 4_999 }), (2, 0));
    assert_eq!(g.pos_to_cell(Point { x: 624_999, y: 5_000 }), (124, 1));
    assert_eq!(g.home(Point { x: 12_345, y: 4_999 }), 250);
}

#[test]
fn neighbour_cells_skip_the_outside() {
    let g = Grid::new(50, 10, 1);
    assert_eq!(g.neighbour_cells(0, 0), vec![0, 1, 10]);
    assert_eq!(g.neighbour_cells(5, 5), vec![45, 54, 55, 56, 65]);
    assert_eq!(g.neighbour_cells(9, 9), vec![89, 98, 99]);
}
