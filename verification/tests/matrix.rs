use linkstreams::data::filtre::NodeFilter;
use linkstreams::data::link::Time;
use linkstreams::data::matrix::Matrix;

#[test]
fn matrix_set_get_test() {
    let mut m: Matrix<u32> = Matrix::new(0, 10, 10);
    assert_eq!(0, m.get(0, 0));
    assert_eq!(0, m.get(9, 9));
    m.set(0, 0, 1);
    assert_eq!(1, m.get(0, 0));
}

#[test]
fn matrix_new_fills_every_cell() {
    let m: Matrix<Time> = Matrix::new(7, 2, 3);
    assert_eq!(m.width, 2);
    assert_eq!(m.height, 3);
    assert_eq!(m.matrix, vec![vec![7, 7, 7], vec![7, 7, 7]]);
    let empty: Matrix<Time> = Matrix::new(7, 0, 0);
    assert_eq!(empty.matrix.len(), 0);
}

#[test]
fn matrix_parse_reads_rows() {
    let m: Matrix<Time> = Matrix::parse(vec![vec![1, 2], vec![3, 4]]);
    assert_eq!(1 as Time, m.get(0, 0));
    assert_eq!(2 as Time, m.get(0, 1));
    assert_eq!(3 as Time, m.get(1, 0));
    assert_eq!(4 as Time, m.get(1, 1));
    assert_eq!(m.width, 2);
    assert_eq!(m.height, 2);
}

#[test]
fn matrix_parse_takes_the_longest_row_as_height() {
    let m: Matrix<Time> = Matrix::parse(vec![vec![1], vec![3, 4, 5], vec![]]);
    assert_eq!(m.width, 3);
    assert_eq!(m.height, 3);
    let none: Matrix<Time> = Matrix::parse(Vec::new());
    assert_eq!(none.width, 0);
    assert_eq!(none.height, 0);
}

#[test]
fn matrix_diag_writes_only_the_diagonal() {
    let mut m: Matrix<Time> = Matrix::parse(vec![vec![1, 2, 3], vec![4, 5, 6]]);
    m.diag(9);
    assert_eq!(m.matrix, vec![vec![9, 2, 3], vec![4, 9, 6]]);
}

#[test]
fn matrix_copy_takes_every_cell() {
    let mut m: Matrix<Time> = Matrix::new(0, 2, 2);
    let other: Matrix<Time> = Matrix::parse(vec![vec![1, 2], vec![3, 4]]);
    m.copy(&other);
    assert_eq!(m.matrix, vec![vec![1, 2], vec![3, 4]]);
}

#[test]
fn matrix_transpose_swaps_rows_and_columns() {
    let m: Matrix<Time> = Matrix::parse(vec![vec![1, 2, 3], vec![4, 5, 6]]);
    let t = m.transpose();
    assert_eq!(t.width, 3);
    assert_eq!(t.height, 2);
    assert_eq!(t.matrix, vec![vec![1, 4], vec![2, 5], vec![3, 6]]);
    assert!(!m.is_square());
    assert!(Matrix::<Time>::new(0, 4, 4).is_square());
}

#[test]
fn matrix_is_subset_clique_looks_at_accepted_nodes_only() {
    let m: Matrix<Time> = Matrix::parse(vec![vec![1, 1, 1], vec![1, 0, 1], vec![1, 1, 1]]);
    assert_eq!(true, m.is_subset_clique(&NodeFilter::Members(vec![0, 2])));
    assert_eq!(false, m.is_subset_clique(&NodeFilter::Members(vec![0, 1])));
    assert_eq!(true, m.is_subset_clique(&NodeFilter::Members(vec![])));
}

#[test]
fn matrix_is_clique_wants_every_cell() {
    let m: Matrix<Time> = Matrix::parse(vec![vec![1, 1, 1], vec![1, 1, 1], vec![1, 1, 1]]);
    assert_eq!(true, m.is_clique());
    let m: Matrix<Time> = Matrix::parse(vec![vec![1, 1, 1], vec![1, 0, 1], vec![1, 1, 1]]);
    assert_eq!(false, m.is_clique());
}

#[test]
fn matrix_sentinel_is_no_edge() {
    let m: Matrix<Time> = Matrix::parse(vec![vec![1, usize::MAX], vec![1, 1]]);
    assert_eq!(false, m.is_clique());
    assert_eq!(vec![0], m.successors(0));
    assert_eq!(vec![1], m.predecessors(1));
}

#[test]
fn matrix_is_subset_delta_clique_compares_with_delta() {
    let m: Matrix<Time> = Matrix::parse(vec![vec![1, 4, 2], vec![1, 5, 3], vec![3, 2, 4]]);
    let start = 0 as Time;
    let delta = 4 as Time;
    assert_eq!(true, m.is_subset_delta_clique(start, delta, &NodeFilter::Members(vec![0, 2])));
    assert_eq!(false, m.is_subset_delta_clique(start, delta, &NodeFilter::Members(vec![0, 1])));
}

#[test]
fn matrix_is_delta_clique_compares_every_cell() {
    let m: Matrix<Time> = Matrix::parse(vec![vec![1, 2, 3], vec![0, 3, 4], vec![1, 0, 2]]);
    let start = 0 as Time;
    let delta = 4 as Time;
    assert_eq!(true, m.is_delta_clique(start, delta));
    let m: Matrix<Time> = Matrix::parse(vec![vec![1, 2, 3], vec![0, 5, 4], vec![1, 0, 2]]);
    assert_eq!(false, m.is_delta_clique(start, delta));
}

#[test]
fn matrix_delta_clique_does_not_wrap_below_the_reference() {
    let m: Matrix<Time> = Matrix::parse(vec![vec![1, 2], vec![3, 4]]);
    assert_eq!(true, m.is_delta_clique(10, 0));
    assert_eq!(false, m.is_delta_clique(3, 0));
    assert_eq!(true, m.is_delta_clique(3, 1));
}

#[test]
fn matrix_predecessors_lists_rows() {
    let m: Matrix<Time> = Matrix::parse(vec![vec![1, 1, 1], vec![1, 0, 1], vec![0, 1, 0]]);
    assert_eq!(vec![0, 1], m.predecessors(0));
    assert_eq!(vec![0, 2], m.predecessors(1));
    assert_eq!(vec![0, 1], m.predecessors(2));
}

#[test]
fn matrix_successors_lists_columns() {
    let m: Matrix<Time> = Matrix::parse(vec![vec![1, 1, 1], vec![1, 0, 1], vec![0, 1, 0]]);
    assert_eq!(vec![0, 1, 2], m.successors(0));
    assert_eq!(vec![0, 2], m.successors(1));
    assert_eq!(vec![1], m.successors(2));
}

#[test]
fn matrix_max_deg_node_is_the_first_of_largest_degree() {
    let m: Matrix<Time> = Matrix::parse(vec![vec![1, 1, 0], vec![1, 1, 1], vec![0, 1, 1]]);
    assert_eq!(1, m.get_max_deg_node(&NodeFilter::All));
    assert_eq!(0, m.get_max_deg_node(&NodeFilter::Members(vec![0, 2])));
    let id: Matrix<Time> = Matrix::parse(vec![vec![1, 0], vec![0, 1]]);
    assert_eq!(0, id.get_max_deg_node(&NodeFilter::All));
    assert_eq!(1, id.get_max_deg_node(&NodeFilter::Members(vec![1])));
    assert_eq!(0, id.get_max_deg_node(&NodeFilter::Members(vec![])));
}
