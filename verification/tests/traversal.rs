use linkstreams::algo::traversal::connected_component;
use linkstreams::algo::traversal::dfs;
use linkstreams::data::link::Node;
use linkstreams::data::link::Time;
use linkstreams::data::matrix::Matrix;

fn sorted(mut nodes: Vec<Node>) -> Vec<Node> {
    nodes.sort();
    nodes
}

#[test]
fn dfs_enters_the_largest_successor_first() {
    let mat: Matrix<Time> =
        Matrix::parse(vec![vec![1, 0, 1, 0], vec![1, 1, 1, 0], vec![0, 1, 0, 1], vec![0, 1, 1, 0]]);
    let order_1 = vec![0, 1, 2, 3];
    let nodefilter_1 = vec![true, true, true, true];
    assert_eq!(vec![0, 2, 3, 1], dfs(&mat, &order_1, &nodefilter_1));
}

#[test]
fn dfs_skips_excluded_nodes() {
    let mat: Matrix<Time> =
        Matrix::parse(vec![vec![1, 0, 1, 0], vec![1, 1, 1, 0], vec![0, 1, 0, 1], vec![0, 1, 1, 0]]);
    let order_1 = vec![0, 1, 2, 3];
    let nodefilter_2 = vec![true, true, false, true];
    assert_eq!(vec![0, 1, 3], dfs(&mat, &order_1, &nodefilter_2));
}

#[test]
fn dfs_starts_in_the_given_order() {
    let mat: Matrix<Time> =
        Matrix::parse(vec![vec![1, 0, 1, 0], vec![1, 1, 1, 0], vec![0, 1, 0, 1], vec![0, 1, 1, 0]]);
    let nodefilter_2 = vec![true, true, false, true];
    let order_2 = vec![2, 1, 3, 0];
    assert_eq!(vec![1, 0, 3], dfs(&mat, &order_2, &nodefilter_2));
}

#[test]
fn dfs_of_nothing_is_empty() {
    let mat: Matrix<Time> = Matrix::parse(vec![vec![1, 1], vec![1, 1]]);
    assert_eq!(Vec::<Node>::new(), dfs(&mat, &vec![], &vec![true, true]));
    assert_eq!(Vec::<Node>::new(), dfs(&mat, &vec![0, 1], &vec![false, false]));
    let none: Matrix<Time> = Matrix::parse(Vec::new());
    assert_eq!(Vec::<Node>::new(), dfs(&none, &vec![], &vec![]));
}

#[test]
fn connected_component_of_lone_nodes() {
    let mat: Matrix<Time> =
        Matrix::parse(vec![vec![1, 0, 0, 0], vec![0, 1, 0, 0], vec![0, 0, 1, 0], vec![0, 0, 0, 1]]);
    let order = vec![0, 1, 2, 3];
    let nodefilter = vec![true, true, true, true];
    let result = vec![vec![0], vec![1], vec![2], vec![3]];
    assert_eq!(result, connected_component(&mat, &order, &nodefilter));
}

#[test]
fn connected_component_of_two_groups() {
    let mat: Matrix<Time> =
        Matrix::parse(vec![vec![1, 1, 0, 1], vec![1, 1, 0, 0], vec![0, 0, 1, 1], vec![0, 0, 1, 1]]);
    let order = vec![0, 1, 2, 3];
    let nodefilter = vec![true, true, true, true];
    let result = vec![vec![0, 1], vec![3, 2]];
    assert_eq!(result, connected_component(&mat, &order, &nodefilter));
}

#[test]
fn connected_component_of_one_block() {
    let mat: Matrix<Time> =
        Matrix::parse(vec![vec![1, 1, 0, 1], vec![1, 1, 0, 0], vec![0, 1, 1, 1], vec![0, 0, 1, 1]]);
    let order = vec![0, 1, 2, 3];
    let nodefilter = vec![true, true, true, true];
    let result = vec![vec![0, 1, 2, 3]];
    assert_eq!(result, connected_component(&mat, &order, &nodefilter));
}

#[test]
fn connected_component_splits_the_accepted_nodes() {
    let mat: Matrix<Time> = Matrix::parse(vec![
        vec![1, 1, 0, 0, 0],
        vec![0, 1, 1, 0, 0],
        vec![1, 0, 1, 1, 0],
        vec![0, 0, 0, 1, 1],
        vec![0, 0, 0, 1, 1],
    ]);
    let order = vec![4, 3, 2, 1, 0];
    let nodefilter = vec![true, true, true, false, true];
    let groups = connected_component(&mat, &order, &nodefilter);
    let mut all: Vec<Node> = Vec::new();
    for group in &groups {
        assert!(!group.is_empty());
        for node in group {
            assert!(nodefilter[*node]);
            all.push(*node);
        }
    }
    assert_eq!(sorted(all), vec![0, 1, 2, 4]);
}

#[test]
fn connected_component_parts_nodes_that_do_not_reach_each_other() {
    let mat: Matrix<Time> = Matrix::parse(vec![vec![1, 0], vec![1, 1]]);
    let nodefilter = vec![true, true];
    assert_eq!(vec![vec![0], vec![1]], connected_component(&mat, &vec![0, 1], &nodefilter));
    assert_eq!(vec![vec![1], vec![0]], connected_component(&mat, &vec![1, 0], &nodefilter));
}

#[test]
fn connected_component_follows_paths_through_accepted_nodes_only() {
    let mat: Matrix<Time> = Matrix::parse(vec![vec![1, 1, 0], vec![0, 1, 1], vec![1, 0, 1]]);
    let order = vec![0, 1, 2];
    let groups = connected_component(&mat, &order, &vec![true, true, true]);
    assert_eq!(groups.len(), 1);
    assert_eq!(sorted(groups[0].clone()), vec![0, 1, 2]);
    let groups = connected_component(&mat, &order, &vec![true, false, true]);
    assert_eq!(groups, vec![vec![0], vec![2]]);
}

#[test]
fn connected_component_groups_are_mutually_reachable() {
    let mat: Matrix<Time> = Matrix::parse(vec![
        vec![0, 1, 0, 0, 0],
        vec![0, 0, 1, 0, 0],
        vec![1, 0, 0, 1, 0],
        vec![0, 0, 0, 0, 1],
        vec![0, 0, 0, 1, 0],
    ]);
    let order = vec![0, 1, 2, 3, 4];
    let nodefilter = vec![true, true, true, true, true];
    let mut groups: Vec<Vec<Node>> = Vec::new();
    for group in connected_component(&mat, &order, &nodefilter) {
        groups.push(sorted(group));
    }
    groups.sort();
    assert_eq!(groups, vec![vec![0, 1, 2], vec![3, 4]]);
}

#[test]
fn connected_component_leaves_out_what_the_order_does_not_reach() {
    let mat: Matrix<Time> = Matrix::parse(vec![vec![1, 0, 0], vec![0, 1, 0], vec![0, 0, 1]]);
    let nodefilter = vec![true, true, true];
    assert_eq!(vec![vec![2], vec![0]], connected_component(&mat, &vec![2, 0], &nodefilter));
}
