use linkstreams::algo::partition::delta_components_lower;
use linkstreams::algo::partition::delta_components_upper;
use linkstreams::algo::partition::delta_partition;
use linkstreams::algo::partition::partition;
use linkstreams::data::filtre::TimeFilter;
use linkstreams::data::link::Link;
use linkstreams::data::link::Node;
use linkstreams::data::link::Time;
use linkstreams::data::matrix::Matrix;

fn as_sets(groups: &Vec<Vec<Node>>) -> Vec<Vec<Node>> {
    let mut sets: Vec<Vec<Node>> = Vec::new();
    for group in groups {
        let mut set = group.clone();
        set.sort();
        sets.push(set);
    }
    sets.sort();
    sets
}

fn two_pairs() -> Matrix<Time> {
    Matrix::parse(vec![vec![1, 1, 0, 1], vec![1, 1, 0, 0], vec![0, 0, 1, 1], vec![0, 0, 1, 1]])
}

fn ring() -> Matrix<Time> {
    Matrix::parse(vec![vec![1, 1, 0], vec![0, 1, 1], vec![1, 0, 1]])
}

fn hub() -> Matrix<Time> {
    Matrix::parse(vec![
        vec![1, 1, 1, 1, 1],
        vec![1, 1, 1, 0, 0],
        vec![1, 1, 1, 0, 0],
        vec![1, 0, 0, 1, 1],
        vec![1, 0, 0, 1, 1],
    ])
}

#[test]
fn partition_of_a_clique_is_one_component() {
    let graph: Matrix<Time> = Matrix::new(1, 3, 3);
    let (components, restes) = partition(&graph, &vec![0, 1, 2], &vec![2, 0, 1], true);
    assert_eq!(components, vec![vec![2, 0, 1]]);
    assert_eq!(restes, Vec::<Vec<Node>>::new());
    let (components, restes) = partition(&graph, &vec![0, 1, 2], &vec![2, 0, 1], false);
    assert_eq!(components, vec![vec![2, 0, 1]]);
    assert_eq!(restes, Vec::<Vec<Node>>::new());
}

#[test]
fn partition_splits_into_cliques() {
    let graph = two_pairs();
    let order = vec![0, 1, 2, 3];
    let (components, restes) = partition(&graph, &order, &vec![0, 1, 2, 3], true);
    assert_eq!(as_sets(&components), vec![vec![0, 1], vec![2, 3]]);
    assert_eq!(restes, Vec::<Vec<Node>>::new());
    let (components, restes) = partition(&graph, &order, &vec![0, 1, 2, 3], false);
    assert_eq!(as_sets(&components), vec![vec![0, 1], vec![2, 3]]);
    assert_eq!(restes, Vec::<Vec<Node>>::new());
}

#[test]
fn partition_drops_single_nodes() {
    let graph = two_pairs();
    let order = vec![0, 1, 2, 3];
    let (components, restes) = partition(&graph, &order, &vec![0, 2], true);
    assert_eq!(components, Vec::<Vec<Node>>::new());
    assert_eq!(restes, Vec::<Vec<Node>>::new());
    let (components, restes) = partition(&graph, &order, &vec![3], false);
    assert_eq!(components, Vec::<Vec<Node>>::new());
    assert_eq!(restes, Vec::<Vec<Node>>::new());
    let (components, restes) = partition(&graph, &order, &vec![], false);
    assert_eq!(components, Vec::<Vec<Node>>::new());
    assert_eq!(restes, Vec::<Vec<Node>>::new());
}

#[test]
fn partition_upper_keeps_a_block_as_residue() {
    let graph = ring();
    let (components, restes) = partition(&graph, &vec![0, 1, 2], &vec![0, 1, 2], true);
    assert_eq!(components, Vec::<Vec<Node>>::new());
    assert_eq!(as_sets(&restes), vec![vec![0, 1, 2]]);
}

#[test]
fn partition_lower_peels_a_block_down_to_nothing() {
    let graph = ring();
    let (components, restes) = partition(&graph, &vec![0, 1, 2], &vec![0, 1, 2], false);
    assert_eq!(components, Vec::<Vec<Node>>::new());
    assert_eq!(restes, Vec::<Vec<Node>>::new());
}

#[test]
fn partition_lower_takes_the_hub_out() {
    let graph = hub();
    let order = vec![0, 1, 2, 3, 4];
    let (components, restes) = partition(&graph, &order, &vec![0, 1, 2, 3, 4], false);
    assert_eq!(as_sets(&components), vec![vec![1, 2], vec![3, 4]]);
    assert_eq!(restes, Vec::<Vec<Node>>::new());
    let (components, restes) = partition(&graph, &order, &vec![0, 1, 2, 3, 4], true);
    assert_eq!(components, Vec::<Vec<Node>>::new());
    assert_eq!(as_sets(&restes), vec![vec![0, 1, 2, 3, 4]]);
}

#[test]
fn partition_lower_ends_on_a_node_without_its_own_edge() {
    let graph: Matrix<Time> = Matrix::parse(vec![vec![0, 1], vec![1, 1]]);
    let (components, restes) = partition(&graph, &vec![0, 1], &vec![0], false);
    assert_eq!(components, Vec::<Vec<Node>>::new());
    assert_eq!(restes, Vec::<Vec<Node>>::new());
    let (components, restes) = partition(&graph, &vec![0, 1], &vec![0], true);
    assert_eq!(components, Vec::<Vec<Node>>::new());
    assert_eq!(restes, vec![vec![0]]);
}

#[test]
fn partition_settles_each_node_at_most_once() {
    let graph = hub();
    let order = vec![0, 1, 2, 3, 4];
    for upper in [true, false] {
        let (components, restes) = partition(&graph, &order, &vec![4, 2, 0, 1, 3], upper);
        let mut seen: Vec<Node> = Vec::new();
        for group in components.iter().chain(restes.iter()) {
            for node in group {
                assert!(!seen.contains(node));
                assert!(*node < 5);
                seen.push(*node);
            }
        }
        for group in &components {
            assert!(group.len() > 1);
        }
    }
}

fn stream() -> Vec<Link> {
    vec![
        Link { node1: 0, node2: 1, time: 10 },
        Link { node1: 1, node2: 2, time: 8 },
        Link { node1: 0, node2: 2, time: 5 },
    ]
}

#[test]
fn delta_components_on_a_stream() {
    let links = stream();
    let (components, restes) = delta_components_upper(&links, 3, 3, &vec![0, 1, 2], &TimeFilter::All);
    assert_eq!(components, Vec::<Vec<Node>>::new());
    assert_eq!(as_sets(&restes), vec![vec![0, 1, 2]]);
    let (components, restes) = delta_components_lower(&links, 3, 3, &vec![0, 1, 2], &TimeFilter::All);
    assert_eq!(components, Vec::<Vec<Node>>::new());
    assert_eq!(restes, Vec::<Vec<Node>>::new());
    let (components, restes) = delta_components_lower(&links, 3, 3, &vec![0, 2], &TimeFilter::All);
    assert_eq!(components, vec![vec![0, 2]]);
    assert_eq!(restes, Vec::<Vec<Node>>::new());
}

#[test]
fn delta_components_upper_keeps_no_block_that_is_not_strongly_connected() {
    let links = vec![
        Link { node1: 0, node2: 1, time: 10 },
        Link { node1: 0, node2: 1, time: 9 },
        Link { node1: 1, node2: 2, time: 8 },
        Link { node1: 1, node2: 2, time: 7 },
    ];
    let (components, restes) = delta_components_upper(&links, 3, 2, &vec![0, 2], &TimeFilter::All);
    assert_eq!(components, Vec::<Vec<Node>>::new());
    assert_eq!(restes, Vec::<Vec<Node>>::new());
}

#[test]
fn partition_upper_parts_nodes_joined_one_way_only() {
    let graph: Matrix<Time> = Matrix::parse(vec![vec![1, 1, 0], vec![1, 1, 1], vec![1, 1, 1]]);
    let order = vec![0, 1, 2];
    let (components, restes) = partition(&graph, &order, &vec![0, 2], true);
    assert_eq!(components, Vec::<Vec<Node>>::new());
    assert_eq!(restes, Vec::<Vec<Node>>::new());
    let (components, restes) = partition(&graph, &order, &vec![0, 1, 2], true);
    assert_eq!(components, Vec::<Vec<Node>>::new());
    assert_eq!(as_sets(&restes), vec![vec![0, 1, 2]]);
}

#[test]
fn delta_components_with_a_large_delta_is_one_clique() {
    let links = stream();
    let (components, restes) = delta_components_upper(&links, 3, 11, &vec![0, 1, 2], &TimeFilter::All);
    assert_eq!(components, vec![vec![0, 1, 2]]);
    assert_eq!(restes, Vec::<Vec<Node>>::new());
    let (components, restes) = delta_components_lower(&links, 3, 11, &vec![0, 1], &TimeFilter::All);
    assert_eq!(components, vec![vec![0, 1]]);
    assert_eq!(restes, Vec::<Vec<Node>>::new());
}

#[test]
fn delta_partition_runs_over_each_interval() {
    let links = vec![
        Link { node1: 0, node2: 1, time: 10 },
        Link { node1: 1, node2: 2, time: 9 },
        Link { node1: 0, node2: 2, time: 7 },
        Link { node1: 0, node2: 1, time: 5 },
        Link { node1: 1, node2: 2, time: 4 },
    ];
    let parts = delta_partition(&links, &vec![0, 1, 2], 1, true);
    assert_eq!(parts.len(), 3);
    assert_eq!((parts[0].0, parts[0].1), (9, 10));
    assert_eq!((parts[1].0, parts[1].1), (7, 7));
    assert_eq!((parts[2].0, parts[2].1), (4, 5));
    for part in &parts {
        let (components, restes) = &part.2;
        for group in components.iter().chain(restes.iter()) {
            for node in group {
                assert!(*node < 3);
            }
        }
    }
}
