use linkstreams::algo::reach::delta_reachability_graph;
use linkstreams::algo::reach::maj_reach_graph;
use linkstreams::data::filtre::NodeFilter;
use linkstreams::data::filtre::TimeFilter;
use linkstreams::data::link::Link;
use linkstreams::data::link::Time;
use linkstreams::data::matrix::Matrix;

fn stream() -> Vec<Link> {
    vec![
        Link { node1: 0, node2: 1, time: 10 },
        Link { node1: 1, node2: 2, time: 8 },
        Link { node1: 0, node2: 2, time: 5 },
    ]
}

#[test]
fn maj_reach_graph_clears_expired_edges() {
    let mut reach: Matrix<Time> = Matrix::new(1, 2, 2);
    let dist: Matrix<Time> = Matrix::parse(vec![vec![5, 9], vec![8, 3]]);
    maj_reach_graph(&mut reach, &dist, 5, 3);
    assert_eq!(reach.matrix, vec![vec![1, 0], vec![1, 1]]);
}

#[test]
fn maj_reach_graph_never_sets_an_edge_back() {
    let mut reach: Matrix<Time> = Matrix::parse(vec![vec![0, 1], vec![0, 1]]);
    let dist: Matrix<Time> = Matrix::parse(vec![vec![5, 5], vec![5, 9]]);
    maj_reach_graph(&mut reach, &dist, 5, 3);
    assert_eq!(reach.matrix, vec![vec![0, 1], vec![0, 0]]);
    let near: Matrix<Time> = Matrix::parse(vec![vec![5, 5], vec![5, 5]]);
    maj_reach_graph(&mut reach, &near, 5, 3);
    assert_eq!(reach.matrix, vec![vec![0, 1], vec![0, 0]]);
}

#[test]
fn delta_reachability_graph_starts_full() {
    let reach = delta_reachability_graph(&Vec::new(), 1, 2, &NodeFilter::All, &TimeFilter::All);
    assert_eq!(reach.matrix, vec![vec![1, 1], vec![1, 1]]);
}

#[test]
fn delta_reachability_graph_expires_pairs() {
    let reach = delta_reachability_graph(&stream(), 1, 3, &NodeFilter::All, &TimeFilter::All);
    assert_eq!(reach.matrix, vec![vec![1, 0, 0], vec![0, 1, 0], vec![0, 0, 1]]);
}

#[test]
fn delta_reachability_graph_skips_the_first_delta() {
    let reach = delta_reachability_graph(&stream(), 3, 3, &NodeFilter::All, &TimeFilter::All);
    assert_eq!(reach.matrix, vec![vec![1, 1, 1], vec![0, 1, 1], vec![1, 1, 1]]);
}

#[test]
fn delta_reachability_graph_with_a_delta_beyond_the_first_instant() {
    let reach = delta_reachability_graph(&stream(), 11, 3, &NodeFilter::All, &TimeFilter::All);
    assert_eq!(reach.matrix, vec![vec![1, 1, 1], vec![1, 1, 1], vec![1, 1, 1]]);
}

#[test]
fn delta_reachability_graph_only_loses_edges() {
    let links = stream();
    let mut before = delta_reachability_graph(&Vec::new(), 1, 3, &NodeFilter::All, &TimeFilter::All);
    for end in 1..links.len() + 1 {
        let prefix: Vec<Link> = links[..end].to_vec();
        let after = delta_reachability_graph(&prefix, 1, 3, &NodeFilter::All, &TimeFilter::All);
        for i in 0..3 {
            for j in 0..3 {
                assert!(after.get(i, j) <= before.get(i, j));
            }
        }
        before = after;
    }
}
