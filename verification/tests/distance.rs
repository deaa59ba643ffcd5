use linkstreams::algo::distance::is_delta_connected;
use linkstreams::algo::distance::maj_distance;
use linkstreams::data::filtre::NodeFilter;
use linkstreams::data::filtre::TimeFilter;
use linkstreams::data::link::Link;
use linkstreams::data::link::Time;
use linkstreams::data::matrix::Matrix;

const NEVER: Time = Time::MAX;

fn stream() -> Vec<Link> {
    vec![
        Link { node1: 0, node2: 1, time: 10 },
        Link { node1: 1, node2: 2, time: 8 },
        Link { node1: 0, node2: 2, time: 5 },
    ]
}

#[test]
fn maj_distance_first_link_sets_diagonal_and_contact() {
    let mut dist: Matrix<Time> = Matrix::new(NEVER, 3, 3);
    let mut p_dist: Matrix<Time> = Matrix::new(NEVER, 3, 3);
    let mut curr: Time = NEVER;
    maj_distance(Link { node1: 0, node2: 1, time: 10 }, &mut dist, &mut p_dist, &mut curr);
    assert_eq!(curr, 10);
    assert_eq!(dist.matrix, vec![vec![10, 10, NEVER], vec![10, 10, NEVER], vec![NEVER, NEVER, 10]]);
    assert_eq!(p_dist.matrix, vec![vec![NEVER; 3]; 3]);
}

#[test]
fn maj_distance_relaxes_against_the_snapshot() {
    let mut dist: Matrix<Time> = Matrix::new(NEVER, 3, 3);
    let mut p_dist: Matrix<Time> = Matrix::new(NEVER, 3, 3);
    let mut curr: Time = NEVER;
    maj_distance(Link { node1: 0, node2: 1, time: 10 }, &mut dist, &mut p_dist, &mut curr);
    maj_distance(Link { node1: 1, node2: 2, time: 8 }, &mut dist, &mut p_dist, &mut curr);
    assert_eq!(curr, 8);
    assert_eq!(p_dist.matrix, vec![vec![10, 10, NEVER], vec![10, 10, NEVER], vec![NEVER, NEVER, 10]]);
    assert_eq!(dist.matrix, vec![vec![8, 10, NEVER], vec![10, 8, 8], vec![10, 8, 8]]);
    maj_distance(Link { node1: 0, node2: 2, time: 5 }, &mut dist, &mut p_dist, &mut curr);
    assert_eq!(curr, 5);
    assert_eq!(dist.matrix, vec![vec![5, 8, 5], vec![10, 5, 8], vec![5, 8, 5]]);
}

#[test]
fn maj_distance_same_instant_keeps_the_snapshot() {
    let mut dist: Matrix<Time> = Matrix::new(NEVER, 3, 3);
    let mut p_dist: Matrix<Time> = Matrix::new(NEVER, 3, 3);
    let mut curr: Time = NEVER;
    maj_distance(Link { node1: 0, node2: 1, time: 10 }, &mut dist, &mut p_dist, &mut curr);
    maj_distance(Link { node1: 1, node2: 2, time: 10 }, &mut dist, &mut p_dist, &mut curr);
    assert_eq!(p_dist.matrix, vec![vec![NEVER; 3]; 3]);
    assert_eq!(dist.matrix, vec![vec![10, 10, NEVER], vec![10, 10, 10], vec![NEVER, 10, 10]]);
}

#[test]
fn maj_distance_direct_contact_is_at_most_the_instant() {
    let links = stream();
    let mut dist: Matrix<Time> = Matrix::new(NEVER, 3, 3);
    let mut p_dist: Matrix<Time> = Matrix::new(NEVER, 3, 3);
    let mut curr: Time = NEVER;
    for end in 0..links.len() {
        maj_distance(links[end], &mut dist, &mut p_dist, &mut curr);
        for link in &links[..end + 1] {
            assert!(dist.get(link.node1, link.node2) <= link.time);
            assert!(dist.get(link.node2, link.node1) <= link.time);
        }
        assert_eq!(dist.get(links[end].node1, links[end].node2), links[end].time);
    }
}

#[test]
fn maj_distance_self_link_sets_its_cell() {
    let mut dist: Matrix<Time> = Matrix::new(NEVER, 2, 2);
    let mut p_dist: Matrix<Time> = Matrix::new(NEVER, 2, 2);
    let mut curr: Time = NEVER;
    maj_distance(Link { node1: 1, node2: 1, time: 4 }, &mut dist, &mut p_dist, &mut curr);
    assert_eq!(dist.matrix, vec![vec![4, NEVER], vec![NEVER, 4]]);
}

#[test]
fn is_delta_connected_reports_each_change_of_instant() {
    let links = stream();
    let report = is_delta_connected(&links, 5, 3, &NodeFilter::All, &TimeFilter::All);
    assert_eq!(report, vec![(8, false), (5, true)]);
    let report = is_delta_connected(&links, 4, 3, &NodeFilter::All, &TimeFilter::All);
    assert_eq!(report, vec![(8, false), (5, false)]);
}

#[test]
fn is_delta_connected_looks_at_accepted_nodes_only() {
    let links = stream();
    let nodes = NodeFilter::Members(vec![0, 1]);
    let report = is_delta_connected(&links, 2, 3, &nodes, &TimeFilter::All);
    assert_eq!(report, Vec::<(Time, bool)>::new());
    let more = vec![
        Link { node1: 0, node2: 1, time: 10 },
        Link { node1: 1, node2: 2, time: 8 },
        Link { node1: 0, node2: 1, time: 7 },
    ];
    let report = is_delta_connected(&more, 2, 3, &nodes, &TimeFilter::All);
    assert_eq!(report, vec![(7, true)]);
}

#[test]
fn is_delta_connected_applies_the_time_filter() {
    let links = stream();
    let times = TimeFilter::Range { start: 6, stop: 10 };
    let report = is_delta_connected(&links, 5, 3, &NodeFilter::All, &times);
    assert_eq!(report, vec![(8, false)]);
    let report = is_delta_connected(&Vec::new(), 5, 3, &NodeFilter::All, &TimeFilter::All);
    assert_eq!(report, Vec::<(Time, bool)>::new());
}
