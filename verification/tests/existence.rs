use linkstreams::algo::existence::delta_existence;
use linkstreams::algo::existence::existence_intervals;
use linkstreams::algo::existence::fold_existence_at;
use linkstreams::algo::existence::intervals_of;
use linkstreams::algo::existence::new_delta_existence;
use linkstreams::data::link::Link;
use linkstreams::data::link::Node;
use linkstreams::data::link::Time;

fn stream() -> Vec<Link> {
    vec![
        Link { node1: 0, node2: 1, time: 10 },
        Link { node1: 1, node2: 2, time: 9 },
        Link { node1: 0, node2: 2, time: 7 },
        Link { node1: 0, node2: 1, time: 5 },
        Link { node1: 1, node2: 2, time: 4 },
    ]
}

#[test]
fn delta_existence_writes_one_entry_for_each_instant() {
    let trace = delta_existence(&stream(), &vec![0, 1, 2], 2);
    assert_eq!(
        trace,
        vec![
            (10, vec![true, true, false]),
            (9, vec![true, true, true]),
            (7, vec![true, false, true]),
            (5, vec![true, true, false]),
            (4, vec![true, true, true]),
        ]
    );
}

#[test]
fn delta_existence_forward_in_time() {
    let links = vec![Link { node1: 0, node2: 1, time: 5 }, Link { node1: 0, node2: 1, time: 6 }];
    let trace = delta_existence(&links, &vec![0, 1], 1);
    assert_eq!(trace, vec![(5, vec![true, true]), (6, vec![true, true])]);
    let more = vec![Link { node1: 0, node2: 1, time: 5 }, Link { node1: 1, node2: 2, time: 6 }];
    let trace = delta_existence(&more, &vec![0, 1, 2], 3);
    assert_eq!(trace, vec![(5, vec![true, true, false]), (6, vec![false, true, true])]);
}

#[test]
fn delta_existence_takes_links_of_one_instant_together() {
    let links = vec![
        Link { node1: 0, node2: 1, time: 5 },
        Link { node1: 1, node2: 2, time: 5 },
        Link { node1: 0, node2: 2, time: 3 },
    ];
    let trace = delta_existence(&links, &vec![0, 1, 2], 1);
    assert_eq!(trace, vec![(5, vec![true, true, true]), (3, vec![true, false, true])]);
    let one = vec![Link { node1: 0, node2: 1, time: 5 }];
    assert_eq!(delta_existence(&one, &vec![0, 1], 1), vec![(5, vec![true, true])]);
}

#[test]
fn delta_existence_looks_delta_ahead() {
    let trace = delta_existence(&stream(), &vec![0, 1, 2], 4);
    assert_eq!(
        trace,
        vec![
            (10, vec![true, true, false]),
            (9, vec![true, true, true]),
            (7, vec![true, true, true]),
            (5, vec![true, true, true]),
            (4, vec![true, true, true]),
        ]
    );
    let trace = delta_existence(&stream(), &vec![0, 1, 2], 0);
    assert_eq!(trace.len(), 5);
    for entry in &trace {
        assert_eq!(entry.1, vec![false, false, false]);
    }
}

#[test]
fn delta_existence_never_shows_a_node_without_a_link() {
    let trace = delta_existence(&stream(), &vec![0, 3, 2], Time::MAX);
    assert_eq!(trace.len(), 5);
    for entry in &trace {
        assert_eq!(entry.1.len(), 3);
        assert!(!entry.1[1]);
    }
}

#[test]
fn delta_existence_tracks_the_listed_nodes_in_their_places() {
    let trace = delta_existence(&stream(), &vec![2, 0], 1);
    assert_eq!(
        trace,
        vec![
            (10, vec![false, true]),
            (9, vec![true, false]),
            (7, vec![true, true]),
            (5, vec![false, true]),
            (4, vec![true, false]),
        ]
    );
    let trace = delta_existence(&stream(), &vec![], 1);
    assert_eq!(trace, vec![(10, vec![]), (9, vec![]), (7, vec![]), (5, vec![]), (4, vec![])]);
    let trace = delta_existence(&Vec::new(), &vec![0, 1], 1);
    assert_eq!(trace, Vec::<(Time, Vec<bool>)>::new());
}

#[test]
fn fold_existence_at_keeps_the_window() {
    let v = vec![
        (5, vec![false, false, false]),
        (4, vec![true, false, true]),
        (3, vec![true, false, true]),
        (2, vec![true, false, true]),
        (1, vec![true, false, true]),
    ];
    let t = vec![false, false, false];
    assert_eq!(fold_existence_at(3, &v, 2, &t), vec![true, false, true]);
}

#[test]
fn fold_existence_at_leaves_out_what_is_too_far() {
    let v = vec![
        (9, vec![true, false, false]),
        (6, vec![false, true, false]),
        (5, vec![false, false, false]),
        (4, vec![false, false, true]),
        (1, vec![true, true, true]),
    ];
    let t = vec![true, true, true];
    assert_eq!(fold_existence_at(5, &v, 1, &t), vec![false, true, true]);
    assert_eq!(fold_existence_at(5, &v, 0, &t), vec![false, false, false]);
    assert_eq!(fold_existence_at(5, &v, 4, &t), vec![true, true, true]);
}

#[test]
fn fold_existence_at_with_a_delta_beyond_the_instant() {
    let v = vec![(9, vec![true, false, false]), (4, vec![false, false, true]), (1, vec![false, true, false])];
    let t = vec![false, false, false];
    assert_eq!(fold_existence_at(4, &v, 5, &t), vec![true, false, true]);
    assert_eq!(fold_existence_at(1, &v, 3, &t), vec![false, true, true]);
}

#[test]
fn fold_existence_at_near_the_largest_instant() {
    let v = vec![(Time::MAX, vec![true, false]), (Time::MAX - 1, vec![false, true])];
    let t = vec![false, false];
    assert_eq!(fold_existence_at(Time::MAX - 1, &v, 5, &t), vec![true, true]);
}

#[test]
fn new_delta_existence_folds_each_entry() {
    let trace = new_delta_existence(&stream(), &vec![0, 1, 2], 1);
    assert_eq!(
        trace,
        vec![
            (10, vec![true, true, true]),
            (9, vec![true, true, true]),
            (7, vec![true, false, true]),
            (5, vec![true, true, true]),
            (4, vec![true, true, true]),
        ]
    );
    let trace = new_delta_existence(&stream(), &vec![0, 1, 2], 0);
    assert_eq!(
        trace,
        vec![
            (10, vec![true, true, false]),
            (9, vec![false, true, true]),
            (7, vec![true, false, true]),
            (5, vec![true, true, false]),
            (4, vec![false, true, true]),
        ]
    );
}

#[test]
fn intervals_of_cuts_where_the_vector_changes() {
    let trace = vec![
        (9, vec![true, false]),
        (8, vec![true, false]),
        (6, vec![false, true]),
        (5, vec![true, false]),
        (3, vec![true, false]),
    ];
    assert_eq!(intervals_of(&trace), vec![(9, 8, vec![0]), (6, 6, vec![1]), (5, 3, vec![0])]);
    let one = vec![(4, vec![false, false])];
    assert_eq!(intervals_of(&one), vec![(4, 4, Vec::<Node>::new())]);
}

#[test]
fn intervals_tile_the_trace() {
    let trace = vec![
        (9, vec![true, false]),
        (8, vec![true, true]),
        (6, vec![true, true]),
        (5, vec![true, true]),
        (3, vec![false, false]),
    ];
    let intervals = intervals_of(&trace);
    assert_eq!(intervals[0].0, 9);
    assert_eq!(intervals[intervals.len() - 1].1, 3);
    let mut at = 0;
    for k in 0..intervals.len() {
        assert_eq!(intervals[k].0, trace[at].0);
        while at < trace.len() && trace[at].0 != intervals[k].1 {
            at = at + 1;
        }
        assert!(at < trace.len());
        at = at + 1;
        if k + 1 < intervals.len() {
            assert!(intervals[k].2 != intervals[k + 1].2);
        }
    }
    assert_eq!(at, trace.len());
}

#[test]
fn existence_intervals_of_a_stream() {
    let intervals = existence_intervals(&stream(), &vec![0, 1, 2], 1);
    assert_eq!(intervals, vec![(10, 9, vec![0, 1, 2]), (7, 7, vec![0, 2]), (5, 4, vec![0, 1, 2])]);
    let forward = vec![Link { node1: 0, node2: 1, time: 5 }, Link { node1: 0, node2: 1, time: 6 }];
    assert_eq!(existence_intervals(&forward, &vec![0, 1], 1), vec![(5, 6, vec![0, 1])]);
}
