use linkstreams::algo::counts::count_degrees;
use linkstreams::algo::counts::count_first_and_last_apparition;
use linkstreams::algo::counts::count_nodes_and_links;
use linkstreams::data::link::Link;

fn stream() -> Vec<Link> {
    vec![
        Link { node1: 0, node2: 1, time: 10 },
        Link { node1: 1, node2: 2, time: 9 },
        Link { node1: 1, node2: 0, time: 7 },
        Link { node1: 0, node2: 1, time: 5 },
        Link { node1: 3, node2: 3, time: 4 },
    ]
}

#[test]
fn count_degrees_counts_each_pair_once() {
    assert_eq!(count_degrees(&stream(), 5), vec![1, 2, 1, 2, 0]);
    assert_eq!(count_degrees(&Vec::new(), 2), vec![0, 0]);
    assert_eq!(count_degrees(&Vec::new(), 0), Vec::<u32>::new());
}

#[test]
fn count_first_and_last_apparition_gives_both_ends() {
    assert_eq!(
        count_first_and_last_apparition(&stream(), 5),
        vec![(5, 10), (5, 10), (9, 9), (4, 4), (0, 0)]
    );
    assert_eq!(count_first_and_last_apparition(&Vec::new(), 1), vec![(0, 0)]);
}

#[test]
fn count_nodes_and_links_counts_distinct_nodes() {
    assert_eq!(count_nodes_and_links(&stream()), (4, 5));
    assert_eq!(count_nodes_and_links(&Vec::new()), (0, 0));
    let same = vec![Link { node1: 7, node2: 7, time: 1 }, Link { node1: 7, node2: 7, time: 0 }];
    assert_eq!(count_nodes_and_links(&same), (1, 2));
}
