use linkstreams::data::filtre::combine;
use linkstreams::data::filtre::contains_node;
use linkstreams::data::filtre::node_filter;
use linkstreams::data::filtre::NodeFilter;
use linkstreams::data::filtre::TimeFilter;
use linkstreams::data::link::Link;

#[test]
fn node_filter_marks_the_listed_nodes() {
    assert_eq!(node_filter(&vec![0, 2], 4), vec![true, false, true, false]);
    assert_eq!(node_filter(&vec![5], 3), vec![false, false, false]);
    assert_eq!(node_filter(&vec![1, 1], 2), vec![false, true]);
    assert_eq!(node_filter(&vec![1], 0), Vec::<bool>::new());
}

#[test]
fn contains_node_finds_members() {
    assert!(contains_node(&vec![3, 1, 4], 4));
    assert!(!contains_node(&vec![3, 1, 4], 2));
    assert!(!contains_node(&vec![], 0));
}

#[test]
fn node_filters_evaluate() {
    assert!(NodeFilter::All.evaluate(17));
    let some = NodeFilter::Members(vec![1, 3]);
    assert!(some.evaluate(3));
    assert!(!some.evaluate(2));
    let both = NodeFilter::And(Box::new(NodeFilter::Members(vec![1, 3])), Box::new(NodeFilter::Members(vec![3, 4])));
    assert!(both.evaluate(3));
    assert!(!both.evaluate(1));
    assert!(!both.evaluate(4));
}

#[test]
fn time_filters_evaluate() {
    assert!(TimeFilter::All.evaluate(0));
    let range = TimeFilter::Range { start: 3, stop: 5 };
    assert!(!range.evaluate(2));
    assert!(range.evaluate(3));
    assert!(range.evaluate(5));
    assert!(!range.evaluate(6));
    let empty = TimeFilter::Range { start: 1, stop: 0 };
    assert!(!empty.evaluate(0));
    assert!(!empty.evaluate(1));
    let both = TimeFilter::And(
        Box::new(TimeFilter::Range { start: 3, stop: 5 }),
        Box::new(TimeFilter::Range { start: 5, stop: 9 }),
    );
    assert!(both.evaluate(5));
    assert!(!both.evaluate(4));
}

#[test]
fn combine_wants_both_nodes_and_the_instant() {
    let nodes = NodeFilter::Members(vec![0, 1]);
    let times = TimeFilter::Range { start: 2, stop: 4 };
    assert!(combine(Link { node1: 0, node2: 1, time: 3 }, &nodes, &times));
    assert!(!combine(Link { node1: 0, node2: 2, time: 3 }, &nodes, &times));
    assert!(!combine(Link { node1: 2, node2: 1, time: 3 }, &nodes, &times));
    assert!(!combine(Link { node1: 0, node2: 1, time: 5 }, &nodes, &times));
}
