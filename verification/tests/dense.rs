use linkstreams::algo::dense::area;
use linkstreams::algo::dense::largest_boxe;
use linkstreams::algo::dense::largest_rectangle;
use linkstreams::algo::dense::Point;
use linkstreams::data::link::Link;
use linkstreams::data::link::Node;
use linkstreams::data::link::Time;

fn stream() -> Vec<Link> {
    vec![
        Link { node1: 0, node2: 1, time: 10 },
        Link { node1: 1, node2: 2, time: 9 },
        Link { node1: 0, node2: 2, time: 7 },
        Link { node1: 0, node2: 1, time: 5 },
        Link { node1: 1, node2: 2, time: 4 },
    ]
}

fn table() -> Vec<(Time, Vec<bool>)> {
    vec![
        (1, vec![true, true, false]),
        (2, vec![true, true, true]),
        (4, vec![false, true, true]),
        (7, vec![false, true, true]),
    ]
}

#[test]
fn largest_boxe_of_a_stream() {
    let found = largest_boxe(&stream(), &vec![0, 1, 2], 2);
    assert_eq!(found, (4, 10, vec![0]));
    let found = largest_boxe(&stream(), &vec![1, 2], 2);
    assert_eq!(found, (7, 9, vec![1]));
}

#[test]
fn largest_boxe_without_a_box() {
    let found = largest_boxe(&Vec::new(), &vec![0, 1, 2], 2);
    assert_eq!(found, (0, 0, Vec::<Node>::new()));
    let one = vec![Link { node1: 0, node2: 1, time: 10 }];
    assert_eq!(largest_boxe(&one, &vec![0, 1, 2], 2), (0, 0, Vec::<Node>::new()));
    let found = largest_boxe(&stream(), &vec![0, 1, 2], 0);
    assert_eq!(found, (0, 0, Vec::<Node>::new()));
}

#[test]
fn point_to_string_shows_both_coordinates() {
    assert_eq!(Point { x: 1, y: 2 }.to_string(), "(1, 2)");
    assert_eq!(Point::new().to_string(), "(0, 0)");
    assert_eq!(Point::from_coords(30, 105).to_string(), "(30, 105)");
}

#[test]
fn area_is_time_span_times_rows() {
    let tab = table();
    assert_eq!(area(Point { x: 1, y: 1 }, Point { x: 3, y: 2 }, &tab), 10);
    assert_eq!(area(Point { x: 0, y: 0 }, Point { x: 3, y: 0 }, &tab), 6);
    assert_eq!(area(Point { x: 2, y: 0 }, Point { x: 2, y: 2 }, &tab), 0);
}

#[test]
fn area_of_corners_the_wrong_way_round_is_zero() {
    let tab = table();
    assert_eq!(area(Point { x: 3, y: 1 }, Point { x: 1, y: 2 }, &tab), 0);
    assert_eq!(area(Point { x: 1, y: 2 }, Point { x: 3, y: 1 }, &tab), 0);
}

#[test]
fn area_does_not_wrap_when_instants_decrease() {
    let tab = vec![(9, vec![true]), (3, vec![true])];
    assert_eq!(area(Point { x: 0, y: 0 }, Point { x: 1, y: 0 }, &tab), 0);
}

#[test]
fn largest_rectangle_of_a_table() {
    let tab = table();
    let (ll, ur) = largest_rectangle(&tab, 4, 3);
    assert_eq!((ll.x, ll.y), (1, 1));
    assert_eq!((ur.x, ur.y), (3, 2));
}

#[test]
fn largest_rectangle_keeps_the_first_of_equal_areas() {
    let tab = vec![(0, vec![true, true]), (3, vec![true, true]), (6, vec![false, true])];
    let (ll, ur) = largest_rectangle(&tab, 3, 2);
    assert_eq!((ll.x, ll.y), (0, 0));
    assert_eq!((ur.x, ur.y), (1, 1));
}

#[test]
fn largest_rectangle_of_part_of_the_table() {
    let tab = table();
    let (ll, ur) = largest_rectangle(&tab, 3, 3);
    assert_eq!((ll.x, ll.y), (1, 1));
    assert_eq!((ur.x, ur.y), (2, 2));
    let (ll, ur) = largest_rectangle(&tab, 4, 1);
    assert_eq!((ll.x, ll.y), (0, 0));
    assert_eq!((ur.x, ur.y), (1, 0));
}

#[test]
fn largest_rectangle_without_a_rectangle() {
    let tab = vec![(1, vec![false, false]), (2, vec![false, false])];
    let (ll, ur) = largest_rectangle(&tab, 2, 2);
    assert_eq!((ll.x, ll.y), (0, 0));
    assert_eq!((ur.x, ur.y), (0, 0));
    let (ll, ur) = largest_rectangle(&Vec::new(), 0, 0);
    assert_eq!((ll.x, ll.y), (0, 0));
    assert_eq!((ur.x, ur.y), (0, 0));
}
