use linkstreams::data::iterators::uniform_link_generator::LinkCursor;
use linkstreams::data::link::Link;

fn run(nb_nodes: usize, time_max: u64) -> Vec<Link> {
    let mut cursor = LinkCursor::new(nb_nodes, time_max);
    let mut links: Vec<Link> = Vec::new();
    loop {
        match cursor.next_candidate() {
            Some(link) => links.push(link),
            None => break,
        }
    }
    assert!(cursor.done);
    assert_eq!(cursor.next_candidate(), None);
    links
}

#[test]
fn link_cursor_runs_back_in_time_through_all_pairs() {
    assert_eq!(
        run(3, 1),
        vec![
            Link { node1: 0, node2: 1, time: 1 },
            Link { node1: 0, node2: 2, time: 1 },
            Link { node1: 1, node2: 2, time: 1 },
            Link { node1: 0, node2: 1, time: 0 },
            Link { node1: 0, node2: 2, time: 0 },
            Link { node1: 1, node2: 2, time: 0 },
        ]
    );
}

#[test]
fn link_cursor_without_a_pair_gives_nothing() {
    assert_eq!(run(1, 5), Vec::<Link>::new());
    assert_eq!(run(0, 0), Vec::<Link>::new());
    assert_eq!(run(2, 0), vec![Link { node1: 0, node2: 1, time: 0 }]);
}

#[test]
fn link_cursor_shows_its_place() {
    let mut cursor = LinkCursor::new(4, 9);
    assert_eq!(cursor.current_link(), Link { node1: 0, node2: 1, time: 9 });
    assert_eq!(cursor.next_candidate(), Some(Link { node1: 0, node2: 1, time: 9 }));
    assert_eq!(cursor.current_link(), Link { node1: 0, node2: 2, time: 9 });
}
