use linkstreams::data::iterators::rename_link_iterator::rename;
use linkstreams::data::iterators::rename_link_iterator::RenameLinkIter;
use linkstreams::data::link::Link;

#[test]
fn rename_numbers_nodes_in_order_of_first_sight() {
    let links = vec![
        Link { node1: 40, node2: 7, time: 10 },
        Link { node1: 7, node2: 12, time: 9 },
        Link { node1: 12, node2: 40, time: 7 },
        Link { node1: 3, node2: 3, time: 4 },
    ];
    assert_eq!(
        rename(&links),
        vec![
            Link { node1: 0, node2: 1, time: 10 },
            Link { node1: 1, node2: 2, time: 9 },
            Link { node1: 2, node2: 0, time: 7 },
            Link { node1: 3, node2: 3, time: 4 },
        ]
    );
    assert_eq!(rename(&Vec::new()), Vec::<Link>::new());
}

#[test]
fn rename_link_iter_keeps_its_names() {
    let mut names = RenameLinkIter::new();
    assert_eq!(names.count, 0);
    assert_eq!(names.rename(Link { node1: 9, node2: 5, time: 3 }), Link { node1: 0, node2: 1, time: 3 });
    assert_eq!(names.count, 2);
    assert_eq!(names.rename(Link { node1: 5, node2: 5, time: 2 }), Link { node1: 1, node2: 1, time: 2 });
    assert_eq!(names.count, 2);
    assert_eq!(names.rename(Link { node1: 5, node2: 0, time: 1 }), Link { node1: 1, node2: 2, time: 1 });
    assert_eq!(names.count, 3);
    assert_eq!(names.seens.get(&9), Some(&0));
    assert_eq!(names.seens.get(&0), Some(&2));
    assert_eq!(names.seens.get(&1), None);
}
