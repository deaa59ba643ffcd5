use linkstreams::algo::boolvec::and;
use linkstreams::algo::boolvec::boolvec_to_set;
use linkstreams::algo::boolvec::diff;
use linkstreams::algo::boolvec::or;
use linkstreams::algo::boolvec::or_v;

#[test]
fn and_is_taken_index_by_index() {
    assert_eq!(and(&vec![false, true], &vec![true, false]), vec![false, false]);
    assert_eq!(and(&vec![true, true], &vec![true, false]), vec![true, false]);
    assert_eq!(and(&vec![false, true], &vec![false, true]), vec![false, true]);
}

#[test]
fn and_stops_at_the_shorter_vector() {
    assert_eq!(and(&vec![false, true], &vec![false, true, false]), vec![false, true]);
    assert_eq!(and(&vec![], &vec![true]), Vec::<bool>::new());
}

#[test]
fn or_is_taken_index_by_index() {
    assert_eq!(or(&vec![false, true], &vec![true, false]), vec![true, true]);
    assert_eq!(or(&vec![false, false, true], &vec![false, true]), vec![false, true]);
}

#[test]
fn or_v_covers_the_whole_length() {
    let rows = vec![vec![true, false, false], vec![false, false, true], vec![false, false, false]];
    assert_eq!(or_v(&rows), vec![true, false, true]);
    assert_eq!(or_v(&vec![vec![false, true]]), vec![false, true]);
    assert_eq!(or_v(&vec![vec![false], vec![false, true]]), vec![false]);
}

#[test]
fn diff_tells_vectors_apart() {
    let v1 = vec![false, true];
    let v2 = vec![false, true];
    let v3 = vec![false, false];
    assert!(!diff(&v1, &v2));
    assert!(diff(&v1, &v3));
    assert!(diff(&v1, &vec![false, true, false]));
    assert!(!diff(&vec![], &vec![]));
}

#[test]
fn boolvec_to_set_lists_true_indices() {
    assert_eq!(boolvec_to_set(&vec![true, false, true, false]), vec![0, 2]);
    assert_eq!(boolvec_to_set(&vec![false, false]), Vec::<usize>::new());
    assert_eq!(boolvec_to_set(&vec![]), Vec::<usize>::new());
    assert_eq!(boolvec_to_set(&vec![true, true, true]), vec![0, 1, 2]);
}
