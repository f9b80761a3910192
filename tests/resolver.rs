use backend_core::resolver::KeyResolver;

#[test]
fn one_batch_holds_each_requested_id_once() {
    let mut r = KeyResolver::new();
    for id in [7u128, 3, 7, 7, 5, 3] {
        assert_eq!(r.load_one(id), None);
    }
    assert_eq!(r.take_batch(), vec![7, 3, 5]);
    assert_eq!(r.take_batch(), Vec::<u128>::new());
}

#[test]
fn resolved_ids_are_answered_without_a_batch() {
    let mut r = KeyResolver::new();
    r.load_many(&vec![1, 2, 2, 3]);
    let batch = r.take_batch();
    assert_eq!(batch, vec![1, 2, 3]);
    r.complete(&vec![(3, "three".to_string()), (1, "one".to_string())]);
    assert_eq!(r.load_one(1), Some(Some("one".to_string())));
    assert_eq!(r.load_one(2), Some(None));
    assert_eq!(r.load_one(3), Some(Some("three".to_string())));
    r.load_many(&vec![1, 2, 3, 3]);
    assert!(r.take_batch().is_empty());
    assert_eq!(r.get(4), None);
}

#[test]
fn ids_in_flight_are_not_requested_twice() {
    let mut r = KeyResolver::new();
    r.load_one(1);
    assert_eq!(r.take_batch(), vec![1]);
    assert_eq!(r.load_one(1), None);
    assert_eq!(r.load_one(2), None);
    assert_eq!(r.take_batch(), vec![2]);
}

#[test]
fn failed_batch_leaves_ids_unresolved() {
    let mut r = KeyResolver::new();
    r.load_many(&vec![1, 2]);
    assert_eq!(r.take_batch(), vec![1, 2]);
    r.fail();
    assert_eq!(r.get(1), None);
    assert_eq!(r.load_one(2), None);
    assert_eq!(r.take_batch(), vec![2]);
}
