use phylo2vec::utils::{check_v, sample, BoundError, SampleOrdering};

#[test]
fn test_sample() {
    let v = sample(20, SampleOrdering::Ordered);
    assert_eq!(v.len(), 19);
    for i in 0..19 {
        assert!(v[i] <= i);
    }
    check_v(&v).unwrap();

    let v = sample(20, SampleOrdering::NotOrdered);
    assert_eq!(v.len(), 19);
    check_v(&v).unwrap();
    for i in 0..19 {
        assert!(v[i] <= 2 * i);
    }
}

#[test]
fn test_check_v() {
    check_v(&vec![0, 0, 2, 1, 0]).unwrap();
}

#[test]
#[should_panic]
fn test_check_v_should_panic() {
    check_v(&vec![0, 0, 9, 1]).unwrap();
}

#[test]
fn check_v_reports_the_first_entry_out_of_bounds() {
    assert_eq!(check_v(&vec![0, 0, 9, 1]), Err(BoundError { index: 2, value: 9 }));
    assert_eq!(check_v(&vec![1]), Err(BoundError { index: 0, value: 1 }));
    assert_eq!(check_v(&vec![0, 3, 9]), Err(BoundError { index: 1, value: 3 }));
}

#[test]
fn check_v_accepts_the_bounds_themselves() {
    assert_eq!(check_v(&vec![]), Ok(()));
    assert_eq!(check_v(&vec![0, 2, 4, 6, 8]), Ok(()));
    assert_eq!(check_v(&vec![0, 2, 5]), Err(BoundError { index: 2, value: 5 }));
}

#[test]
fn sample_of_one_leaf_is_empty() {
    assert!(sample(1, SampleOrdering::Ordered).is_empty());
    assert!(sample(1, SampleOrdering::NotOrdered).is_empty());
}

#[test]
fn sample_default_ordering_is_not_ordered() {
    assert!(matches!(SampleOrdering::default(), SampleOrdering::NotOrdered));
    let v = sample(200, SampleOrdering::default());
    assert_eq!(v.len(), 199);
    assert_eq!(check_v(&v), Ok(()));
    assert_eq!(v[0], 0);
}
