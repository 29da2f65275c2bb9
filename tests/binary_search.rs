use algorithms::binary_search::{binary_search, binary_search_first, binary_search_last};

#[test]
fn test_binary_search() {
    assert!(binary_search(&[1, 3, 5, 6, 7, 9], &0).is_none());
    assert!(binary_search(&[1, 3, 5, 6, 7, 9], &2).is_none());
    assert!(binary_search(&[1, 2, 2, 5, 5, 7, 8, 8, 9], &2).is_some());
    assert!(binary_search(&[1, 2, 2, 5, 5, 7, 8, 8, 9], &8).is_some());

    assert_eq!(binary_search(&[1, 3, 5, 6, 7, 9], &1), Some(0));
    assert_eq!(binary_search(&[1, 3, 5, 6, 7, 9], &9), Some(5));
    assert_eq!(binary_search(&[1, 2, 2, 5, 5, 7, 8, 8, 9], &7), Some(5));
}

#[test]
fn test_binary_search_first() {
    assert_eq!(binary_search_first(&[1, 1, 2, 2, 3, 3], |&x| x > 0), Some(0));
    assert_eq!(binary_search_first(&[1, 1, 2, 2, 3, 3], |&x| x >= 2), Some(2));
    assert_eq!(binary_search_first(&[1, 1, 2, 2, 3, 3, 4], |&x| x > 4), None);
    assert_eq!(binary_search_first(&[6, 5, 4, 3, 2, 1], |&x| x <= 4), Some(2));
}

#[test]
fn test_binary_search_last() {
    assert_eq!(binary_search_last(&[1, 1, 2, 2, 3, 3], |&x| x < 3), Some(3));
    assert_eq!(binary_search_last(&[1, 1, 2, 2, 3, 3], |&x| x <= 2), Some(3));
    assert_eq!(binary_search_last(&[1, 1, 2, 2, 3, 3, 4], |&x| x < 1), None);
    assert_eq!(binary_search_last(&[6, 5, 4, 3, 2, 1], |&x| x >= 4), Some(2));
}

#[test]
fn binary_search_empty_slice() {
    assert_eq!(binary_search(&[], &3), None);
    assert_eq!(binary_search_first(&[], |&x| x > 0), None);
    assert_eq!(binary_search_last(&[], |&x| x > 0), None);
}
