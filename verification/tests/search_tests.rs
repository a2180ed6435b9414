use palmtree::search::{find_key, find_key_linear, find_key_or_next, find_key_or_prev};

#[test]
fn test_find_key() {
    let keys: Vec<u64> = vec![2, 4, 6, 8];
    assert_eq!(Some(0), find_key(&keys, 0));
    assert_eq!(Some(0), find_key(&keys, 1));
    assert_eq!(Some(0), find_key(&keys, 2));
    assert_eq!(Some(1), find_key(&keys, 3));
    assert_eq!(Some(1), find_key(&keys, 4));
    assert_eq!(Some(2), find_key(&keys, 5));
    assert_eq!(Some(2), find_key(&keys, 6));
    assert_eq!(Some(3), find_key(&keys, 7));
    assert_eq!(Some(3), find_key(&keys, 8));
    assert_eq!(None, find_key(&keys, 9));
    assert_eq!(None, find_key(&keys, 10));
    assert_eq!(None, find_key(&keys, 31337));
}

#[test]
fn test_find_key_or_next() {
    let keys: Vec<u64> = vec![2, 4, 6, 8];
    assert_eq!(0, find_key_or_next(&keys, 0));
    assert_eq!(0, find_key_or_next(&keys, 1));
    assert_eq!(0, find_key_or_next(&keys, 2));
    assert_eq!(1, find_key_or_next(&keys, 3));
    assert_eq!(1, find_key_or_next(&keys, 4));
    assert_eq!(2, find_key_or_next(&keys, 5));
    assert_eq!(2, find_key_or_next(&keys, 6));
    assert_eq!(3, find_key_or_next(&keys, 7));
    assert_eq!(3, find_key_or_next(&keys, 8));
}

#[test]
fn test_find_key_or_prev() {
    let keys: Vec<u64> = vec![2, 4, 6, 8];
    assert_eq!(0, find_key_or_prev(&keys, 2));
    assert_eq!(0, find_key_or_prev(&keys, 3));
    assert_eq!(1, find_key_or_prev(&keys, 4));
    assert_eq!(1, find_key_or_prev(&keys, 5));
    assert_eq!(2, find_key_or_prev(&keys, 6));
    assert_eq!(2, find_key_or_prev(&keys, 7));
    assert_eq!(3, find_key_or_prev(&keys, 8));
    assert_eq!(3, find_key_or_prev(&keys, 9));
    assert_eq!(3, find_key_or_prev(&keys, 10));
}

#[test]
fn find_key_linear_matches_find_key() {
    let keys: Vec<u64> = vec![2, 4, 6, 8];
    let mut k: u64 = 0;
    while k < 12 {
        assert_eq!(find_key(&keys, k), find_key_linear(&keys, k));
        k += 1;
    }
}
