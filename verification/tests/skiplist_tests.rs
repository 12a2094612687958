use memtable::skiplist::{SkipList, K};
use std::cmp::Ordering;

#[test]
fn test_key() {
    let minimum1 = K::<i32>::Minimum;
    let minimum2 = K::<i32>::Minimum;
    assert_eq!(minimum1.cmp(&minimum2), Ordering::Equal);
    let x = K::Key(12);
    let y = K::Key(1);
    assert_eq!(minimum1.cmp(&x), Ordering::Less);
    assert_eq!(x.cmp(&minimum1), Ordering::Greater);
    assert_eq!(x.cmp(&y), Ordering::Greater);
}

#[test]
fn insert_contains_traversal_test() {
    // Insert "b", "a", "c": all three are found, "d" is not, and the
    // traversal is sorted.
    let mut list = SkipList::new();
    list.insert(b"b".to_vec());
    list.insert(b"a".to_vec());
    list.insert(b"c".to_vec());
    assert!(list.contains(&b"a".to_vec()));
    assert!(list.contains(&b"b".to_vec()));
    assert!(list.contains(&b"c".to_vec()));
    assert!(!list.contains(&b"d".to_vec()));
    let keys = list.keys_in_order();
    assert_eq!(keys, vec![b"a".to_vec(), b"b".to_vec(), b"c".to_vec()]);
}

#[test]
fn sortedness_many_test() {
    // Pseudo-random insertion order still reads back sorted.
    let mut list = SkipList::new();
    let mut expected: Vec<Vec<u8>> = Vec::new();
    let mut v: u32 = 7;
    for _ in 0..200 {
        v = (v * 131 + 13) % 1000;
        let key = format!("{:04}", v).into_bytes();
        if !expected.contains(&key) {
            expected.push(key.clone());
        }
        list.insert(key);
    }
    expected.sort();
    assert_eq!(list.keys_in_order(), expected);
    assert_eq!(list.len(), expected.len());
    for key in &expected {
        assert!(list.contains(key));
    }
}

#[test]
fn find_greater_or_equal_test() {
    let mut list = SkipList::new();
    list.insert(b"bb".to_vec());
    list.insert(b"dd".to_vec());
    list.insert(b"ff".to_vec());
    assert_eq!(list.find_greater_or_equal(&b"a".to_vec()), Some(b"bb".to_vec()));
    assert_eq!(list.find_greater_or_equal(&b"bb".to_vec()), Some(b"bb".to_vec()));
    assert_eq!(list.find_greater_or_equal(&b"cc".to_vec()), Some(b"dd".to_vec()));
    assert_eq!(list.find_greater_or_equal(&b"ff".to_vec()), Some(b"ff".to_vec()));
    assert_eq!(list.find_greater_or_equal(&b"fg".to_vec()), None);
}

#[test]
fn find_less_than_test() {
    let mut list = SkipList::new();
    list.insert(b"bb".to_vec());
    list.insert(b"dd".to_vec());
    assert_eq!(list.find_less_than(&b"bb".to_vec()), None);
    assert_eq!(list.find_less_than(&b"cc".to_vec()), Some(b"bb".to_vec()));
    assert_eq!(list.find_less_than(&b"zz".to_vec()), Some(b"dd".to_vec()));
    assert_eq!(list.find_less_than(&b"a".to_vec()), None);
}

#[test]
fn duplicate_insert_test() {
    // The documented duplicate policy: a second insert of a key is a no-op.
    let mut list = SkipList::new();
    list.insert(b"k".to_vec());
    list.insert(b"k".to_vec());
    assert_eq!(list.len(), 1);
    assert_eq!(list.keys_in_order(), vec![b"k".to_vec()]);
    assert!(list.contains(&b"k".to_vec()));
}

#[test]
fn empty_and_empty_key_test() {
    let mut list = SkipList::new();
    assert_eq!(list.len(), 0);
    assert_eq!(list.keys_in_order(), Vec::<Vec<u8>>::new());
    assert!(!list.contains(&Vec::new()));
    assert_eq!(list.find_greater_or_equal(&Vec::new()), None);
    // The empty key is a real key that sorts before everything.
    list.insert(Vec::new());
    list.insert(b"x".to_vec());
    assert!(list.contains(&Vec::new()));
    assert_eq!(list.keys_in_order(), vec![Vec::new(), b"x".to_vec()]);
    assert_eq!(list.find_greater_or_equal(&Vec::new()), Some(Vec::new()));
}
