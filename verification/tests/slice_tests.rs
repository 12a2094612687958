use memtable::slice::Slice;

#[test]
fn start_with_test() {
    let slice1 = Slice::from_str("hello world");
    let slice2 = Slice::from_str("hello");
    assert_eq!(slice1.start_with(&slice2), true);
}

#[test]
fn remove_prefix_test() {
    let mut slice = Slice::from_str("hello world");
    let after = Slice::from_str("world");
    slice.remove_prefix(6);
    assert!(slice.eq(&after));
}

#[test]
fn clear_test() {
    let mut slice = Slice::from_str("hello");
    slice.clear();
    assert!(Slice::new().eq(&slice));
}

#[test]
fn cmp_test() {
    let slice1 = Slice::from_str("hello");
    let slice2 = Slice::from_str("hello, world");
    assert!(slice1 < slice2);
}

#[test]
fn from_slice_test() {
    let slice1 = Slice::from_str("hello");
    let slice2 = Slice::from_slice(&slice1);
    assert!(slice1.eq(&slice2));
}

#[test]
fn empty_test() {
    let mut slice1 = Slice::from_str("hello");
    slice1.clear();
    assert!(slice1.empty());
}

#[test]
fn size_and_index_test() {
    let slice = Slice::from_str("abc");
    assert_eq!(slice.size(), 3);
    assert_eq!(slice.index(0), b'a');
    assert_eq!(slice.index(2), b'c');
    assert_eq!(slice.data(), b"abc");
}

#[test]
fn remove_prefix_zero_and_all_test() {
    let mut slice = Slice::from_str("abc");
    slice.remove_prefix(0);
    assert!(slice.eq(&Slice::from_str("abc")));
    slice.remove_prefix(3);
    assert!(slice.empty());
}

#[test]
fn start_with_longer_test() {
    let short = Slice::from_str("he");
    let long = Slice::from_str("hello");
    assert!(!short.start_with(&long));
    assert!(short.start_with(&short));
}

#[test]
fn ordering_test() {
    // Differing byte decides; equal prefixes order by length.
    assert!(Slice::from_str("abc") < Slice::from_str("abd"));
    assert!(Slice::from_str("ab") < Slice::from_str("abc"));
    assert!(Slice::from_str("b") > Slice::from_str("ab"));
    assert!(Slice::from_str("") < Slice::from_str("a"));
    assert!(Slice::from_str("same").eq(&Slice::from_str("same")));
}
