use libactionkv::Index;

#[test]
fn a_new_index_is_empty() {
    let index = Index::new();
    assert!(index.is_empty());
    assert_eq!(index.get(&[1, 2, 3]), None);
    assert_eq!(index.get(&[]), None);
}

#[test]
fn set_then_get() {
    let mut index = Index::new();
    index.set(vec![1, 2, 3], 42);
    assert!(!index.is_empty());
    assert_eq!(index.get(&[1, 2, 3]), Some(42));
    assert_eq!(index.get(&[1, 2]), None);
    assert_eq!(index.get(&[1, 2, 3, 4]), None);
    assert_eq!(index.get(&[1, 2, 4]), None);
}

#[test]
fn set_overwrites_the_offset_of_a_key() {
    let mut index = Index::new();
    index.set(vec![0xAA], 0);
    index.set(vec![0xBB], 12);
    index.set(vec![0xAA], 24);
    assert_eq!(index.get(&[0xAA]), Some(24));
    assert_eq!(index.get(&[0xBB]), Some(12));
}

#[test]
fn the_empty_key_is_a_key() {
    let mut index = Index::new();
    index.set(Vec::new(), 7);
    assert_eq!(index.get(&[]), Some(7));
    assert_eq!(index.get(&[0]), None);
}

#[test]
fn offsets_take_the_whole_width() {
    let mut index = Index::new();
    index.set(vec![1], u64::MAX);
    assert_eq!(index.get(&[1]), Some(u64::MAX));
}
