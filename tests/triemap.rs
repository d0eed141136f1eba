use mork_kernel::trie::BytesTrieMap;

#[test]
fn test_basic_operations() {
    let mut trie = BytesTrieMap::new();

    assert_eq!(trie.insert(b"hello", 1), None);
    assert_eq!(trie.insert(b"world", 2), None);
    assert_eq!(trie.insert(b"hello", 3), Some(1));

    assert_eq!(trie.get(&b"hello"[..]), Some(&3));
    assert_eq!(trie.get(&b"world"[..]), Some(&2));
    assert_eq!(trie.get(&b"missing"[..]), None);

    assert!(trie.contains_key(&b"hello"[..]));
    assert!(!trie.contains_key(&b"missing"[..]));

    assert_eq!(trie.len(), 2);
    assert!(!trie.is_empty());

    assert_eq!(trie.remove(&b"hello"[..]), Some(3));
    assert_eq!(trie.remove(&b"hello"[..]), None);
    assert_eq!(trie.len(), 1);
}

#[test]
fn test_relational_operations() {
    let mut trie1 = BytesTrieMap::new();
    trie1.insert(b"a", 1);
    trie1.insert(b"b", 2);
    trie1.insert(b"c", 3);

    let mut trie2 = BytesTrieMap::new();
    trie2.insert(b"b", 20);
    trie2.insert(b"c", 30);
    trie2.insert(b"d", 40);

    let union = trie1.union(&trie2);
    assert_eq!(union.len(), 4);
    assert_eq!(union.get(&b"a"[..]), Some(&1));
    assert_eq!(union.get(&b"b"[..]), Some(&2));
    assert_eq!(union.get(&b"c"[..]), Some(&3));
    assert_eq!(union.get(&b"d"[..]), Some(&40));

    let intersection = trie1.intersection(&trie2);
    assert_eq!(intersection.len(), 2);
    assert_eq!(intersection.get(&b"b"[..]), Some(&2));
    assert_eq!(intersection.get(&b"c"[..]), Some(&3));
    assert_eq!(intersection.get(&b"a"[..]), None);
    assert_eq!(intersection.get(&b"d"[..]), None);

    let difference = trie1.difference(&trie2);
    assert_eq!(difference.len(), 1);
    assert_eq!(difference.get(&b"a"[..]), Some(&1));
    assert_eq!(difference.get(&b"b"[..]), None);
    assert_eq!(difference.get(&b"c"[..]), None);
}

#[test]
fn test_iterator() {
    let mut trie = BytesTrieMap::new();
    trie.insert(b"apple", 1);
    trie.insert(b"app", 2);
    trie.insert(b"application", 3);

    let items: Vec<_> = trie.iter();
    assert_eq!(items.len(), 3);

    let keys: Vec<Vec<u8>> = items.iter().map(|(k, _)| k.clone()).collect();
    assert!(keys.contains(&b"apple".to_vec()));
    assert!(keys.contains(&b"app".to_vec()));
    assert!(keys.contains(&b"application".to_vec()));
}

#[test]
fn test_triemap_relational_algebra() {
    let mut trie1 = BytesTrieMap::new();
    let mut trie2 = BytesTrieMap::new();

    trie1.insert(b"apple", "fruit1");
    trie1.insert(b"banana", "fruit2");
    trie1.insert(b"cherry", "fruit3");

    trie2.insert(b"banana", "yellow");
    trie2.insert(b"cherry", "red");
    trie2.insert(b"date", "brown");

    let union = trie1.union(&trie2);
    assert_eq!(union.len(), 4);
    assert!(union.contains_key(&b"apple"[..]));
    assert!(union.contains_key(&b"banana"[..]));
    assert!(union.contains_key(&b"cherry"[..]));
    assert!(union.contains_key(&b"date"[..]));

    let intersection = trie1.intersection(&trie2);
    assert_eq!(intersection.len(), 2);
    assert!(!intersection.contains_key(&b"apple"[..]));
    assert!(intersection.contains_key(&b"banana"[..]));
    assert!(intersection.contains_key(&b"cherry"[..]));
    assert!(!intersection.contains_key(&b"date"[..]));

    let difference = trie1.difference(&trie2);
    assert_eq!(difference.len(), 1);
    assert!(difference.contains_key(&b"apple"[..]));
    assert!(!difference.contains_key(&b"banana"[..]));
    assert!(!difference.contains_key(&b"cherry"[..]));
}

#[test]
fn test_triemap_scalability() {
    let mut trie = BytesTrieMap::new();
    for i in 0..10_000 {
        let key = format!("key_{:06}", i);
        trie.insert(key.as_bytes(), i);
    }
    for i in 0..1_000 {
        let key = format!("key_{:06}", i);
        assert!(trie.contains_key(key.as_bytes()));
    }
    assert_eq!(trie.len(), 10_000);
}

#[test]
fn iteration_is_byte_lexicographic() {
    let mut trie = BytesTrieMap::new();
    trie.insert(b"b", 1);
    trie.insert(b"ab", 2);
    trie.insert(b"a", 3);
    trie.insert(b"", 4);
    let keys: Vec<Vec<u8>> = trie.keys();
    assert_eq!(keys, vec![b"".to_vec(), b"a".to_vec(), b"ab".to_vec(), b"b".to_vec()]);
}

#[test]
fn owned_key_forms_and_counts() {
    let mut trie = BytesTrieMap::new();
    assert_eq!(trie.insert_owned(b"x".to_vec(), 7), None);
    assert_eq!(trie.get_owned(&b"x".to_vec()), Some(&7));
    assert_eq!(trie.val_count(), 1);
    let wz = trie.write_zipper_at_path(b"pre");
    assert_eq!(wz.origin, b"pre".to_vec());
}
