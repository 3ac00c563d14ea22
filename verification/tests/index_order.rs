use mini_bitcask::keydir::KeyCmp;
use mini_bitcask::keydir::KeyDir;
use mini_bitcask::keydir::ScanBound;
use mini_bitcask::keydir::ValueLoc;
use mini_bitcask::keydir::lex_compare;

#[test]
fn byte_order_is_lexicographic() {
    assert!(matches!(lex_compare(b"a", b"b"), KeyCmp::Less));
    assert!(matches!(lex_compare(b"b", b"a"), KeyCmp::Greater));
    assert!(matches!(lex_compare(b"abc", b"abc"), KeyCmp::Equal));
    // A proper prefix comes first.
    assert!(matches!(lex_compare(b"ab", b"abc"), KeyCmp::Less));
    assert!(matches!(lex_compare(b"", b"a"), KeyCmp::Less));
    assert!(matches!(lex_compare(b"", b""), KeyCmp::Equal));
    // The first differing byte decides, not the length.
    assert!(matches!(lex_compare(b"az", b"b"), KeyCmp::Less));
}

#[test]
fn index_insert_overwrite_remove() {
    let mut kd = KeyDir::new();
    assert_eq!(kd.len(), 0);
    assert_eq!(kd.get(b"k"), None);

    kd.insert(b"k".to_vec(), ValueLoc { offset: 8, len: 4 });
    assert_eq!(kd.get(b"k"), Some(ValueLoc { offset: 8, len: 4 }));
    assert_eq!(kd.len(), 1);

    // Overwriting keeps one slot per key.
    kd.insert(b"k".to_vec(), ValueLoc { offset: 20, len: 2 });
    assert_eq!(kd.get(b"k"), Some(ValueLoc { offset: 20, len: 2 }));
    assert_eq!(kd.len(), 1);

    kd.remove(b"k");
    assert_eq!(kd.get(b"k"), None);
    assert_eq!(kd.len(), 0);

    // Removing an absent key changes nothing.
    kd.remove(b"k");
    assert_eq!(kd.len(), 0);
}

#[test]
fn range_is_sorted_whatever_the_insertion_order() {
    let mut kd = KeyDir::new();
    let names: [&[u8]; 5] = [b"pear", b"apple", b"fig", b"quince", b"banana"];
    for (n, name) in names.iter().enumerate() {
        kd.insert(name.to_vec(), ValueLoc { offset: n as u64, len: 1 });
    }
    let all = kd.range(&ScanBound::Unbounded, &ScanBound::Unbounded);
    let keys: Vec<Vec<u8>> = all.iter().map(|e| e.key.clone()).collect();
    assert_eq!(
        keys,
        vec![
            b"apple".to_vec(),
            b"banana".to_vec(),
            b"fig".to_vec(),
            b"pear".to_vec(),
            b"quince".to_vec(),
        ]
    );

    let middle = kd.range(
        &ScanBound::Included(b"banana".to_vec()),
        &ScanBound::Excluded(b"pear".to_vec()),
    );
    let keys: Vec<Vec<u8>> = middle.iter().map(|e| e.key.clone()).collect();
    assert_eq!(keys, vec![b"banana".to_vec(), b"fig".to_vec()]);
}
