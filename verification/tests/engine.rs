use mini_bitcask::bitcask::MiniBitcask;
use mini_bitcask::codec::encode_record;
use mini_bitcask::errors::Error;
use mini_bitcask::keydir::ScanBound;
use mini_bitcask::log::Log;

#[test]
fn test_bitcask() {
    let mut bitcask = MiniBitcask::new();
    bitcask.set(b"a", vec![1, 2, 3, 4]).unwrap();
    bitcask.set(b"b", vec![5, 6, 7, 8]).unwrap();
    bitcask.set(b"c", vec![9, 10, 11, 12]).unwrap();
}

#[test]
fn test_point_opt() {
    let mut eng = MiniBitcask::new();

    // A key that was never written.
    assert_eq!(eng.get(b"not exist").unwrap(), None);

    // An existing key.
    eng.set(b"aa", vec![1, 2, 3, 4]).unwrap();
    assert_eq!(eng.get(b"aa").unwrap(), Some(vec![1, 2, 3, 4]));

    // A repeated set overwrites the earlier value.
    eng.set(b"aa", vec![5, 6, 7, 8]).unwrap();
    assert_eq!(eng.get(b"aa").unwrap(), Some(vec![5, 6, 7, 8]));

    // Reading after a delete.
    eng.delete(b"aa").unwrap();
    assert_eq!(eng.get(b"aa").unwrap(), None);

    // Empty key and empty value.
    assert_eq!(eng.get(b"").unwrap(), None);
    eng.set(b"", vec![]).unwrap();
    assert_eq!(eng.get(b"").unwrap(), Some(vec![]));

    eng.set(b"cc", vec![5, 6, 7, 8]).unwrap();
    assert_eq!(eng.get(b"cc").unwrap(), Some(vec![5, 6, 7, 8]));
}

#[test]
fn test_log() {
    let mut log = Log::new();
    log.append(b"a", Some(b"val1"));
    log.append(b"b", Some(b"val2"));
    log.append(b"c", Some(b"val3"));

    // rewrite
    log.append(b"a", Some(b"val5"));
    // delete
    log.append(b"c", None);

    let (key_dir, valid) = log.load_index();
    assert_eq!(key_dir.len(), 2);
    assert_eq!(valid, log.len());

    let all = key_dir.range(&ScanBound::Unbounded, &ScanBound::Unbounded);
    let keys: Vec<Vec<u8>> = all.iter().map(|e| e.key.clone()).collect();
    assert_eq!(keys, vec![b"a".to_vec(), b"b".to_vec()]);

    // The live value of "a" is the rewritten one.
    let loc = key_dir.get(b"a").unwrap();
    assert_eq!(log.read_value(loc.offset, loc.len).unwrap(), b"val5".to_vec());
}

#[test]
fn test_scan() {
    let mut eng = MiniBitcask::new();

    eng.set(b"nnaes", b"value1".to_vec()).unwrap();
    eng.set(b"amhue", b"value2".to_vec()).unwrap();
    eng.set(b"meeae", b"value3".to_vec()).unwrap();
    eng.set(b"uujeh", b"value4".to_vec()).unwrap();
    eng.set(b"anehe", b"value5".to_vec()).unwrap();

    let start = ScanBound::Included(b"a".to_vec());
    let end = ScanBound::Excluded(b"e".to_vec());
    let found = eng.scan(&start, &end);
    assert_eq!(found[0].0, b"amhue".to_vec());
    assert_eq!(found[1].0, b"anehe".to_vec());

    // Walk a second range from its back, as a reverse scan would.
    let start = ScanBound::Included(b"b".to_vec());
    let end = ScanBound::Excluded(b"z".to_vec());
    let found = eng.scan(&start, &end);
    assert_eq!(found[found.len() - 1].0, b"uujeh".to_vec());
    assert_eq!(found[found.len() - 2].0, b"nnaes".to_vec());
    assert_eq!(found[found.len() - 3].0, b"meeae".to_vec());
}

#[test]
fn scan_bounds_and_values() {
    let mut eng = MiniBitcask::new();
    eng.set(b"a", b"1".to_vec()).unwrap();
    eng.set(b"b", b"2".to_vec()).unwrap();
    eng.set(b"c", b"3".to_vec()).unwrap();
    eng.delete(b"b").unwrap();

    let all = eng.scan(&ScanBound::Unbounded, &ScanBound::Unbounded);
    assert_eq!(
        all,
        vec![(b"a".to_vec(), b"1".to_vec()), (b"c".to_vec(), b"3".to_vec())]
    );

    // Inclusive versus exclusive endpoints.
    let upto_c = eng.scan(&ScanBound::Unbounded, &ScanBound::Included(b"c".to_vec()));
    assert_eq!(upto_c.len(), 2);
    let below_c = eng.scan(&ScanBound::Unbounded, &ScanBound::Excluded(b"c".to_vec()));
    assert_eq!(below_c, vec![(b"a".to_vec(), b"1".to_vec())]);
    let above_a = eng.scan(&ScanBound::Excluded(b"a".to_vec()), &ScanBound::Unbounded);
    assert_eq!(above_a, vec![(b"c".to_vec(), b"3".to_vec())]);
    let empty = eng.scan(
        &ScanBound::Excluded(b"a".to_vec()),
        &ScanBound::Excluded(b"c".to_vec()),
    );
    assert_eq!(empty, Vec::<(Vec<u8>, Vec<u8>)>::new());
}

#[test]
fn reopen_recovers_every_key() {
    let mut eng = MiniBitcask::new();
    eng.set(b"a", b"val1".to_vec()).unwrap();
    eng.set(b"b", b"val2".to_vec()).unwrap();
    eng.set(b"a", b"val3".to_vec()).unwrap();
    eng.delete(b"b").unwrap();
    eng.set(b"c", vec![]).unwrap();

    let stored = eng.log_data().clone();
    let reopened = MiniBitcask::open(stored);
    assert_eq!(reopened.get(b"a").unwrap(), Some(b"val3".to_vec()));
    assert_eq!(reopened.get(b"b").unwrap(), None);
    assert_eq!(reopened.get(b"c").unwrap(), Some(vec![]));
    assert_eq!(reopened.log_len(), eng.log_len());

    // Reopening a second time changes nothing either.
    let again = MiniBitcask::open(reopened.log_data().clone());
    assert_eq!(again.get(b"a").unwrap(), Some(b"val3".to_vec()));
    assert_eq!(again.get(b"b").unwrap(), None);
    assert_eq!(again.get(b"c").unwrap(), Some(vec![]));
}

#[test]
fn truncated_tail_keeps_earlier_records() {
    let mut eng = MiniBitcask::new();
    eng.set(b"a", b"val1".to_vec()).unwrap();
    eng.set(b"b", b"val2".to_vec()).unwrap();

    // A crash in the middle of appending one more record leaves only part
    // of its bytes behind.
    let mut stored = eng.log_data().clone();
    let partial = encode_record(b"c", Some(b"val3"));
    stored.extend_from_slice(&partial[..partial.len() - 3]);

    let reopened = MiniBitcask::open(stored);
    assert_eq!(reopened.get(b"a").unwrap(), Some(b"val1".to_vec()));
    assert_eq!(reopened.get(b"b").unwrap(), Some(b"val2".to_vec()));
    assert_eq!(reopened.get(b"c").unwrap(), None);
    // The partial bytes are dropped, nothing else.
    assert_eq!(reopened.log_len(), eng.log_len());
}

#[test]
fn truncation_inside_last_record_loses_only_it() {
    let mut eng = MiniBitcask::new();
    eng.set(b"a", b"val1".to_vec()).unwrap();
    eng.set(b"b", b"val2".to_vec()).unwrap();

    let mut stored = eng.log_data().clone();
    stored.truncate(stored.len() - 3);

    let reopened = MiniBitcask::open(stored);
    assert_eq!(reopened.get(b"a").unwrap(), Some(b"val1".to_vec()));
    assert_eq!(reopened.get(b"b").unwrap(), None);
}

#[test]
fn merge_preserves_values_and_compacts() {
    let mut eng = MiniBitcask::new();
    eng.set(b"a", b"val1".to_vec()).unwrap();
    eng.set(b"b", b"val2".to_vec()).unwrap();
    eng.set(b"a", b"val11".to_vec()).unwrap();
    eng.delete(b"b").unwrap();

    assert_eq!(eng.get(b"a").unwrap(), Some(b"val11".to_vec()));
    assert_eq!(eng.get(b"b").unwrap(), None);

    eng.merge().unwrap();

    assert_eq!(eng.get(b"a").unwrap(), Some(b"val11".to_vec()));
    assert_eq!(eng.get(b"b").unwrap(), None);
    // Only the one live record remains: 8 header bytes, 1 key byte and 5
    // value bytes.
    assert_eq!(eng.log_len(), 14);
}

#[test]
fn merge_keeps_every_live_record() {
    let mut eng = MiniBitcask::new();
    eng.set(b"x", b"old".to_vec()).unwrap();
    eng.set(b"y", b"keep".to_vec()).unwrap();
    eng.set(b"x", b"new".to_vec()).unwrap();
    eng.set(b"z", vec![]).unwrap();
    eng.delete(b"missing").unwrap();

    eng.merge().unwrap();

    assert_eq!(eng.get(b"x").unwrap(), Some(b"new".to_vec()));
    assert_eq!(eng.get(b"y").unwrap(), Some(b"keep".to_vec()));
    assert_eq!(eng.get(b"z").unwrap(), Some(vec![]));
    assert_eq!(eng.get(b"missing").unwrap(), None);
    // x -> new (12), y -> keep (13), z -> empty (9).
    assert_eq!(eng.log_len(), 34);

    // The compacted log replays to the same state.
    let reopened = MiniBitcask::open(eng.log_data().clone());
    assert_eq!(reopened.get(b"x").unwrap(), Some(b"new".to_vec()));
    assert_eq!(reopened.get(b"y").unwrap(), Some(b"keep".to_vec()));
    assert_eq!(reopened.get(b"z").unwrap(), Some(vec![]));
}

#[test]
fn merge_writes_records_in_old_log_order() {
    let mut eng = MiniBitcask::new();
    eng.set(b"b", b"2".to_vec()).unwrap();
    eng.set(b"a", b"1".to_vec()).unwrap();
    eng.set(b"c", b"3".to_vec()).unwrap();
    eng.set(b"b", b"22".to_vec()).unwrap();

    eng.merge().unwrap();

    // The survivors keep the order their values stood in the old log:
    // a, then c, then the rewrite of b — not key order.
    let mut expected = encode_record(b"a", Some(b"1"));
    expected.extend_from_slice(&encode_record(b"c", Some(b"3")));
    expected.extend_from_slice(&encode_record(b"b", Some(b"22")));
    assert_eq!(eng.log_data().clone(), expected);

    assert_eq!(eng.get(b"a").unwrap(), Some(b"1".to_vec()));
    assert_eq!(eng.get(b"b").unwrap(), Some(b"22".to_vec()));
    assert_eq!(eng.get(b"c").unwrap(), Some(b"3".to_vec()));
}

#[test]
fn merge_on_empty_log_is_a_no_op() {
    let mut eng = MiniBitcask::new();
    eng.merge().unwrap();
    assert_eq!(eng.log_len(), 0);
    assert_eq!(eng.get(b"a").unwrap(), None);
}

#[test]
fn open_on_garbage_bytes_recovers_nothing() {
    // Bytes too short for even one header are one big partial tail.
    let eng = MiniBitcask::open(vec![1, 2, 3]);
    assert_eq!(eng.get(b"a").unwrap(), None);
    assert_eq!(eng.log_len(), 0);
    let empty = eng.scan(&ScanBound::Unbounded, &ScanBound::Unbounded);
    assert_eq!(empty, Vec::<(Vec<u8>, Vec<u8>)>::new());
}

#[test]
fn delete_of_absent_key_still_appends_a_tombstone() {
    let mut eng = MiniBitcask::new();
    eng.delete(b"ghost").unwrap();
    assert_eq!(eng.get(b"ghost").unwrap(), None);
    // The tombstone is written even though the key was never set: 8 header
    // bytes plus the 5 key bytes.
    assert_eq!(eng.log_len(), 13);
}

#[test]
fn read_value_past_end_is_short_read() {
    let mut log = Log::new();
    log.append(b"a", Some(b"v"));
    assert!(matches!(log.read_value(8, 100), Err(Error::ShortRead)));
    assert!(matches!(log.read_value(1000, 1), Err(Error::ShortRead)));
}
