use kvs::codec::{decode_record, encode_record};
use kvs::{KvStore, KvStoreError, LogWrite};

fn s(x: &str) -> String {
    x.to_string()
}

/// Applies what a write hands back to an image of the log file.
fn apply(file: &mut Vec<u8>, w: LogWrite) {
    match w {
        LogWrite::Append(b) => file.extend_from_slice(&b),
        LogWrite::Rewrite(b) => *file = b,
    }
}

#[test]
fn set_then_get_returns_value() {
    let mut st = KvStore::open(Vec::new());
    st.set(s("key1"), s("value1")).unwrap();
    assert_eq!(st.get(s("key1")).unwrap(), Some(s("value1")));
}

#[test]
fn overwrite_returns_latest() {
    let mut st = KvStore::open(Vec::new());
    st.set(s("k"), s("v1")).unwrap();
    st.set(s("k"), s("v2")).unwrap();
    assert_eq!(st.get(s("k")).unwrap(), Some(s("v2")));
}

#[test]
fn remove_then_get_is_absent_and_second_remove_fails() {
    let mut st = KvStore::open(Vec::new());
    st.set(s("k"), s("v")).unwrap();
    st.remove(s("k")).unwrap();
    assert_eq!(st.get(s("k")).unwrap(), None);
    assert_eq!(
        st.remove(s("k")).err(),
        Some(KvStoreError::KeyNotFound { key: s("k") })
    );
}

#[test]
fn remove_missing_key_fails() {
    let mut st = KvStore::open(Vec::new());
    assert_eq!(
        st.remove(s("nope")).err(),
        Some(KvStoreError::KeyNotFound { key: s("nope") })
    );
}

#[test]
fn get_missing_key_is_none() {
    let mut st = KvStore::open(Vec::new());
    assert_eq!(st.get(s("missing")).unwrap(), None);
}

#[test]
fn reopen_keeps_values() {
    let mut file: Vec<u8> = Vec::new();
    let mut st = KvStore::open(file.clone());
    apply(&mut file, st.set(s("k"), s("v")).unwrap());
    apply(&mut file, st.set(s("other"), s("x")).unwrap());
    apply(&mut file, st.remove(s("other")).unwrap());
    let mut again = KvStore::open(file.clone());
    assert_eq!(again.get(s("k")).unwrap(), Some(s("v")));
    assert_eq!(again.get(s("other")).unwrap(), None);
}

#[test]
fn compaction_keeps_visible_state_and_shrinks_log() {
    let mut file: Vec<u8> = Vec::new();
    let mut st = KvStore::open(file.clone());
    for i in 0..10 {
        apply(&mut file, st.set(format!("key{}", i), s("old")).unwrap());
    }
    apply(&mut file, st.remove(s("key9")).unwrap());
    for i in 0..90 {
        apply(&mut file, st.set(format!("key{}", i % 5), format!("v{}", i)).unwrap());
    }
    let before = file.len();
    // The hundred-and-first set crosses the threshold.
    let w = st.set(s("key7"), s("new")).unwrap();
    assert!(matches!(w, LogWrite::Rewrite(_)));
    apply(&mut file, w);
    assert!(file.len() <= before);
    for i in 0..5 {
        let expect = format!("v{}", 85 + i);
        assert_eq!(st.get(format!("key{}", i)).unwrap(), Some(expect));
    }
    assert_eq!(st.get(s("key5")).unwrap(), Some(s("old")));
    assert_eq!(st.get(s("key7")).unwrap(), Some(s("new")));
    assert_eq!(st.get(s("key9")).unwrap(), None);
    let mut again = KvStore::open(file.clone());
    assert_eq!(again.get(s("key4")).unwrap(), Some(s("v89")));
    assert_eq!(again.get(s("key7")).unwrap(), Some(s("new")));
    assert_eq!(again.get(s("key9")).unwrap(), None);
}

#[test]
fn sets_below_threshold_only_append() {
    let mut st = KvStore::open(Vec::new());
    for i in 0..100 {
        let w = st.set(format!("k{}", i), s("v")).unwrap();
        assert!(matches!(w, LogWrite::Append(_)));
    }
}

#[test]
fn replay_follows_log_order() {
    let mut file: Vec<u8> = Vec::new();
    for (k, v) in [("k", Some("a")), ("k", Some("b")), ("k", None), ("k", Some("c"))] {
        let rec = encode_record(&s(k), &v.map(s));
        file.extend_from_slice(&rec);
        file.push(b'\n');
    }
    let mut st = KvStore::open(file);
    assert_eq!(st.get(s("k")).unwrap(), Some(s("c")));
}

#[test]
fn example_scenario() {
    let mut st = KvStore::open(Vec::new());
    st.set(s("a"), s("1")).unwrap();
    st.set(s("b"), s("2")).unwrap();
    assert_eq!(st.get(s("a")).unwrap(), Some(s("1")));
    st.remove(s("a")).unwrap();
    assert_eq!(st.get(s("a")).unwrap(), None);
    assert_eq!(st.get(s("b")).unwrap(), Some(s("2")));
}

#[test]
fn record_encoding_is_ron_text() {
    let rec = encode_record(&s("key"), &Some(s("va\"l\nue")));
    assert_eq!(String::from_utf8(rec.clone()).unwrap(), "(\"key\",Some(\"va\\\"l\\nue\"))");
    assert!(!rec.contains(&b'\n'));
    assert_eq!(decode_record(&rec).unwrap(), (s("key"), Some(s("va\"l\nue"))));
    let rm = encode_record(&s("key"), &None);
    assert_eq!(String::from_utf8(rm).unwrap(), "(\"key\",None)");
}

#[test]
fn values_with_newlines_round_trip() {
    let mut file: Vec<u8> = Vec::new();
    let mut st = KvStore::open(file.clone());
    apply(&mut file, st.set(s("multi\nline"), s("a\nb")).unwrap());
    let mut again = KvStore::open(file);
    assert_eq!(again.get(s("multi\nline")).unwrap(), Some(s("a\nb")));
}

#[test]
fn corrupt_record_fails_with_convert_error() {
    let mut st = KvStore::open(b"not ron at all\n".to_vec());
    assert!(matches!(
        st.get(s("k")),
        Err(KvStoreError::CommandConvertError { .. })
    ));
    // A set below the compaction threshold only appends; it does not replay.
    assert!(matches!(st.set(s("k"), s("v")), Ok(LogWrite::Append(_))));
    assert!(matches!(
        st.remove(s("k")),
        Err(KvStoreError::CommandConvertError { .. })
    ));
}

#[test]
fn set_appends_exactly_the_encoded_record() {
    let mut st = KvStore::open(Vec::new());
    let mut expected = encode_record(&s("k"), &Some(s("v")));
    expected.push(b'\n');
    match st.set(s("k"), s("v")).unwrap() {
        LogWrite::Append(b) => assert_eq!(b, expected),
        LogWrite::Rewrite(_) => panic!("no compaction expected"),
    }
    let mut rm = encode_record(&s("k"), &None);
    rm.push(b'\n');
    match st.remove(s("k")).unwrap() {
        LogWrite::Append(b) => assert_eq!(b, rm),
        LogWrite::Rewrite(_) => panic!("remove never compacts"),
    }
}

#[test]
fn compacted_log_holds_one_set_per_live_key() {
    let mut file: Vec<u8> = Vec::new();
    let mut st = KvStore::open(file.clone());
    for i in 0..100 {
        apply(&mut file, st.set(s("only"), format!("v{}", i)).unwrap());
    }
    apply(&mut file, st.set(s("only"), s("last")).unwrap());
    let mut expected = encode_record(&s("only"), &Some(s("last")));
    expected.push(b'\n');
    assert_eq!(file, expected);
}

#[test]
fn record_without_newline_fails() {
    let rec = encode_record(&s("k"), &Some(s("v")));
    let mut st = KvStore::open(rec);
    assert!(matches!(
        st.get(s("k")),
        Err(KvStoreError::CommandConvertError { .. })
    ));
}

#[test]
fn empty_key_and_value() {
    let mut st = KvStore::open(Vec::new());
    st.set(s(""), s("")).unwrap();
    assert_eq!(st.get(s("")).unwrap(), Some(s("")));
}

#[test]
fn unicode_values_round_trip() {
    let mut file: Vec<u8> = Vec::new();
    let mut st = KvStore::open(file.clone());
    apply(&mut file, st.set(s("clé"), s("\u{301}é\t\0\u{7f}")).unwrap());
    let mut again = KvStore::open(file);
    assert_eq!(again.get(s("clé")).unwrap(), Some(s("\u{301}é\t\0\u{7f}")));
}
