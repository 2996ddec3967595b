use rskey::store::{OpenError, ReadOutcome, Store};

#[test]
fn new_store_contains_no_data() {
    let s = Store::new("store.kv".to_string());
    assert!(s.is_empty(), "unexpected data found in new store");
}

#[test]
fn sync_persists_changes_to_store() {
    let mut tmp = Store::new("store.kv".to_string());
    assert!(
        tmp.insert("k1".into(), "v1".into()).is_none(),
        "key should not already be present in new empty store"
    );
    let snapshot = tmp.sync();
    let s2 = Store::open(tmp.path().clone(), ReadOutcome::Content(snapshot))
        .expect("opening existing store should succeed");
    assert_eq!("v1", s2.get("k1").unwrap(), "expected data not returned");
}

#[test]
fn open_or_create_fn_accepts_nonexistent_path() {
    let s = Store::open("bogus".to_string(), ReadOutcome::Missing);
    assert!(s.is_ok(), "unexpected error: {:?}", s.err());
}

#[test]
fn open_or_create_fn_errors_on_invalid_path() {
    // a path component that is a file where a directory is expected makes the
    // read fail with something other than absence
    let s = Store::open(
        "not_a_directory/store_file".to_string(),
        ReadOutcome::Failed("not a directory".to_string()),
    );
    assert!(s.is_err(), "want error for invalid path, got {s:?}");
}

#[test]
fn set_then_get_returns_the_value() {
    let mut s = Store::new("store.kv".to_string());
    s.insert("key".to_string(), "value".to_string());
    assert_eq!("value", s.get("key").unwrap());
}

#[test]
fn last_write_wins_and_other_keys_unaffected() {
    let mut s = Store::new("store.kv".to_string());
    s.insert("other".to_string(), "kept".to_string());
    let first = s.insert("k".to_string(), "v1".to_string());
    assert!(first.is_none());
    let second = s.insert("k".to_string(), "v2".to_string());
    assert_eq!(Some("v1".to_string()), second);
    assert_eq!("v2", s.get("k").unwrap());
    assert_eq!("kept", s.get("other").unwrap());
    assert_eq!(2, s.len());
}

#[test]
fn get_on_never_inserted_key_is_absent() {
    let mut s = Store::new("store.kv".to_string());
    assert!(s.get("missing").is_none());
    s.insert("present".to_string(), "x".to_string());
    assert!(s.get("missing").is_none());
}

#[test]
fn save_and_reopen_reproduces_the_mapping() {
    let mut s = Store::new("data.kv".to_string());
    s.insert("k1".to_string(), "v1".to_string());
    s.insert("k2".to_string(), "v2".to_string());
    let snapshot = s.sync();
    let s2 = Store::open("data.kv".to_string(), ReadOutcome::Content(snapshot)).unwrap();
    assert_eq!(2, s2.len());
    assert_eq!("v1", s2.get("k1").unwrap());
    assert_eq!("v2", s2.get("k2").unwrap());
    let mut pairs = s2.entries().clone();
    pairs.sort();
    assert_eq!(
        vec![
            ("k1".to_string(), "v1".to_string()),
            ("k2".to_string(), "v2".to_string()),
        ],
        pairs
    );
}

#[test]
fn saving_twice_without_mutation_writes_the_same_snapshot() {
    let mut s = Store::new("data.kv".to_string());
    s.insert("a".to_string(), "1".to_string());
    s.insert("b".to_string(), "2".to_string());
    let first = s.sync();
    let second = s.sync();
    assert_eq!(first, second);
    let r1 = rskey::codec::decode(&first).unwrap();
    let r2 = rskey::codec::decode(&second).unwrap();
    assert_eq!(r1, r2);
}

#[test]
fn opening_a_missing_file_yields_an_empty_mapping() {
    let s = Store::open("absent.kv".to_string(), ReadOutcome::Missing).unwrap();
    assert!(s.is_empty());
    assert_eq!(0, s.len());
    assert!(s.get("anything").is_none());
}

#[test]
fn open_failure_surfaces_as_io_error() {
    let e = Store::open(
        "p.kv".to_string(),
        ReadOutcome::Failed("permission denied".to_string()),
    )
    .unwrap_err();
    assert!(matches!(e, OpenError::Io(ref m) if m == "permission denied"));
}

#[test]
fn corrupt_content_surfaces_as_decode_error() {
    let e = Store::open(
        "p.kv".to_string(),
        ReadOutcome::Content("not a snapshot".to_string()),
    )
    .unwrap_err();
    assert!(matches!(e, OpenError::Decode));
}

#[test]
fn duplicate_keys_in_a_snapshot_are_rejected() {
    let text = "{\"a\":\"1\",\"a\":\"2\"}".to_string();
    let e = Store::open("p.kv".to_string(), ReadOutcome::Content(text)).unwrap_err();
    assert!(matches!(e, OpenError::Decode));
}

#[test]
fn scenario_open_set_save_reopen() {
    // open an absent store.kv: the store starts empty
    let mut s = Store::open("store.kv".to_string(), ReadOutcome::Missing).unwrap();
    assert!(s.is_empty());
    // set key1 and save: the snapshot holds exactly that pair
    s.insert("key1".to_string(), "value1".to_string());
    let snap1 = s.sync();
    assert_eq!("{\"key1\":\"value1\"}", snap1);
    // set key2: the next snapshot holds both pairs
    s.insert("key2".to_string(), "value2".to_string());
    let snap2 = s.sync();
    assert_eq!("{\"key1\":\"value1\",\"key2\":\"value2\"}", snap2);
    // reopen the same path from what was last saved
    let s2 = Store::open("store.kv".to_string(), ReadOutcome::Content(snap2)).unwrap();
    assert_eq!("value1", s2.get("key1").unwrap());
    assert_eq!("value2", s2.get("key2").unwrap());
    assert!(s2.get("missing").is_none());
}

#[test]
fn entries_lists_every_pair_once() {
    let mut s = Store::new("store.kv".to_string());
    s.insert("a".to_string(), "1".to_string());
    s.insert("b".to_string(), "2".to_string());
    s.insert("a".to_string(), "3".to_string());
    let mut pairs = s.entries().clone();
    pairs.sort();
    assert_eq!(
        vec![
            ("a".to_string(), "3".to_string()),
            ("b".to_string(), "2".to_string()),
        ],
        pairs
    );
}

#[test]
fn path_is_kept_as_given() {
    let s = Store::new("some/dir/data.kv".to_string());
    assert_eq!("some/dir/data.kv", s.path());
}
