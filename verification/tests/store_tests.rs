//! Behaviour of the store through its public API: the scenarios around
//! `open`, `set`, `get` and `remove`, durability across reopen, and the
//! replay merge rules.

use kvs::store::KvStore;
use kvs::stream::encode_command;
use kvs::command::KvsCommand;
use kvs::KvsError;

fn fresh() -> KvStore {
    KvStore::open(Vec::new()).unwrap()
}

#[test]
fn open_empty_set_get() {
    let mut st = fresh();
    st.set("key1".to_string(), "value1".to_string()).unwrap();
    let got = st.get("key1".to_string()).unwrap();
    assert_eq!(got, Some("value1".to_string()));
}

#[test]
fn get_missing_is_no_value() {
    let mut st = fresh();
    assert_eq!(st.get("missing".to_string()).unwrap(), None);
}

#[test]
fn overwrite_then_reopen() {
    let mut st = fresh();
    st.set("key1".to_string(), "value1".to_string()).unwrap();
    st.set("key1".to_string(), "value2".to_string()).unwrap();
    assert_eq!(st.get("key1".to_string()).unwrap(), Some("value2".to_string()));
    let log = st.take_pending();
    let mut st2 = KvStore::open(vec![log]).unwrap();
    assert_eq!(st2.get("key1".to_string()).unwrap(), Some("value2".to_string()));
}

#[test]
fn set_remove_get_remove() {
    let mut st = fresh();
    st.set("a".to_string(), "1".to_string()).unwrap();
    st.remove("a".to_string()).unwrap();
    assert_eq!(st.get("a".to_string()).unwrap(), None);
    let err = st.remove("a".to_string()).unwrap_err();
    assert!(matches!(err, KvsError::KeyNotFound));
}

#[test]
fn remove_on_fresh_store_is_key_not_found() {
    let mut st = fresh();
    let err = st.remove("a".to_string()).unwrap_err();
    assert!(matches!(err, KvsError::KeyNotFound));
    assert_eq!(err.message(), "Key not found".to_string());
}

#[test]
fn log_grows_with_each_mutation() {
    let mut st = fresh();
    st.set("k".to_string(), "v1".to_string()).unwrap();
    let first = st.take_pending();
    assert!(!first.is_empty());
    st.set("k".to_string(), "v2".to_string()).unwrap();
    let second = st.take_pending();
    assert!(!second.is_empty());
    st.remove("k".to_string()).unwrap();
    let third = st.take_pending();
    assert!(!third.is_empty());
    // the log never shrinks: each mutation appended a record, and the
    // whole text replays to the final state
    let whole = format!("{}{}{}", first, second, third);
    let mut st2 = KvStore::open(vec![whole]).unwrap();
    assert_eq!(st2.get("k".to_string()).unwrap(), None);
}

#[test]
fn overwriting_leaves_single_mapping() {
    let mut st = fresh();
    for i in 0..10 {
        st.set("k".to_string(), format!("v{}", i)).unwrap();
    }
    assert_eq!(st.get("k".to_string()).unwrap(), Some("v9".to_string()));
    let log = st.take_pending();
    let mut st2 = KvStore::open(vec![log]).unwrap();
    assert_eq!(st2.get("k".to_string()).unwrap(), Some("v9".to_string()));
}

#[test]
fn awkward_values_round_trip() {
    let mut st = fresh();
    let value = "a \"quoted\" piece, a back\\slash, a\nnewline and a tab\t".to_string();
    st.set("key".to_string(), value.clone()).unwrap();
    assert_eq!(st.get("key".to_string()).unwrap(), Some(value.clone()));
    let log = st.take_pending();
    let mut st2 = KvStore::open(vec![log]).unwrap();
    assert_eq!(st2.get("key".to_string()).unwrap(), Some(value));
}

#[test]
fn non_ascii_values_round_trip() {
    let mut st = fresh();
    let value = "héllo wörld — ☃".to_string();
    st.set("clé".to_string(), value.clone()).unwrap();
    let log = st.take_pending();
    let mut st2 = KvStore::open(vec![log]).unwrap();
    assert_eq!(st2.get("clé".to_string()).unwrap(), Some(value));
}

#[test]
fn reopen_equals_state_before_exit() {
    let mut st = fresh();
    st.set("a".to_string(), "1".to_string()).unwrap();
    st.set("b".to_string(), "2".to_string()).unwrap();
    st.set("a".to_string(), "3".to_string()).unwrap();
    st.remove("b".to_string()).unwrap();
    st.set("c".to_string(), "4".to_string()).unwrap();
    let log = st.take_pending();
    let mut st2 = KvStore::open(vec![log]).unwrap();
    assert_eq!(st2.get("a".to_string()).unwrap(), Some("3".to_string()));
    assert_eq!(st2.get("b".to_string()).unwrap(), None);
    assert_eq!(st2.get("c".to_string()).unwrap(), Some("4".to_string()));
}

#[test]
fn replay_merges_segments_by_timestamp() {
    // newer records win whatever segment they sit in
    let seg1 = format!(
        "{}{}",
        encode_command(&KvsCommand::set("a".to_string(), "old".to_string(), 5)),
        encode_command(&KvsCommand::set("b".to_string(), "kept".to_string(), 9)),
    );
    let seg2 = format!(
        "{}{}",
        encode_command(&KvsCommand::set("a".to_string(), "new".to_string(), 7)),
        encode_command(&KvsCommand::rm("b".to_string(), 10)),
    );
    let mut st = KvStore::open(vec![seg1, seg2]).unwrap();
    assert_eq!(st.get("a".to_string()).unwrap(), Some("new".to_string()));
    assert_eq!(st.get("b".to_string()).unwrap(), None);
}

#[test]
fn replay_tie_breaks_to_later_record() {
    let seg1 = encode_command(&KvsCommand::set("a".to_string(), "first".to_string(), 5));
    let seg2 = encode_command(&KvsCommand::set("a".to_string(), "second".to_string(), 5));
    let mut st = KvStore::open(vec![seg1, seg2]).unwrap();
    assert_eq!(st.get("a".to_string()).unwrap(), Some("second".to_string()));
}

#[test]
fn replay_ignores_stale_tombstone() {
    let seg1 = encode_command(&KvsCommand::rm("c".to_string(), 3));
    let seg2 = encode_command(&KvsCommand::set("c".to_string(), "live".to_string(), 8));
    let mut st = KvStore::open(vec![seg1, seg2]).unwrap();
    assert_eq!(st.get("c".to_string()).unwrap(), Some("live".to_string()));
}

#[test]
fn open_rejects_undecodable_segment() {
    let err = match KvStore::open(vec!["not a record".to_string()]) {
        Err(e) => e,
        Ok(_) => panic!("undecodable text must not open"),
    };
    assert!(matches!(err, KvsError::Encoding(_)));
}

#[test]
fn open_rejects_truncated_segment() {
    let whole = encode_command(&KvsCommand::set("k".to_string(), "v".to_string(), 1));
    let truncated: String = whole.chars().take(whole.chars().count() - 2).collect();
    let err = match KvStore::open(vec![truncated]) {
        Err(e) => e,
        Ok(_) => panic!("a truncated record must not open"),
    };
    assert!(matches!(err, KvsError::Encoding(_)));
}

#[test]
fn set_after_reopen_still_readable() {
    let mut st = fresh();
    st.set("x".to_string(), "1".to_string()).unwrap();
    let log = st.take_pending();
    let mut st2 = KvStore::open(vec![log]).unwrap();
    st2.set("y".to_string(), "2".to_string()).unwrap();
    assert_eq!(st2.get("x".to_string()).unwrap(), Some("1".to_string()));
    assert_eq!(st2.get("y".to_string()).unwrap(), Some("2".to_string()));
}

#[test]
fn error_messages() {
    assert_eq!(KvsError::KeyNotFound.message().as_str(), "Key not found");
    assert_eq!(KvsError::Io("disk gone".to_string()).message().as_str(), "disk gone");
    assert_eq!(KvsError::Encoding("bad record".to_string()).message().as_str(), "bad record");
    assert_eq!(KvsError::Protocol("bad reply".to_string()).message().as_str(), "bad reply");
}

#[test]
fn can_mutate_on_fresh_store() {
    let st = fresh();
    assert!(st.can_mutate());
}
