use kvstore::{KvError, KvStore};

#[test]
fn set_then_get_returns_value() {
    let mut s = KvStore::open(String::new());
    s.set("a".to_string(), "1".to_string()).unwrap();
    assert_eq!(s.get("a").unwrap(), Some("1".to_string()));
}

#[test]
fn get_of_absent_key_is_none() {
    let s = KvStore::open(String::new());
    assert_eq!(s.get("missing").unwrap(), None);
}

#[test]
fn remove_then_get_is_none_and_second_remove_fails() {
    let mut s = KvStore::open(String::new());
    s.set("a".to_string(), "1".to_string()).unwrap();
    s.remove("a".to_string()).unwrap();
    assert_eq!(s.get("a").unwrap(), None);
    let r = s.remove("a".to_string());
    assert!(matches!(r, Err(KvError::KeyNotFound)));
}

#[test]
fn remove_of_never_set_key_fails() {
    let mut s = KvStore::open(String::new());
    let r = s.remove("a".to_string());
    assert!(matches!(r, Err(KvError::KeyNotFound)));
}

#[test]
fn empty_key_is_invalid() {
    let mut s = KvStore::open(String::new());
    let r = s.set(String::new(), "v".to_string());
    assert!(matches!(r, Err(KvError::InvalidKey(_))));
    let r2 = s.set(String::new(), String::new());
    assert!(matches!(r2, Err(KvError::InvalidKey(_))));
}

#[test]
fn empty_value_round_trips() {
    let mut s = KvStore::open(String::new());
    s.set("k".to_string(), String::new()).unwrap();
    assert_eq!(s.get("k").unwrap(), Some(String::new()));
}

#[test]
fn reopen_rebuilds_exact_state() {
    let mut s = KvStore::open(String::new());
    s.set("k1".to_string(), "v1".to_string()).unwrap();
    s.set("k2".to_string(), "v2".to_string()).unwrap();
    let log = s.log_contents().to_string();
    let s2 = KvStore::open(log);
    assert_eq!(s2.get("k1").unwrap(), Some("v1".to_string()));
    assert_eq!(s2.get("k2").unwrap(), Some("v2".to_string()));
}

#[test]
fn reopen_respects_removes() {
    let mut s = KvStore::open(String::new());
    s.set("k1".to_string(), "v1".to_string()).unwrap();
    s.set("k2".to_string(), "v2".to_string()).unwrap();
    s.remove("k1".to_string()).unwrap();
    let s2 = KvStore::open(s.log_contents().to_string());
    assert_eq!(s2.get("k1").unwrap(), None);
    assert_eq!(s2.get("k2").unwrap(), Some("v2".to_string()));
}

#[test]
fn overwrite_returns_latest_and_counts_stale() {
    let mut s = KvStore::open(String::new());
    s.set("a".to_string(), "1".to_string()).unwrap();
    assert_eq!(s.uncompacted_len(), 0);
    s.set("a".to_string(), "2".to_string()).unwrap();
    assert_eq!(s.get("a").unwrap(), Some("2".to_string()));
    // the superseded record was "Sa,1\n": five characters
    assert_eq!(s.uncompacted_len(), 5);
}

#[test]
fn remove_counts_record_and_tombstone_stale() {
    let mut s = KvStore::open(String::new());
    s.set("a".to_string(), "1".to_string()).unwrap();
    s.remove("a".to_string()).unwrap();
    // "Sa,1\n" (5) plus the tombstone "Ra\n" (3)
    assert_eq!(s.uncompacted_len(), 8);
}

#[test]
fn rebuild_counts_stale_records() {
    let s = KvStore::open("Sa,1\nSa,2\n".to_string());
    assert_eq!(s.get("a").unwrap(), Some("2".to_string()));
    assert_eq!(s.uncompacted_len(), 5);
}

#[test]
fn rebuild_skips_corrupt_lines() {
    let s = KvStore::open("garbage\nSa,1\nS\n".to_string());
    assert_eq!(s.get("a").unwrap(), Some("1".to_string()));
    assert_eq!(s.get("garbage").unwrap(), None);
}

#[test]
fn rebuild_completes_unterminated_final_line() {
    let s = KvStore::open("Sa,1\nSb,2".to_string());
    assert_eq!(s.get("a").unwrap(), Some("1".to_string()));
    assert_eq!(s.get("b").unwrap(), Some("2".to_string()));
}

#[test]
fn scenario_with_compaction() {
    let mut s = KvStore::open(String::new());
    s.set("a".to_string(), "1".to_string()).unwrap();
    s.set("b".to_string(), "2".to_string()).unwrap();
    s.set("a".to_string(), "3".to_string()).unwrap();
    assert_eq!(s.get("a").unwrap(), Some("3".to_string()));
    assert_eq!(s.get("b").unwrap(), Some("2".to_string()));
    s.remove("b".to_string()).unwrap();
    assert_eq!(s.get("b").unwrap(), None);
    assert!(matches!(s.remove("b".to_string()), Err(KvError::KeyNotFound)));
    s.set_compaction_threshold(1);
    s.set("c".to_string(), "4".to_string()).unwrap();
    // the write pushed the stale count over the threshold: compaction ran
    assert_eq!(s.uncompacted_len(), 0);
    assert_eq!(s.get("a").unwrap(), Some("3".to_string()));
    assert_eq!(s.get("c").unwrap(), Some("4".to_string()));
    assert_eq!(s.get("b").unwrap(), None);
    // the log now holds exactly the two live records, in some order
    let log = s.log_contents();
    assert_eq!(log.len(), 10);
    assert!(log.contains("Sa,3\n"));
    assert!(log.contains("Sc,4\n"));
    assert!(!log.contains("Sa,1\n"));
    assert!(!log.contains("Sb,2\n"));
    assert!(!log.contains("Rb\n"));
}

#[test]
fn compaction_survives_reopen() {
    let mut s = KvStore::open(String::new());
    s.set_compaction_threshold(0);
    s.set("a".to_string(), "1".to_string()).unwrap();
    s.set("a".to_string(), "2".to_string()).unwrap();
    assert_eq!(s.uncompacted_len(), 0);
    let s2 = KvStore::open(s.log_contents().to_string());
    assert_eq!(s2.get("a").unwrap(), Some("2".to_string()));
    assert_eq!(s2.uncompacted_len(), 0);
}

#[test]
fn unicode_keys_and_values_round_trip() {
    let mut s = KvStore::open(String::new());
    s.set("clé".to_string(), "übergrößen".to_string()).unwrap();
    s.set("キー".to_string(), "値\u{1F600}".to_string()).unwrap();
    assert_eq!(s.get("clé").unwrap(), Some("übergrößen".to_string()));
    assert_eq!(s.get("キー").unwrap(), Some("値\u{1F600}".to_string()));
    let s2 = KvStore::open(s.log_contents().to_string());
    assert_eq!(s2.get("キー").unwrap(), Some("値\u{1F600}".to_string()));
}

#[test]
fn keys_with_special_characters_round_trip() {
    let mut s = KvStore::open(String::new());
    s.set("a,b\nc\\d".to_string(), "v,1\n2\\3".to_string()).unwrap();
    s.set("plain".to_string(), "x".to_string()).unwrap();
    assert_eq!(s.get("a,b\nc\\d").unwrap(), Some("v,1\n2\\3".to_string()));
    let s2 = KvStore::open(s.log_contents().to_string());
    assert_eq!(s2.get("a,b\nc\\d").unwrap(), Some("v,1\n2\\3".to_string()));
    assert_eq!(s2.get("plain").unwrap(), Some("x".to_string()));
}

#[test]
fn reading_a_remove_record_is_corruption() {
    let r = kvstore::engine::read_record("Ra\n", 0, 3);
    assert!(matches!(r, Err(KvError::LogCorruption(0))));
}

#[test]
fn reading_undecodable_text_is_corruption() {
    let r = kvstore::engine::read_record("Sa,1\ngarbage\n", 5, 8);
    assert!(matches!(r, Err(KvError::LogCorruption(5))));
}

#[test]
fn reading_out_of_range_is_corruption() {
    let r = kvstore::engine::read_record("Sa,1\n", 3, 99);
    assert!(matches!(r, Err(KvError::LogCorruption(3))));
}

#[test]
fn reading_a_put_record_yields_its_value() {
    let r = kvstore::engine::read_record("Sa,1\nSbb,22\n", 5, 7);
    assert_eq!(r.unwrap(), "22".to_string());
}
