use kvstore::codec::{decode, encode};
use kvstore::Command;

#[test]
fn encode_put_is_one_terminated_line() {
    let c = Command::Put { key: "a".to_string(), val: "1".to_string() };
    assert_eq!(encode(&c), "Sa,1\n");
}

#[test]
fn encode_remove_is_one_terminated_line() {
    let c = Command::Remove { key: "ab".to_string() };
    assert_eq!(encode(&c), "Rab\n");
}

#[test]
fn encode_escapes_separator_terminator_and_backslash() {
    let c = Command::Put { key: "a,b".to_string(), val: "1\n2\\3".to_string() };
    assert_eq!(encode(&c), "Sa\\cb,1\\n2\\\\3\n");
}

#[test]
fn decode_undoes_encode() {
    let cases = vec![
        Command::Put { key: "a".to_string(), val: "1".to_string() },
        Command::Put { key: "a,b\nc\\".to_string(), val: String::new() },
        Command::Put { key: "日本語".to_string(), val: "值".to_string() },
        Command::Remove { key: "a,b\nc\\".to_string() },
        Command::Remove { key: String::new() },
    ];
    for c in cases {
        assert_eq!(decode(&encode(&c)), Some(c));
    }
}

#[test]
fn decode_rejects_malformed_lines() {
    // no terminator
    assert_eq!(decode("Sa,1"), None);
    // nothing after the terminator check
    assert_eq!(decode(""), None);
    assert_eq!(decode("\n"), None);
    // unknown tag
    assert_eq!(decode("Xa,1\n"), None);
    // a Put without a separator
    assert_eq!(decode("Sa1\n"), None);
    // a second, unescaped separator
    assert_eq!(decode("Sa,b,c\n"), None);
    // a dangling or unknown escape
    assert_eq!(decode("Sa,\\\n"), None);
    assert_eq!(decode("Sa,\\x\n"), None);
    // an interior terminator
    assert_eq!(decode("Ra\nb\n"), None);
}

#[test]
fn decode_accepts_empty_key_remove_line() {
    assert_eq!(decode("R\n"), Some(Command::Remove { key: String::new() }));
}

#[test]
fn command_key_names_the_key() {
    let p = Command::Put { key: "k".to_string(), val: "v".to_string() };
    let r = Command::Remove { key: "rk".to_string() };
    assert_eq!(p.key(), "k");
    assert_eq!(r.key(), "rk");
}

#[test]
fn error_messages_describe_the_error() {
    assert_eq!(kvstore::KvError::KeyNotFound.message(), "Key not found");
    assert_eq!(
        kvstore::KvError::InvalidKey("empty".to_string()).message(),
        "Invalid key: empty"
    );
    assert_eq!(kvstore::KvError::Io("gone".to_string()).message(), "I/O error: gone");
    assert_eq!(
        kvstore::KvError::CompactionFailed("disk".to_string()).message(),
        "Compaction failed: disk"
    );
    assert_eq!(
        kvstore::KvError::Serialization("bad".to_string()).message(),
        "Serialization error: bad"
    );
    assert_eq!(kvstore::KvError::LogCorruption(7).message(), "Log corruption detected");
}
