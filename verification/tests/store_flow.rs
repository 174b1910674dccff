//! The store front end: SET/GET consistency, the flush threshold, and the
//! command parser.

use enc_kv_store::store::{parse_command, Command, KvStore};
use enc_kv_store::MAX_MEMTABLE;

fn b(s: &str) -> Vec<u8> {
    s.as_bytes().to_vec()
}

#[test]
fn get_returns_last_set() {
    let mut store = KvStore::new(b("password"), 0);
    store.insert_parsed(b("a"), b("1")).unwrap();
    store.insert_parsed(b("a"), b("2")).unwrap();
    let got = store.get(&b("a"), Vec::new()).unwrap();
    assert_eq!(got, Some(b("2")));
}

#[test]
fn get_misses_unknown_key() {
    let mut store = KvStore::new(b("password"), 0);
    store.insert_parsed(b("a"), b("1")).unwrap();
    assert_eq!(store.get(&b("zz"), Vec::new()).unwrap(), None);
}

#[test]
fn flush_triggers_at_threshold_and_segment_serves_reads() {
    let mut store = KvStore::new(b("password"), 0);
    assert!(!store.should_flush());
    let pairs = [("a", "1"), ("b", "2"), ("c", "3"), ("d", "4")];
    for (i, (k, v)) in pairs.iter().enumerate() {
        let line = store.write_wal(&b(k), &b(v)).unwrap();
        assert!(!line.is_empty());
        store.insert_parsed(b(k), b(v)).unwrap();
        if i + 1 < MAX_MEMTABLE {
            assert!(!store.should_flush());
        }
    }
    assert!(store.should_flush());
    let snapshot = store.take_memtable();
    assert!(!store.should_flush());
    let seg = store.build_segment(&snapshot);
    // after the flush the memtable is empty; GET goes to the segment
    assert_eq!(store.get(&b("a"), vec![seg.clone()]).unwrap(), Some(b("1")));
    assert_eq!(store.get(&b("d"), vec![seg]).unwrap(), Some(b("4")));
}

#[test]
fn overwrite_then_flush_then_restart_newest_wins() {
    let mut store = KvStore::new(b("password"), 0);
    for (k, v) in [("a", "1"), ("b", "2"), ("c", "3"), ("d", "4")] {
        store.insert_parsed(b(k), b(v)).unwrap();
    }
    let first = store.take_memtable();
    let seg0 = store.build_segment(&first);
    // overwrite `a` in memory; a GET sees the memtable first
    store.insert_parsed(b("a"), b("9")).unwrap();
    assert_eq!(store.get(&b("a"), vec![seg0.clone()]).unwrap(), Some(b("9")));
    // fill to the threshold with distinct keys and flush again
    for (k, v) in [("e", "5"), ("f", "6"), ("g", "7")] {
        store.insert_parsed(b(k), b(v)).unwrap();
    }
    assert!(store.should_flush());
    let second = store.take_memtable();
    let seg1 = store.build_segment(&second);
    // a fresh process with the same password reads the newest segment first
    let restarted = KvStore::new(b("password"), 2);
    assert_eq!(restarted.get(&b("a"), vec![seg0.clone(), seg1.clone()]).unwrap(), Some(b("9")));
    assert_eq!(restarted.get(&b("b"), vec![seg0.clone(), seg1.clone()]).unwrap(), Some(b("2")));
    // the wrong password finds nothing
    let wrong = KvStore::new(b("letmein"), 2);
    assert_eq!(wrong.get(&b("a"), vec![seg0, seg1]).unwrap(), None);
}

#[test]
fn empty_memtable_does_not_reach_threshold() {
    let store = KvStore::new(b("password"), 0);
    assert!(!store.should_flush());
}

#[test]
fn parse_set_command() {
    match parse_command(&b("SET a 1")).unwrap() {
        Command::CmdSet(k, v) => {
            assert_eq!(k, b("a"));
            assert_eq!(v, b("1"));
        },
        _ => panic!("expected a SET"),
    }
}

#[test]
fn parse_get_command() {
    match parse_command(&b("GET a")).unwrap() {
        Command::CmdGet(k) => assert_eq!(k, b("a")),
        _ => panic!("expected a GET"),
    }
}

#[test]
fn parse_rejects_key_with_spaces() {
    assert!(parse_command(&b("SET k with space 1")).is_err());
}

#[test]
fn parse_rejects_unknown_and_malformed_commands() {
    assert!(parse_command(&b("DEL a")).is_err());
    assert!(parse_command(&b("SET a")).is_err());
    assert!(parse_command(&b("GET")).is_err());
    assert!(parse_command(&b("")).is_err());
    let long = String::from_utf8(vec![b'x'; 300]).unwrap();
    assert!(parse_command(&b(&format!("SET {} 1", long))).is_err());
}

#[test]
fn error_messages_name_the_failure() {
    let e = parse_command(&b("DEL a")).unwrap_err();
    assert_eq!(e.message(), "Unknown cmd");
}
