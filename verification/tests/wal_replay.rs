//! The write-ahead log: line format, replay, idempotence, and recovery.

use base64::Engine;
use enc_kv_store::store::KvStore;

fn b(s: &str) -> Vec<u8> {
    s.as_bytes().to_vec()
}

fn wal_text(store: &KvStore, pairs: &[(&str, &str)]) -> Vec<u8> {
    let mut text = Vec::new();
    for (k, v) in pairs {
        let line = store.write_wal(&b(k), &b(v)).unwrap();
        text.extend_from_slice(&line);
    }
    text
}

#[test]
fn wal_line_has_five_tokens_and_base64_framing() {
    let store = KvStore::new(b("password"), 0);
    let line = store.write_wal(&b("alpha"), &b("42")).unwrap();
    assert_eq!(*line.last().unwrap(), b'\n');
    let text = String::from_utf8(line.clone()).unwrap();
    let toks: Vec<&str> = text.split_whitespace().collect();
    assert_eq!(toks.len(), 5);
    assert_eq!(toks[0], "SET");
    assert_eq!(toks[1], "alpha");
    // the fifth token is the base64 of the store's 16-byte salt
    let expected_salt_b64 =
        base64::prelude::BASE64_STANDARD.encode(store.encrypter.get_salt_bytes());
    assert_eq!(toks[4], expected_salt_b64);
    // the fourth token decodes to the 12-byte nonce
    let nonce = base64::prelude::BASE64_STANDARD.decode(toks[3]).unwrap();
    assert_eq!(nonce.len(), 12);
    // the third token decodes to the sealed value, 16 bytes beyond bincode
    let cipher = base64::prelude::BASE64_STANDARD.decode(toks[2]).unwrap();
    let encoded = bincode::encode_to_vec(&b("42"), bincode::config::standard()).unwrap();
    assert_eq!(cipher.len(), encoded.len() + 16);
}

#[test]
fn replay_recovers_unflushed_sets() {
    let writer = KvStore::new(b("password"), 0);
    let text = wal_text(&writer, &[("a", "1"), ("b", "2")]);
    let mut recovered = KvStore::new(b("password"), 0);
    recovered.sync_wal(&text).unwrap();
    assert_eq!(recovered.get(&b("a"), Vec::new()).unwrap(), Some(b("1")));
    assert_eq!(recovered.get(&b("b"), Vec::new()).unwrap(), Some(b("2")));
    assert_eq!(recovered.get(&b("c"), Vec::new()).unwrap(), None);
}

#[test]
fn replay_twice_equals_replay_once() {
    let writer = KvStore::new(b("password"), 0);
    let text = wal_text(&writer, &[("a", "1"), ("b", "2"), ("a", "3")]);
    let mut once = KvStore::new(b("password"), 0);
    once.sync_wal(&text).unwrap();
    let mut twice = KvStore::new(b("password"), 0);
    twice.sync_wal(&text).unwrap();
    twice.sync_wal(&text).unwrap();
    for k in ["a", "b", "zz"] {
        assert_eq!(
            once.get(&b(k), Vec::new()).unwrap(),
            twice.get(&b(k), Vec::new()).unwrap()
        );
    }
    assert_eq!(once.get(&b("a"), Vec::new()).unwrap(), Some(b("3")));
}

#[test]
fn replay_with_wrong_password_skips_lines() {
    let writer = KvStore::new(b("password"), 0);
    let text = wal_text(&writer, &[("a", "1"), ("b", "2")]);
    let mut recovered = KvStore::new(b("wrong"), 0);
    recovered.sync_wal(&text).unwrap();
    assert_eq!(recovered.get(&b("a"), Vec::new()).unwrap(), None);
    assert_eq!(recovered.get(&b("b"), Vec::new()).unwrap(), None);
}

#[test]
fn replay_rejects_unknown_command() {
    let mut store = KvStore::new(b("password"), 0);
    assert!(store.sync_wal(&b("DEL a b c d\n")).is_err());
}

#[test]
fn replay_rejects_wrong_arity() {
    let mut store = KvStore::new(b("password"), 0);
    assert!(store.sync_wal(&b("SET a b c\n")).is_err());
}

#[test]
fn replay_rejects_bad_base64() {
    let mut store = KvStore::new(b("password"), 0);
    assert!(store.sync_wal(&b("SET a !!! ### $$$\n")).is_err());
}

#[test]
fn replay_keeps_lines_before_a_fatal_one() {
    let writer = KvStore::new(b("password"), 0);
    let mut text = wal_text(&writer, &[("a", "1")]);
    text.extend_from_slice(b"BOGUS line\n");
    let mut recovered = KvStore::new(b("password"), 0);
    assert!(recovered.sync_wal(&text).is_err());
    assert_eq!(recovered.get(&b("a"), Vec::new()).unwrap(), Some(b("1")));
}

#[test]
fn replay_of_empty_log_is_empty() {
    let mut store = KvStore::new(b("password"), 0);
    store.sync_wal(&Vec::new()).unwrap();
    assert_eq!(store.get(&b("a"), Vec::new()).unwrap(), None);
}

#[test]
fn extreme_lengths_roundtrip_through_wal() {
    let long_key: Vec<u8> = vec![b'k'; 255];
    let long_val: Vec<u8> = vec![b'v'; 255];
    let writer = KvStore::new(b("password"), 0);
    let mut text = Vec::new();
    let line = writer.write_wal(&long_key, &long_val).unwrap();
    text.extend_from_slice(&line);
    let line = writer.write_wal(&b("e"), &Vec::new()).unwrap();
    text.extend_from_slice(&line);
    let mut recovered = KvStore::new(b("password"), 0);
    recovered.sync_wal(&text).unwrap();
    assert_eq!(recovered.get(&long_key, Vec::new()).unwrap(), Some(long_val));
    assert_eq!(recovered.get(&b("e"), Vec::new()).unwrap(), Some(Vec::new()));
}
