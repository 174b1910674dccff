//! Segment files: layout invariants, the sparse index, the point lookup,
//! and newest-first precedence across segments.

use enc_kv_store::encryption::DefaultDecrypter;
use enc_kv_store::memtable::Memtable;
use enc_kv_store::segment::{SegmentFile, SegmentIter};
use enc_kv_store::store::KvStore;
use enc_kv_store::FOOTER_SIZE;

fn b(s: &str) -> Vec<u8> {
    s.as_bytes().to_vec()
}

fn table(pairs: &[(&str, &str)]) -> Memtable {
    let mut t = Memtable::new();
    for (k, v) in pairs {
        t.insert(b(k), b(v));
    }
    t
}

fn build(store: &KvStore, pairs: &[(&str, &str)]) -> Vec<u8> {
    let t = table(pairs);
    store.build_segment(&t)
}

#[test]
fn footer_accounts_for_whole_file() {
    let store = KvStore::new(b("password"), 0);
    let seg = build(&store, &[("a", "1"), ("b", "2"), ("c", "3"), ("d", "4")]);
    let (data_len, idx_len, salt) = SegmentFile::parse_footer(&seg).unwrap();
    assert_eq!(data_len as usize + idx_len as usize + FOOTER_SIZE, seg.len());
    assert_eq!(salt.len(), 16);
    assert_eq!(&salt, store.encrypter.get_salt_bytes());
}

#[test]
fn parse_footer_rejects_short_file() {
    assert!(SegmentFile::parse_footer(&vec![0u8; 31]).is_err());
}

#[test]
fn parse_footer_rejects_inconsistent_lengths() {
    let store = KvStore::new(b("password"), 0);
    let mut seg = build(&store, &[("a", "1")]);
    let n = seg.len();
    // corrupt the stored data-region length
    seg[n - 32] ^= 1;
    seg[n - 25] ^= 1;
    assert!(SegmentFile::parse_footer(&seg).is_err());
}

#[test]
fn lookup_finds_every_record() {
    let store = KvStore::new(b("password"), 0);
    let seg = build(&store, &[("a", "1"), ("b", "2"), ("c", "3"), ("d", "4")]);
    let it = SegmentIter::new(vec![seg], b("password"));
    for (k, v) in [("a", "1"), ("b", "2"), ("c", "3"), ("d", "4")] {
        let got = it.clone().find_key_in_segments(&b(k)).unwrap();
        assert_eq!(got, Some(b(v)));
    }
    assert_eq!(it.find_key_in_segments(&b("zz")).unwrap(), None);
}

#[test]
fn sparse_index_is_subsequence_with_true_offsets() {
    let store = KvStore::new(b("password"), 0);
    let seg = build(&store, &[("a", "1"), ("b", "2"), ("c", "3"), ("d", "4")]);
    let (data_len, idx_len, salt) = SegmentFile::parse_footer(&seg).unwrap();
    let idx_bytes = seg[data_len as usize..(data_len + idx_len) as usize].to_vec();
    let dec = DefaultDecrypter::new(b("password"), salt).unwrap();
    let mut sf = SegmentFile::new(data_len, seg.clone(), dec);
    sf.populate_index(idx_bytes).unwrap();
    // four records at density two: every second record is indexed
    assert_eq!(sf.idx.len(), 2);
    let keys: Vec<Vec<u8>> = sf.idx.iter().map(|e| e.key.clone()).collect();
    assert_eq!(keys, vec![b("a"), b("c")]);
    // each indexed offset is where that key's record starts
    let entries: Vec<(Vec<u8>, u64)> = sf.idx.iter().map(|e| (e.key.clone(), e.offset)).collect();
    for (k, off) in entries {
        let got = sf.search(&k, off).unwrap();
        assert!(got.is_some(), "indexed key must be found at its offset");
    }
}

#[test]
fn table_at_index_density_indexes_every_record() {
    let store = KvStore::new(b("password"), 0);
    let seg = build(&store, &[("a", "1"), ("b", "2")]);
    let (data_len, idx_len, salt) = SegmentFile::parse_footer(&seg).unwrap();
    let idx_bytes = seg[data_len as usize..(data_len + idx_len) as usize].to_vec();
    let dec = DefaultDecrypter::new(b("password"), salt).unwrap();
    let mut sf = SegmentFile::new(data_len, seg, dec);
    sf.populate_index(idx_bytes).unwrap();
    assert_eq!(sf.idx.len(), 2);
    let keys: Vec<Vec<u8>> = sf.idx.iter().map(|e| e.key.clone()).collect();
    assert_eq!(keys, vec![b("a"), b("b")]);
}

#[test]
fn single_record_segment_has_full_index() {
    let store = KvStore::new(b("password"), 0);
    let seg = build(&store, &[("only", "v")]);
    let it = SegmentIter::new(vec![seg], b("password"));
    assert_eq!(it.find_key_in_segments(&b("only")).unwrap(), Some(b("v")));
}

#[test]
fn newest_segment_wins() {
    let store = KvStore::new(b("password"), 0);
    let old_seg = build(&store, &[("a", "1"), ("b", "2")]);
    let new_seg = build(&store, &[("a", "9"), ("c", "3")]);
    let it = SegmentIter::new(vec![old_seg, new_seg], b("password"));
    assert_eq!(it.clone().find_key_in_segments(&b("a")).unwrap(), Some(b("9")));
    assert_eq!(it.clone().find_key_in_segments(&b("b")).unwrap(), Some(b("2")));
    assert_eq!(it.find_key_in_segments(&b("c")).unwrap(), Some(b("3")));
}

#[test]
fn wrong_password_reads_nothing() {
    let store = KvStore::new(b("password"), 0);
    let seg = build(&store, &[("a", "1"), ("b", "2"), ("c", "3"), ("d", "4")]);
    let it = SegmentIter::new(vec![seg], b("wrong"));
    assert_eq!(it.find_key_in_segments(&b("a")).unwrap(), None);
}

#[test]
fn extreme_lengths_roundtrip_in_segments() {
    let store = KvStore::new(b("password"), 0);
    let long_key: Vec<u8> = vec![b'x'; 255];
    let long_val: Vec<u8> = vec![b'y'; 255];
    let mut t = Memtable::new();
    t.insert(Vec::new(), b("empty-key-value"));
    t.insert(b("empty-value"), Vec::new());
    t.insert(long_key.clone(), long_val.clone());
    let seg = store.build_segment(&t);
    let it = SegmentIter::new(vec![seg], b("password"));
    assert_eq!(it.clone().find_key_in_segments(&Vec::new()).unwrap(), Some(b("empty-key-value")));
    assert_eq!(it.clone().find_key_in_segments(&b("empty-value")).unwrap(), Some(Vec::new()));
    assert_eq!(it.find_key_in_segments(&long_key).unwrap(), Some(long_val));
}

#[test]
fn overwrites_collapse_before_flush() {
    let store = KvStore::new(b("password"), 0);
    let mut t = Memtable::new();
    t.insert(b("a"), b("1"));
    t.insert(b("a"), b("2"));
    let seg = store.build_segment(&t);
    let (data_len, idx_len, salt) = SegmentFile::parse_footer(&seg).unwrap();
    let idx_bytes = seg[data_len as usize..(data_len + idx_len) as usize].to_vec();
    let dec = DefaultDecrypter::new(b("password"), salt).unwrap();
    let mut sf = SegmentFile::new(data_len, seg.clone(), dec);
    sf.populate_index(idx_bytes).unwrap();
    // one record, fully indexed
    assert_eq!(sf.idx.len(), 1);
    let it = SegmentIter::new(vec![seg], b("password"));
    assert_eq!(it.find_key_in_segments(&b("a")).unwrap(), Some(b("2")));
}

#[test]
fn record_plaintext_is_bincode_of_value() {
    // walk the first record of the data region by hand and open it
    let store = KvStore::new(b("password"), 0);
    let seg = build(&store, &[("a", "1")]);
    let (data_len, _idx_len, salt) = SegmentFile::parse_footer(&seg).unwrap();
    let key_len = u32::from_be_bytes([seg[0], seg[1], seg[2], seg[3]]) as usize;
    assert_eq!(key_len, 1);
    assert_eq!(&seg[4..5], b"a");
    let nonce = seg[5..17].to_vec();
    let cipher_len = u32::from_be_bytes([seg[17], seg[18], seg[19], seg[20]]) as usize;
    let cipher = seg[21..21 + cipher_len].to_vec();
    assert_eq!(21 + cipher_len, data_len as usize);
    let dec = DefaultDecrypter::new(b("password"), salt).unwrap();
    let plain = dec.decrypt(&cipher, &nonce, &b("a")).unwrap();
    let expected = bincode::encode_to_vec(&b("1"), bincode::config::standard()).unwrap();
    assert_eq!(plain, expected);
    assert_ne!(cipher, plain);
}
