//! The segment file format and its readers. A segment holds three regions:
//! a data region of records sorted by key, a sparse index, and a fixed
//! 32-byte footer (data length, index length, salt). The writer's output
//! and the readers are specified against the same byte-level layout
//! functions, so what a flush writes is exactly what a lookup reads.

use vstd::prelude::*;

use crate::codec::{bincode_decode, bincode_decoded_of, bincode_of};
use crate::encryption::{derived_key_of, opened_of, DefaultDecrypter};
use crate::memtable::{lemma_sorted_implies_unique, lemma_table_map_absent, lemma_table_map_index, sorted_strict, table_map};
use crate::store::KvError;
use crate::wire::{
    clone_bytes, compare_bytes, copy_range, lemma_lex_lt_trans, lemma_lex_trichotomy, lemma_u32_be_roundtrip,
    lemma_u64_be_roundtrip, lex_lt, read_u32_be, read_u64_be, u32_be, u32_of_be, u64_be, u64_of_be,
    KeyCmp,
};
use crate::{FOOTER_SIZE, INDEX_DENSITY, MAX_KEY_LEN};

verus! {

// ---------------------------------------------------------------------------
// Layout: what the writer emits
// ---------------------------------------------------------------------------

/// Ghost description of one data-region record: its key, the nonce it was
/// sealed under, and the sealed bytes.
pub struct RecView {
    pub key: Seq<u8>,
    pub nonce: Seq<u8>,
    pub cipher: Seq<u8>,
}

/// One encoded record: key length, key, nonce, cipher length, cipher.
pub open spec fn rec_enc(r: RecView) -> Seq<u8> {
    u32_be(r.key.len() as u32) + r.key + r.nonce + u32_be(r.cipher.len() as u32) + r.cipher
}

/// Size in bytes of one encoded record (nonces are 12 bytes).
pub open spec fn rec_size(r: RecView) -> int {
    20 + r.key.len() as int + r.cipher.len() as int
}

/// The data region from record `from` on: records concatenated in order.
pub open spec fn recs_enc(recs: Seq<RecView>, from: int) -> Seq<u8>
    decreases recs.len() - from,
{
    if from < 0 || from >= recs.len() {
        Seq::empty()
    } else {
        rec_enc(recs[from]) + recs_enc(recs, from + 1)
    }
}

/// Byte offset of record `i` within the data region.
pub open spec fn rec_offset(recs: Seq<RecView>, i: int) -> int
    decreases i,
{
    if i <= 0 {
        0
    } else {
        rec_offset(recs, i - 1) + rec_size(recs[i - 1])
    }
}

/// The sparse-index stride for `n` records: `n / INDEX_DENSITY`, but at
/// least one.
pub open spec fn stride_of(n: int) -> int {
    if n / (INDEX_DENSITY as int) == 0 {
        1
    } else {
        n / (INDEX_DENSITY as int)
    }
}

/// Record `i` of `n` gets a sparse-index entry.
pub open spec fn is_indexed(i: int, n: int) -> bool {
    i % stride_of(n) == 0
}

/// One encoded index entry: key length, key, data offset.
pub open spec fn idx_entry_enc(key: Seq<u8>, off: u64) -> Seq<u8> {
    u32_be(key.len() as u32) + key + u64_be(off)
}

/// The index region from record `from` on: entries for the indexed records.
pub open spec fn idx_enc(recs: Seq<RecView>, from: int) -> Seq<u8>
    decreases recs.len() - from,
{
    if from < 0 || from >= recs.len() {
        Seq::empty()
    } else if is_indexed(from, recs.len() as int) {
        idx_entry_enc(recs[from].key, rec_offset(recs, from) as u64) + idx_enc(recs, from + 1)
    } else {
        idx_enc(recs, from + 1)
    }
}

/// The parsed form of the index region: the indexed keys with their offsets.
pub open spec fn idx_entries(recs: Seq<RecView>, from: int) -> Seq<(Seq<u8>, u64)>
    decreases recs.len() - from,
{
    if from < 0 || from >= recs.len() {
        Seq::empty()
    } else if is_indexed(from, recs.len() as int) {
        seq![(recs[from].key, rec_offset(recs, from) as u64)] + idx_entries(recs, from + 1)
    } else {
        idx_entries(recs, from + 1)
    }
}

/// The fixed 32-byte footer.
pub open spec fn footer_enc(data_len: u64, idx_len: u64, salt: Seq<u8>) -> Seq<u8> {
    u64_be(data_len) + u64_be(idx_len) + salt
}

/// A whole segment file: data region, index region, footer.
pub open spec fn seg_enc(recs: Seq<RecView>, salt: Seq<u8>) -> Seq<u8> {
    recs_enc(recs, 0) + idx_enc(recs, 0) + footer_enc(
        recs_enc(recs, 0).len() as u64,
        idx_enc(recs, 0).len() as u64,
        salt,
    )
}

/// Structural well-formedness of a record sequence: 12-byte nonces, keys
/// within the front end's limit and strictly ascending, field and region
/// sizes representable in their on-disk widths.
pub open spec fn recs_wf(recs: Seq<RecView>) -> bool {
    &&& forall|i: int| 0 <= i < recs.len() ==> (#[trigger] recs[i]).nonce.len() == 12
    &&& forall|i: int| 0 <= i < recs.len() ==> (#[trigger] recs[i]).key.len() <= MAX_KEY_LEN
    &&& forall|i: int| 0 <= i < recs.len() ==> (#[trigger] recs[i]).cipher.len() < 0x100000000
    &&& forall|i: int, j: int|
        0 <= i < j < recs.len() ==> lex_lt((#[trigger] recs[i]).key, (#[trigger] recs[j]).key)
    &&& recs_enc(recs, 0).len() + idx_enc(recs, 0).len() + 32 <= 0xFFFFFFFFFFFFFFFF
}

/// The records carry exactly the given table: record `i` holds entry `i`'s
/// key, and its cipher opens, under the store key and its nonce, to the
/// bincode encoding of entry `i`'s value.
pub open spec fn recs_match(recs: Seq<RecView>, entries: Seq<(Seq<u8>, Seq<u8>)>, dk: Seq<u8>) -> bool {
    &&& recs.len() == entries.len()
    &&& forall|i: int| 0 <= i < recs.len() ==> (#[trigger] recs[i]).key == entries[i].0
    &&& forall|i: int|
        0 <= i < recs.len() ==> opened_of(dk, (#[trigger] recs[i]).nonce, recs[i].key, recs[i].cipher)
            == Some(bincode_of(entries[i].1))
    &&& forall|i: int|
        0 <= i < recs.len() ==> bincode_decoded_of(bincode_of((#[trigger] entries[i]).1)) == Some(
            entries[i].1,
        )
}

/// The segment bytes are a well-formed segment holding `entries`, sealed
/// under the key that `password` derives with the footer's salt.
pub open spec fn seg_wf_for(seg: Seq<u8>, password: Seq<u8>, entries: Seq<(Seq<u8>, Seq<u8>)>) -> bool {
    exists|recs: Seq<RecView>, salt: Seq<u8>|
        {
            &&& salt.len() == 16
            &&& recs_wf(recs)
            &&& recs_match(recs, entries, derived_key_of(password, salt))
            &&& seg == seg_enc(recs, salt)
        }
}

// ---------------------------------------------------------------------------
// Parsing: what a reader sees in arbitrary bytes
// ---------------------------------------------------------------------------

/// The data-region length stored in the footer.
pub open spec fn footer_data_len(seg: Seq<u8>) -> u64
    recommends
        seg.len() >= 32,
{
    u64_of_be(seg.subrange(seg.len() - 32, seg.len() - 24))
}

/// The index-region length stored in the footer.
pub open spec fn footer_idx_len(seg: Seq<u8>) -> u64
    recommends
        seg.len() >= 32,
{
    u64_of_be(seg.subrange(seg.len() - 24, seg.len() - 16))
}

/// The salt stored in the footer.
pub open spec fn footer_salt(seg: Seq<u8>) -> Seq<u8>
    recommends
        seg.len() >= 32,
{
    seg.subrange(seg.len() - 16, seg.len() as int)
}

/// The footer is present and its region lengths account for the whole file.
pub open spec fn footer_ok(seg: Seq<u8>) -> bool {
    seg.len() >= 32 && footer_data_len(seg) + footer_idx_len(seg) + 32 == seg.len()
}

/// The index region the footer delimits.
pub open spec fn idx_region(seg: Seq<u8>) -> Seq<u8>
    recommends
        footer_ok(seg),
{
    seg.subrange(footer_data_len(seg) as int, footer_data_len(seg) + footer_idx_len(seg))
}

/// Parses an index region into key/offset pairs; `None` on a malformed
/// region.
pub open spec fn idx_parse(b: Seq<u8>) -> Option<Seq<(Seq<u8>, u64)>>
    decreases b.len(),
{
    if b.len() == 0 {
        Some(Seq::empty())
    } else if b.len() < 4 {
        None
    } else {
        let kl = u32_of_be(b.subrange(0, 4)) as int;
        if 4 + kl + 8 > b.len() {
            None
        } else {
            let key = b.subrange(4, 4 + kl);
            let off = u64_of_be(b.subrange(4 + kl, 4 + kl + 8));
            match idx_parse(b.skip(4 + kl + 8)) {
                Some(rest) => Some(seq![(key, off)] + rest),
                None => None,
            }
        }
    }
}

/// The index walk of the point lookup: the offset of the last indexed key
/// at or below `k`, starting from accumulator `acc`.
pub open spec fn bracket(idx: Seq<(Seq<u8>, u64)>, k: Seq<u8>, acc: u64) -> u64
    decreases idx.len(),
{
    if idx.len() == 0 {
        acc
    } else if lex_lt(k, idx[0].0) {
        acc
    } else if idx[0].0 == k {
        idx[0].1
    } else {
        bracket(idx.skip(1), k, idx[0].1)
    }
}

/// Outcome of scanning the data region for a key.
pub enum ScanOutcome {
    /// The key is not in this segment: an overshooting key or the index
    /// boundary was reached.
    Absent,
    /// A read ran past the end of the file.
    Bad,
    /// The key's record, with its nonce and sealed bytes.
    Hit(Seq<u8>, Seq<u8>),
}

/// The forward scan of the point lookup, starting at `pos` and giving up at
/// `end` (the index boundary).
pub open spec fn scan_spec(seg: Seq<u8>, end: int, pos: int, k: Seq<u8>) -> ScanOutcome
    decreases seg.len() - pos,
{
    if pos >= end {
        ScanOutcome::Absent
    } else if pos < 0 || pos + 4 > seg.len() {
        ScanOutcome::Bad
    } else {
        let kl = u32_of_be(seg.subrange(pos, pos + 4)) as int;
        if pos + 4 + kl + 16 > seg.len() {
            ScanOutcome::Bad
        } else {
            let key = seg.subrange(pos + 4, pos + 4 + kl);
            let nonce = seg.subrange(pos + 4 + kl, pos + 4 + kl + 12);
            let cl = u32_of_be(seg.subrange(pos + 4 + kl + 12, pos + 4 + kl + 16)) as int;
            if pos + 20 + kl + cl > seg.len() {
                ScanOutcome::Bad
            } else {
                let cipher = seg.subrange(pos + 20 + kl, pos + 20 + kl + cl);
                if key == k {
                    ScanOutcome::Hit(nonce, cipher)
                } else if lex_lt(k, key) {
                    ScanOutcome::Absent
                } else {
                    scan_spec(seg, end, pos + 20 + kl + cl, k)
                }
            }
        }
    }
}

/// Outcome of one segment's point lookup.
pub enum LookupSpec {
    /// A structural or decrypt failure.
    Fail,
    /// The key is not in this segment.
    Miss,
    /// The key's decoded value.
    Found(Seq<u8>),
}

/// The point lookup inside one segment: scan from `pos`, then open and
/// decode the hit.
pub open spec fn search_spec(seg: Seq<u8>, dk: Seq<u8>, end: int, pos: int, k: Seq<u8>) -> LookupSpec {
    match scan_spec(seg, end, pos, k) {
        ScanOutcome::Absent => LookupSpec::Miss,
        ScanOutcome::Bad => LookupSpec::Fail,
        ScanOutcome::Hit(nonce, cipher) => match opened_of(dk, nonce, k, cipher) {
            None => LookupSpec::Fail,
            Some(pt) => match bincode_decoded_of(pt) {
                None => LookupSpec::Fail,
                Some(v) => LookupSpec::Found(v),
            },
        },
    }
}

/// A segment's footer and index parse cleanly.
pub open spec fn seg_load_ok(seg: Seq<u8>) -> bool {
    footer_ok(seg) && idx_parse(idx_region(seg)) is Some
}

/// One whole segment lookup as `find_key_in_segments` performs it: bracket
/// the start offset with the sparse index, scan, open, decode. Failures
/// count as a miss, as the segment iteration treats them.
pub open spec fn seg_search_spec(seg: Seq<u8>, dk: Seq<u8>, k: Seq<u8>) -> Option<Seq<u8>>
    recommends
        seg_load_ok(seg),
{
    let idx = idx_parse(idx_region(seg)).unwrap();
    let start = bracket(idx, k, 0);
    match search_spec(seg, dk, footer_data_len(seg) as int, start as int, k) {
        LookupSpec::Found(v) => Some(v),
        _ => None,
    }
}

/// The newest-to-oldest iteration over segments `0..i`: the newest segment
/// that holds the key decides; a segment that fails to load aborts.
pub open spec fn iter_lookup(segs: Seq<Seq<u8>>, pw: Seq<u8>, k: Seq<u8>, i: int) -> LookupSpec
    decreases i,
{
    if i <= 0 {
        LookupSpec::Miss
    } else if !seg_load_ok(segs[i - 1]) {
        LookupSpec::Fail
    } else {
        match seg_search_spec(segs[i - 1], derived_key_of(pw, footer_salt(segs[i - 1])), k) {
            Some(v) => LookupSpec::Found(v),
            None => iter_lookup(segs, pw, k, i - 1),
        }
    }
}

/// Newest-first lookup across a stack of tables: the last table holding the
/// key wins.
pub open spec fn newest_lookup(tables: Seq<Seq<(Seq<u8>, Seq<u8>)>>, k: Seq<u8>) -> Option<Seq<u8>>
    decreases tables.len(),
{
    if tables.len() == 0 {
        None
    } else if table_map(tables.last()).contains_key(k) {
        Some(table_map(tables.last())[k])
    } else {
        newest_lookup(tables.drop_last(), k)
    }
}

/// Lookup in a single table, as an option.
pub open spec fn map_lookup(entries: Seq<(Seq<u8>, Seq<u8>)>, k: Seq<u8>) -> Option<Seq<u8>> {
    if table_map(entries).contains_key(k) {
        Some(table_map(entries)[k])
    } else {
        None
    }
}

/// Index of the first record at or after `j` whose key is `k`.
pub open spec fn find_rec(recs: Seq<RecView>, k: Seq<u8>, j: int) -> Option<int>
    decreases recs.len() - j,
{
    if j < 0 || j >= recs.len() {
        None
    } else if recs[j].key == k {
        Some(j)
    } else {
        find_rec(recs, k, j + 1)
    }
}

// ---------------------------------------------------------------------------
// Layout lemmas: parsing inverts the writer's layout
// ---------------------------------------------------------------------------

/// Every nonce in the sequence is 12 bytes (the part of `recs_wf` the
/// size arithmetic rests on).
pub open spec fn nonces_sized(recs: Seq<RecView>) -> bool {
    forall|i: int| 0 <= i < recs.len() ==> (#[trigger] recs[i]).nonce.len() == 12
}

pub proof fn lemma_rec_offset_mono(recs: Seq<RecView>, i: int, j: int)
    requires
        0 <= i <= j,
    ensures
        0 <= rec_offset(recs, i) <= rec_offset(recs, j),
    decreases j,
{
    if i == j {
        if i > 0 {
            lemma_rec_offset_mono(recs, i - 1, i - 1);
        }
    } else {
        lemma_rec_offset_mono(recs, i, j - 1);
    }
}

/// The data region from `from` on is as long as the offsets say.
pub proof fn lemma_recs_enc_len(recs: Seq<RecView>, from: int)
    requires
        nonces_sized(recs),
        0 <= from <= recs.len(),
    ensures
        recs_enc(recs, from).len() == rec_offset(recs, recs.len() as int) - rec_offset(recs, from),
    decreases recs.len() - from,
{
    if from < recs.len() {
        lemma_recs_enc_len(recs, from + 1);
        assert(rec_enc(recs[from]).len() == rec_size(recs[from]));
        assert(rec_offset(recs, from + 1) == rec_offset(recs, from) + rec_size(recs[from]));
    }
}

/// The data region, cut at record `j`'s offset, is the layout of the
/// records from `j` on.
pub proof fn lemma_recs_suffix(recs: Seq<RecView>, j: int)
    requires
        nonces_sized(recs),
        0 <= j <= recs.len(),
    ensures
        recs_enc(recs, 0).subrange(rec_offset(recs, j), recs_enc(recs, 0).len() as int) == recs_enc(
            recs,
            j,
        ),
    decreases j,
{
    let d = recs_enc(recs, 0);
    lemma_recs_enc_len(recs, 0);
    lemma_recs_enc_len(recs, j);
    lemma_rec_offset_mono(recs, 0, j);
    if j == 0 {
        assert(d.subrange(0, d.len() as int) =~= d);
    } else {
        lemma_recs_suffix(recs, j - 1);
        lemma_recs_enc_len(recs, j - 1);
        lemma_rec_offset_mono(recs, j - 1, recs.len() as int);
        lemma_rec_offset_mono(recs, j, recs.len() as int);
        let prev = recs_enc(recs, j - 1);
        let sz = rec_size(recs[j - 1]);
        assert(rec_enc(recs[j - 1]).len() == sz);
        assert(prev == rec_enc(recs[j - 1]) + recs_enc(recs, j));
        assert(d.subrange(rec_offset(recs, j), d.len() as int) =~= recs_enc(recs, j)) by {
            assert(rec_offset(recs, j) == rec_offset(recs, j - 1) + sz);
            assert forall|t: int| 0 <= t < recs_enc(recs, j).len() implies d.subrange(
                rec_offset(recs, j),
                d.len() as int,
            )[t] == recs_enc(recs, j)[t] by {
                assert(d.subrange(rec_offset(recs, j), d.len() as int)[t] == d[rec_offset(recs, j)
                    + t]);
                assert(d[rec_offset(recs, j - 1) + (sz + t)] == prev[sz + t]);
                assert(prev[sz + t] == recs_enc(recs, j)[t]);
            }
        }
    }
}

/// Reading record `j`'s fields out of the data region yields exactly that
/// record.
pub proof fn lemma_rec_at(seg: Seq<u8>, recs: Seq<RecView>, dl: int, j: int)
    requires
        recs_wf(recs),
        dl == recs_enc(recs, 0).len(),
        seg.subrange(0, dl) == recs_enc(recs, 0),
        dl <= seg.len(),
        0 <= j < recs.len(),
    ensures
        0 <= rec_offset(recs, j),
        rec_offset(recs, j) + rec_size(recs[j]) <= dl,
        u32_of_be(seg.subrange(rec_offset(recs, j), rec_offset(recs, j) + 4)) == recs[j].key.len(),
        seg.subrange(rec_offset(recs, j) + 4, rec_offset(recs, j) + 4 + recs[j].key.len() as int)
            == recs[j].key,
        seg.subrange(
            rec_offset(recs, j) + 4 + recs[j].key.len() as int,
            rec_offset(recs, j) + 4 + recs[j].key.len() + 12,
        ) == recs[j].nonce,
        u32_of_be(
            seg.subrange(
                rec_offset(recs, j) + 4 + recs[j].key.len() + 12,
                rec_offset(recs, j) + 4 + recs[j].key.len() + 16,
            ),
        ) == recs[j].cipher.len(),
        seg.subrange(
            rec_offset(recs, j) + 20 + recs[j].key.len() as int,
            rec_offset(recs, j) + rec_size(recs[j]),
        ) == recs[j].cipher,
{
    let d = recs_enc(recs, 0);
    let pos = rec_offset(recs, j);
    lemma_rec_offset_mono(recs, 0, j);
    lemma_recs_suffix(recs, j);
    lemma_recs_enc_len(recs, 0);
    lemma_rec_offset_mono(recs, j, recs.len() as int);
    lemma_rec_offset_mono(recs, j + 1, recs.len() as int);
    let tail = recs_enc(recs, j);
    assert(tail == rec_enc(recs[j]) + recs_enc(recs, j + 1));
    let e = rec_enc(recs[j]);
    let kl = recs[j].key.len() as int;
    let cl = recs[j].cipher.len() as int;
    assert(e.len() == rec_size(recs[j]));
    assert(dl == rec_offset(recs, recs.len() as int));
    assert(rec_offset(recs, j + 1) == pos + rec_size(recs[j]));
    assert(pos + rec_size(recs[j]) <= dl);
    // every byte of the record equals the corresponding byte of `seg`
    assert forall|t: int| 0 <= t < e.len() implies #[trigger] seg[pos + t] == e[t] by {
        assert(d.subrange(pos, d.len() as int) == tail);
        assert(d.subrange(pos, d.len() as int)[t] == d[pos + t]);
        assert(tail[t] == e[t]);
        assert(seg.subrange(0, dl)[pos + t] == seg[pos + t]);
    }
    lemma_u32_be_roundtrip(recs[j].key.len() as u32);
    lemma_u32_be_roundtrip(recs[j].cipher.len() as u32);
    assert(seg.subrange(pos, pos + 4) =~= u32_be(recs[j].key.len() as u32)) by {
        assert forall|t: int| 0 <= t < 4 implies #[trigger] seg.subrange(pos, pos + 4)[t] == u32_be(
            recs[j].key.len() as u32,
        )[t] by {
            assert(seg[pos + t] == e[t]);
        }
    }
    assert(seg.subrange(pos + 4, pos + 4 + kl) =~= recs[j].key) by {
        assert forall|t: int| 0 <= t < kl implies #[trigger] seg.subrange(pos + 4, pos + 4 + kl)[t]
            == recs[j].key[t] by {
            assert(seg[pos + (4 + t)] == e[4 + t]);
        }
    }
    assert(seg.subrange(pos + 4 + kl, pos + 4 + kl + 12) =~= recs[j].nonce) by {
        assert forall|t: int| 0 <= t < 12 implies #[trigger] seg.subrange(pos + 4 + kl, pos + 4 + kl + 12)[t]
            == recs[j].nonce[t] by {
            assert(seg[pos + (4 + kl + t)] == e[4 + kl + t]);
        }
    }
    assert(seg.subrange(pos + 4 + kl + 12, pos + 4 + kl + 16) =~= u32_be(
        recs[j].cipher.len() as u32,
    )) by {
        assert forall|t: int| 0 <= t < 4 implies #[trigger] seg.subrange(pos + 4 + kl + 12, pos + 4 + kl + 16)[t]
            == u32_be(recs[j].cipher.len() as u32)[t] by {
            assert(seg[pos + (16 + kl + t)] == e[16 + kl + t]);
        }
    }
    assert(seg.subrange(pos + 20 + kl, pos + rec_size(recs[j])) =~= recs[j].cipher) by {
        assert forall|t: int| 0 <= t < cl implies #[trigger] seg.subrange(pos + 20 + kl, pos + rec_size(recs[j]))[t]
            == recs[j].cipher[t] by {
            assert(seg[pos + (20 + kl + t)] == e[20 + kl + t]);
        }
    }
}

/// `find_rec` finds the unique matching record at or after `j`, if any.
pub proof fn lemma_find_rec(recs: Seq<RecView>, k: Seq<u8>, j: int)
    requires
        0 <= j,
    ensures
        match find_rec(recs, k, j) {
            Some(m) => j <= m < recs.len() && recs[m].key == k && forall|m2: int|
                j <= m2 < m ==> (#[trigger] recs[m2]).key != k,
            None => forall|m: int| j <= m < recs.len() ==> (#[trigger] recs[m]).key != k,
        },
    decreases recs.len() - j,
{
    if 0 <= j < recs.len() {
        if recs[j].key != k {
            lemma_find_rec(recs, k, j + 1);
        }
    }
}

/// Scanning the data region from record `j`'s offset finds the first
/// matching record from `j` on, or reports the key absent.
pub proof fn lemma_scan_of_layout(seg: Seq<u8>, recs: Seq<RecView>, dl: int, k: Seq<u8>, j: int)
    requires
        recs_wf(recs),
        dl == recs_enc(recs, 0).len(),
        seg.subrange(0, dl) == recs_enc(recs, 0),
        dl <= seg.len(),
        0 <= j <= recs.len(),
    ensures
        scan_spec(seg, dl, rec_offset(recs, j), k) == (match find_rec(recs, k, j) {
            Some(m) => ScanOutcome::Hit(recs[m].nonce, recs[m].cipher),
            None => ScanOutcome::Absent,
        }),
    decreases recs.len() - j,
{
    let pos = rec_offset(recs, j);
    lemma_rec_offset_mono(recs, 0, j);
    if j == recs.len() {
        lemma_recs_enc_len(recs, 0);
        assert(pos == dl);
        assert(scan_spec(seg, dl, pos, k) == ScanOutcome::Absent);
    } else {
        lemma_rec_at(seg, recs, dl, j);
        let kl = recs[j].key.len() as int;
        let cl = recs[j].cipher.len() as int;
        assert(rec_size(recs[j]) >= 20);
        assert(pos < dl);
        assert(u32_of_be(seg.subrange(pos, pos + 4)) as int == kl);
        assert(pos + 4 + kl + 16 <= pos + rec_size(recs[j]) <= dl <= seg.len());
        assert(u32_of_be(seg.subrange(pos + 4 + kl + 12, pos + 4 + kl + 16)) as int == cl);
        assert(pos + 20 + kl + cl == pos + rec_size(recs[j]));
        let key = seg.subrange(pos + 4, pos + 4 + kl);
        assert(key == recs[j].key);
        if recs[j].key == k {
            assert(scan_spec(seg, dl, pos, k) == ScanOutcome::Hit(recs[j].nonce, recs[j].cipher));
        } else if lex_lt(k, recs[j].key) {
            assert(scan_spec(seg, dl, pos, k) == ScanOutcome::Absent);
            lemma_find_rec(recs, k, j);
            if find_rec(recs, k, j) is Some {
                let m = find_rec(recs, k, j).unwrap();
                if m > j {
                    assert(lex_lt(recs[j].key, recs[m].key));
                    lemma_lex_lt_trans(k, recs[j].key, recs[m].key);
                }
                lemma_lex_trichotomy(k, recs[m].key);
                assert(false);
            }
        } else {
            lemma_lex_trichotomy(k, recs[j].key);
            assert(lex_lt(recs[j].key, k));
            lemma_scan_of_layout(seg, recs, dl, k, j + 1);
            assert(rec_offset(recs, j + 1) == pos + 20 + kl + cl);
        }
    }
}

/// Parsing the index region yields exactly the indexed keys and offsets.
pub proof fn lemma_idx_parse_of_enc(recs: Seq<RecView>, from: int)
    requires
        recs_wf(recs),
        0 <= from <= recs.len(),
    ensures
        idx_parse(idx_enc(recs, from)) == Some(idx_entries(recs, from)),
    decreases recs.len() - from,
{
    if from == recs.len() {
        assert(idx_enc(recs, from) =~= Seq::<u8>::empty());
        assert(idx_entries(recs, from) =~= Seq::<(Seq<u8>, u64)>::empty());
    } else {
        lemma_idx_parse_of_enc(recs, from + 1);
        if is_indexed(from, recs.len() as int) {
            let kl = recs[from].key.len() as int;
            let b = idx_enc(recs, from);
            let entry = idx_entry_enc(recs[from].key, rec_offset(recs, from) as u64);
            let rest = idx_enc(recs, from + 1);
            assert(b == entry + rest);
            assert(entry.len() == 12 + kl);
            lemma_u32_be_roundtrip(recs[from].key.len() as u32);
            lemma_u64_be_roundtrip(rec_offset(recs, from) as u64);
            assert(b.subrange(0, 4) =~= u32_be(recs[from].key.len() as u32));
            assert(u32_of_be(b.subrange(0, 4)) as int == kl);
            assert(b.subrange(4, 4 + kl) =~= recs[from].key);
            assert(b.subrange(4 + kl, 4 + kl + 8) =~= u64_be(rec_offset(recs, from) as u64));
            assert(b.skip(12 + kl) =~= rest);
            assert(idx_parse(b) == Some(
                seq![(recs[from].key, rec_offset(recs, from) as u64)] + idx_entries(recs, from + 1),
            ));
        }
    }
}

/// The index walk lands on a record offset with no matching record before
/// it.
pub proof fn lemma_bracket_of_entries(recs: Seq<RecView>, k: Seq<u8>, from: int, jacc: int)
    requires
        recs_wf(recs),
        0 <= from <= recs.len(),
        0 <= jacc <= recs.len(),
        forall|m: int| 0 <= m < jacc ==> lex_lt((#[trigger] recs[m]).key, k),
    ensures
        exists|jb: int|
            {
                &&& 0 <= jb <= recs.len()
                &&& bracket(idx_entries(recs, from), k, rec_offset(recs, jacc) as u64)
                    == rec_offset(recs, jb) as u64
                &&& forall|m: int| 0 <= m < jb ==> lex_lt((#[trigger] recs[m]).key, k)
            },
    decreases recs.len() - from,
{
    let entries = idx_entries(recs, from);
    if from == recs.len() {
        assert(bracket(entries, k, rec_offset(recs, jacc) as u64) == rec_offset(recs, jacc) as u64);
        assert({
            &&& 0 <= jacc <= recs.len()
            &&& bracket(idx_entries(recs, from), k, rec_offset(recs, jacc) as u64) == rec_offset(
                recs,
                jacc,
            ) as u64
            &&& forall|m: int| 0 <= m < jacc ==> lex_lt((#[trigger] recs[m]).key, k)
        });
    } else if is_indexed(from, recs.len() as int) {
        let rest = idx_entries(recs, from + 1);
        assert(entries == seq![(recs[from].key, rec_offset(recs, from) as u64)] + rest);
        assert(entries[0] == (recs[from].key, rec_offset(recs, from) as u64));
        assert(entries.len() == rest.len() + 1);
        if lex_lt(k, recs[from].key) {
            assert(bracket(entries, k, rec_offset(recs, jacc) as u64) == rec_offset(
                recs,
                jacc,
            ) as u64);
            assert({
                &&& 0 <= jacc <= recs.len()
                &&& bracket(idx_entries(recs, from), k, rec_offset(recs, jacc) as u64)
                    == rec_offset(recs, jacc) as u64
                &&& forall|m: int| 0 <= m < jacc ==> lex_lt((#[trigger] recs[m]).key, k)
            });
        } else if recs[from].key == k {
            assert(bracket(entries, k, rec_offset(recs, jacc) as u64) == rec_offset(
                recs,
                from,
            ) as u64);
            assert forall|m: int| 0 <= m < from implies lex_lt((#[trigger] recs[m]).key, k) by {
                assert(lex_lt(recs[m].key, recs[from].key));
            }
            assert({
                &&& 0 <= from <= recs.len()
                &&& bracket(idx_entries(recs, from), k, rec_offset(recs, jacc) as u64)
                    == rec_offset(recs, from) as u64
                &&& forall|m: int| 0 <= m < from ==> lex_lt((#[trigger] recs[m]).key, k)
            });
        } else {
            lemma_lex_trichotomy(k, recs[from].key);
            assert(lex_lt(recs[from].key, k));
            assert forall|m: int| 0 <= m < from + 1 implies lex_lt((#[trigger] recs[m]).key, k) by {
                if m < from {
                    assert(lex_lt(recs[m].key, recs[from].key));
                    lemma_lex_lt_trans(recs[m].key, recs[from].key, k);
                }
            }
            lemma_bracket_of_entries(recs, k, from + 1, from);
            assert(entries.skip(1) =~= rest);
            assert(bracket(entries, k, rec_offset(recs, jacc) as u64) == bracket(
                rest,
                k,
                rec_offset(recs, from) as u64,
            ));
            let jb = choose|jb: int|
                {
                    &&& 0 <= jb <= recs.len()
                    &&& bracket(idx_entries(recs, from + 1), k, rec_offset(recs, from) as u64)
                        == rec_offset(recs, jb) as u64
                    &&& forall|m: int| 0 <= m < jb ==> lex_lt((#[trigger] recs[m]).key, k)
                };
            assert({
                &&& 0 <= jb <= recs.len()
                &&& bracket(idx_entries(recs, from), k, rec_offset(recs, jacc) as u64)
                    == rec_offset(recs, jb) as u64
                &&& forall|m: int| 0 <= m < jb ==> lex_lt((#[trigger] recs[m]).key, k)
            });
        }
    } else {
        assert(entries == idx_entries(recs, from + 1));
        lemma_bracket_of_entries(recs, k, from + 1, jacc);
    }
}

/// Parsing the footer of an emitted segment recovers the region lengths and
/// the salt.
pub proof fn lemma_footer_of_enc(recs: Seq<RecView>, salt: Seq<u8>)
    requires
        recs_wf(recs),
        salt.len() == 16,
    ensures
        footer_ok(seg_enc(recs, salt)),
        footer_data_len(seg_enc(recs, salt)) == recs_enc(recs, 0).len(),
        footer_idx_len(seg_enc(recs, salt)) == idx_enc(recs, 0).len(),
        footer_salt(seg_enc(recs, salt)) == salt,
        idx_region(seg_enc(recs, salt)) == idx_enc(recs, 0),
        seg_enc(recs, salt).subrange(0, recs_enc(recs, 0).len() as int) == recs_enc(recs, 0),
        seg_enc(recs, salt).len() == recs_enc(recs, 0).len() + idx_enc(recs, 0).len() + 32,
{
    let d = recs_enc(recs, 0);
    let ix = idx_enc(recs, 0);
    let seg = seg_enc(recs, salt);
    let f = footer_enc(d.len() as u64, ix.len() as u64, salt);
    assert(f.len() == 32);
    assert(seg.len() == d.len() + ix.len() + 32);
    lemma_u64_be_roundtrip(d.len() as u64);
    lemma_u64_be_roundtrip(ix.len() as u64);
    assert forall|t: int| 0 <= t < 32 implies #[trigger] seg[d.len() + ix.len() + t] == f[t] by {}
    assert(seg.subrange(seg.len() - 32, seg.len() - 24) =~= u64_be(d.len() as u64)) by {
        assert forall|t: int| 0 <= t < 8 implies #[trigger] seg.subrange(
            seg.len() - 32,
            seg.len() - 24,
        )[t] == u64_be(d.len() as u64)[t] by {
            assert(seg[d.len() + ix.len() + t] == f[t]);
        }
    }
    assert(seg.subrange(seg.len() - 24, seg.len() - 16) =~= u64_be(ix.len() as u64)) by {
        assert forall|t: int| 0 <= t < 8 implies #[trigger] seg.subrange(
            seg.len() - 24,
            seg.len() - 16,
        )[t] == u64_be(ix.len() as u64)[t] by {
            assert(seg[d.len() + ix.len() + (8 + t)] == f[8 + t]);
        }
    }
    assert(seg.subrange(seg.len() - 16, seg.len() as int) =~= salt) by {
        assert forall|t: int| 0 <= t < 16 implies #[trigger] seg.subrange(
            seg.len() - 16,
            seg.len() as int,
        )[t] == salt[t] by {
            assert(seg[d.len() + ix.len() + (16 + t)] == f[16 + t]);
        }
    }
    assert(footer_data_len(seg) == d.len());
    assert(footer_idx_len(seg) == ix.len());
    assert(idx_region(seg) =~= ix) by {
        assert forall|t: int| 0 <= t < ix.len() implies #[trigger] idx_region(seg)[t] == ix[t] by {
            assert(seg[d.len() + t] == ix[t]);
        }
    }
    assert(seg.subrange(0, d.len() as int) =~= d) by {
        assert forall|t: int| 0 <= t < d.len() implies #[trigger] seg.subrange(0, d.len() as int)[t]
            == d[t] by {
            assert(seg[0 + t] == d[t]);
        }
    }
}

/// For a well-formed segment, the whole lookup path — footer, sparse index,
/// bracketed scan, open, decode — finds exactly what the table holds.
pub proof fn lemma_seg_wf_lookup(
    seg: Seq<u8>,
    password: Seq<u8>,
    entries: Seq<(Seq<u8>, Seq<u8>)>,
    k: Seq<u8>,
)
    requires
        seg_wf_for(seg, password, entries),
    ensures
        seg_load_ok(seg),
        sorted_strict(entries),
        seg_search_spec(seg, derived_key_of(password, footer_salt(seg)), k) == map_lookup(
            entries,
            k,
        ),
{
    let (recs, salt) = choose|recs: Seq<RecView>, salt: Seq<u8>|
        {
            &&& salt.len() == 16
            &&& recs_wf(recs)
            &&& recs_match(recs, entries, derived_key_of(password, salt))
            &&& seg == seg_enc(recs, salt)
        };
    let dk = derived_key_of(password, salt);
    lemma_footer_of_enc(recs, salt);
    lemma_idx_parse_of_enc(recs, 0);
    assert(sorted_strict(entries)) by {
        assert forall|i: int, j: int| 0 <= i < j < entries.len() implies lex_lt(
            (#[trigger] entries[i]).0,
            (#[trigger] entries[j]).0,
        ) by {
            assert(recs[i].key == entries[i].0 && recs[j].key == entries[j].0);
        }
    }
    lemma_sorted_implies_unique(entries);
    lemma_table_map_index(entries);
    let dl = footer_data_len(seg) as int;
    assert(dl == recs_enc(recs, 0).len());
    lemma_bracket_of_entries(recs, k, 0, 0);
    let jb = choose|jb: int|
        #![trigger rec_offset(recs, jb)]
        {
            &&& 0 <= jb <= recs.len()
            &&& bracket(idx_entries(recs, 0), k, rec_offset(recs, 0) as u64) == rec_offset(
                recs,
                jb,
            ) as u64
            &&& forall|m: int| 0 <= m < jb ==> lex_lt((#[trigger] recs[m]).key, k)
        };
    let idx = idx_parse(idx_region(seg)).unwrap();
    assert(idx == idx_entries(recs, 0));
    let start = bracket(idx, k, 0);
    assert(start == rec_offset(recs, jb) as u64);
    lemma_rec_offset_mono(recs, jb, recs.len() as int);
    lemma_recs_enc_len(recs, 0);
    assert(rec_offset(recs, jb) <= dl);
    assert(start as int == rec_offset(recs, jb));
    lemma_scan_of_layout(seg, recs, dl, k, jb);
    lemma_find_rec(recs, k, jb);
    if find_rec(recs, k, jb) is Some {
        let m = find_rec(recs, k, jb).unwrap();
        assert(scan_spec(seg, dl, start as int, k) == ScanOutcome::Hit(recs[m].nonce, recs[m].cipher));
        assert(recs[m].key == k);
        assert(opened_of(dk, recs[m].nonce, k, recs[m].cipher) == Some(bincode_of(entries[m].1)));
        assert(bincode_decoded_of(bincode_of(entries[m].1)) == Some(entries[m].1));
        assert(entries[m].0 == k);
        assert(table_map(entries).contains_key(k) && table_map(entries)[k] == entries[m].1);
        assert(seg_search_spec(seg, dk, k) == Some(entries[m].1));
    } else {
        assert forall|m: int| 0 <= m < entries.len() implies (#[trigger] entries[m]).0 != k by {
            if m < jb {
                lemma_lex_trichotomy(recs[m].key, k);
            }
            assert(recs[m].key == entries[m].0);
        }
        lemma_table_map_absent(entries, k);
        assert(scan_spec(seg, dl, start as int, k) == ScanOutcome::Absent);
        assert(seg_search_spec(seg, dk, k) is None);
    }
}

proof fn lemma_iter_lookup_wf(
    segs: Seq<Seq<u8>>,
    password: Seq<u8>,
    tables: Seq<Seq<(Seq<u8>, Seq<u8>)>>,
    k: Seq<u8>,
    i: int,
)
    requires
        tables.len() == segs.len(),
        forall|j: int|
            0 <= j < segs.len() ==> seg_wf_for(#[trigger] segs[j], password, tables[j]),
        0 <= i <= segs.len(),
    ensures
        iter_lookup(segs, password, k, i) == (match newest_lookup(tables.take(i), k) {
            Some(v) => LookupSpec::Found(v),
            None => LookupSpec::Miss,
        }),
    decreases i,
{
    if i > 0 {
        lemma_seg_wf_lookup(segs[i - 1], password, tables[i - 1], k);
        lemma_iter_lookup_wf(segs, password, tables, k, i - 1);
        assert(tables.take(i).last() == tables[i - 1]);
        assert(tables.take(i).drop_last() =~= tables.take(i - 1));
    }
}

/// Law: newest first wins. Over segments that are well-formed flushes of
/// tables (oldest first), the lookup returns what the newest table holding
/// the key says, and misses only when no table holds it.
pub proof fn lemma_newest_first_wins(
    segs: Seq<Seq<u8>>,
    password: Seq<u8>,
    tables: Seq<Seq<(Seq<u8>, Seq<u8>)>>,
    k: Seq<u8>,
)
    requires
        tables.len() == segs.len(),
        forall|j: int|
            0 <= j < segs.len() ==> seg_wf_for(#[trigger] segs[j], password, tables[j]),
    ensures
        iter_lookup(segs, password, k, segs.len() as int) == (match newest_lookup(tables, k) {
            Some(v) => LookupSpec::Found(v),
            None => LookupSpec::Miss,
        }),
{
    lemma_iter_lookup_wf(segs, password, tables, k, segs.len() as int);
    assert(tables.take(tables.len() as int) =~= tables);
}

/// The record index that sparse-index entry `e` (counting from record
/// `from`) refers to.
pub open spec fn idx_source(recs: Seq<RecView>, from: int, e: int) -> int
    decreases recs.len() - from,
{
    if from < 0 || from >= recs.len() {
        0
    } else if is_indexed(from, recs.len() as int) {
        if e == 0 {
            from
        } else {
            idx_source(recs, from + 1, e - 1)
        }
    } else {
        idx_source(recs, from + 1, e)
    }
}

/// Every sparse-index entry names a data-region record and carries that
/// record's offset, and entries appear in record order.
pub proof fn lemma_idx_entries_records(recs: Seq<RecView>, from: int)
    requires
        0 <= from <= recs.len(),
    ensures
        forall|e: int|
            #![trigger idx_source(recs, from, e)]
            0 <= e < idx_entries(recs, from).len() ==> {
                &&& from <= idx_source(recs, from, e) < recs.len()
                &&& is_indexed(idx_source(recs, from, e), recs.len() as int)
                &&& idx_entries(recs, from)[e] == (
                    recs[idx_source(recs, from, e)].key,
                    rec_offset(recs, idx_source(recs, from, e)) as u64,
                )
            },
        forall|e1: int, e2: int|
            0 <= e1 < e2 < idx_entries(recs, from).len() ==> #[trigger] idx_source(recs, from, e1)
                < #[trigger] idx_source(recs, from, e2),
    decreases recs.len() - from,
{
    if from < recs.len() {
        lemma_idx_entries_records(recs, from + 1);
        if is_indexed(from, recs.len() as int) {
            assert(idx_entries(recs, from) == seq![(recs[from].key, rec_offset(recs, from) as u64)]
                + idx_entries(recs, from + 1));
        } else {
            assert(idx_entries(recs, from) == idx_entries(recs, from + 1));
        }
        assert forall|e: int|
            #![trigger idx_source(recs, from, e)]
            0 <= e < idx_entries(recs, from).len() implies {
            &&& from <= idx_source(recs, from, e) < recs.len()
            &&& is_indexed(idx_source(recs, from, e), recs.len() as int)
            &&& idx_entries(recs, from)[e] == (
                recs[idx_source(recs, from, e)].key,
                rec_offset(recs, idx_source(recs, from, e)) as u64,
            )
        } by {
            if is_indexed(from, recs.len() as int) {
                if e == 0 {
                    assert(idx_entries(recs, from)[0] == (
                        recs[from].key,
                        rec_offset(recs, from) as u64,
                    ));
                } else {
                    assert(idx_entries(recs, from)[e] == idx_entries(recs, from + 1)[e - 1]);
                    assert(idx_source(recs, from, e) == idx_source(recs, from + 1, e - 1));
                }
            } else {
                assert(idx_entries(recs, from)[e] == idx_entries(recs, from + 1)[e]);
                assert(idx_source(recs, from, e) == idx_source(recs, from + 1, e));
            }
        }
        assert forall|e1: int, e2: int|
            0 <= e1 < e2 < idx_entries(recs, from).len() implies #[trigger] idx_source(
            recs,
            from,
            e1,
        ) < #[trigger] idx_source(recs, from, e2) by {
            if is_indexed(from, recs.len() as int) {
                if e1 == 0 {
                    assert(idx_source(recs, from, e1) == from);
                    assert(idx_entries(recs, from)[e2] == idx_entries(recs, from + 1)[e2 - 1]);
                    assert(idx_source(recs, from, e2) == idx_source(recs, from + 1, e2 - 1));
                } else {
                    assert(idx_entries(recs, from)[e1] == idx_entries(recs, from + 1)[e1 - 1]);
                    assert(idx_entries(recs, from)[e2] == idx_entries(recs, from + 1)[e2 - 1]);
                    assert(idx_source(recs, from + 1, e1 - 1) < idx_source(recs, from + 1, e2 - 1));
                }
            } else {
                assert(idx_entries(recs, from)[e1] == idx_entries(recs, from + 1)[e1]);
                assert(idx_entries(recs, from)[e2] == idx_entries(recs, from + 1)[e2]);
                assert(idx_source(recs, from, e1) == idx_source(recs, from + 1, e1));
                assert(idx_source(recs, from, e2) == idx_source(recs, from + 1, e2));
            }
        }
    } else {
        assert(idx_entries(recs, from).len() == 0);
    }
}

/// Law: the sparse index of an emitted segment parses to a subsequence of
/// the data-region records — in record order, each indexed key carrying
/// that record's true data offset.
#[verifier::rlimit(30)]
pub proof fn lemma_sparse_index_subsequence(recs: Seq<RecView>, salt: Seq<u8>)
    requires
        recs_wf(recs),
        salt.len() == 16,
    ensures
        idx_parse(idx_region(seg_enc(recs, salt))) == Some(idx_entries(recs, 0)),
        forall|e: int|
            #![trigger idx_source(recs, 0, e)]
            0 <= e < idx_entries(recs, 0).len() ==> {
                &&& 0 <= idx_source(recs, 0, e) < recs.len()
                &&& is_indexed(idx_source(recs, 0, e), recs.len() as int)
                &&& idx_entries(recs, 0)[e] == (
                    recs[idx_source(recs, 0, e)].key,
                    rec_offset(recs, idx_source(recs, 0, e)) as u64,
                )
            },
        forall|e1: int, e2: int|
            0 <= e1 < e2 < idx_entries(recs, 0).len() ==> #[trigger] idx_source(recs, 0, e1)
                < #[trigger] idx_source(recs, 0, e2),
{
    lemma_footer_of_enc(recs, salt);
    lemma_idx_parse_of_enc(recs, 0);
    lemma_idx_entries_records(recs, 0);
}

/// Law: an emitted segment's file size is its data-region length plus its
/// index-region length plus the 32-byte footer, and each record reads back
/// from its offset.
pub proof fn lemma_segment_layout(recs: Seq<RecView>, salt: Seq<u8>)
    requires
        recs_wf(recs),
        salt.len() == 16,
    ensures
        footer_ok(seg_enc(recs, salt)),
        seg_enc(recs, salt).len() == footer_data_len(seg_enc(recs, salt)) + footer_idx_len(
            seg_enc(recs, salt),
        ) + 32,
        forall|j: int|
            0 <= j < recs.len() ==> scan_spec(
                seg_enc(recs, salt),
                footer_data_len(seg_enc(recs, salt)) as int,
                rec_offset(recs, j),
                (#[trigger] recs[j]).key,
            ) == ScanOutcome::Hit(recs[j].nonce, recs[j].cipher),
{
    lemma_footer_of_enc(recs, salt);
    let seg = seg_enc(recs, salt);
    let dl = footer_data_len(seg) as int;
    assert forall|j: int| 0 <= j < recs.len() implies scan_spec(
        seg,
        dl,
        rec_offset(recs, j),
        (#[trigger] recs[j]).key,
    ) == ScanOutcome::Hit(recs[j].nonce, recs[j].cipher) by {
        lemma_scan_of_layout(seg, recs, dl, recs[j].key, j);
        lemma_find_rec(recs, recs[j].key, j);
    }
}

/// Law: when the record count equals the index density, the stride is one
/// and every record gets an index entry.
pub proof fn lemma_full_index_at_density(n: int)
    requires
        n == INDEX_DENSITY,
    ensures
        stride_of(n) == 1,
        forall|i: int| 0 <= i < n ==> is_indexed(i, n),
{
}

// ---------------------------------------------------------------------------
// Builder lemmas: growing the record sequence extends the regions in place
// ---------------------------------------------------------------------------

/// Appending a record appends its encoding to the data region.
pub proof fn lemma_recs_enc_snoc(recs: Seq<RecView>, r: RecView, from: int)
    requires
        0 <= from <= recs.len(),
    ensures
        recs_enc(recs.push(r), from) == recs_enc(recs, from) + rec_enc(r),
    decreases recs.len() - from,
{
    let ext = recs.push(r);
    if from == recs.len() {
        assert(ext[from] == r);
        assert(recs_enc(ext, from + 1) =~= Seq::<u8>::empty());
        assert(rec_enc(r) + Seq::<u8>::empty() =~= rec_enc(r));
        assert(recs_enc(recs, from) =~= Seq::<u8>::empty());
        assert(Seq::<u8>::empty() + rec_enc(r) =~= rec_enc(r));
    } else {
        lemma_recs_enc_snoc(recs, r, from + 1);
        assert(ext[from] == recs[from]);
        assert((rec_enc(recs[from]) + recs_enc(recs, from + 1)) + rec_enc(r) =~= rec_enc(recs[from])
            + (recs_enc(recs, from + 1) + rec_enc(r)));
    }
}

/// A record's offset does not depend on the records after it.
pub proof fn lemma_rec_offset_snoc(recs: Seq<RecView>, r: RecView, i: int)
    requires
        0 <= i <= recs.len(),
    ensures
        rec_offset(recs.push(r), i) == rec_offset(recs, i),
    decreases i,
{
    if i > 0 {
        lemma_rec_offset_snoc(recs, r, i - 1);
        assert(recs.push(r)[i - 1] == recs[i - 1]);
    }
}

/// The index region for the first `upto` of `n` records, built back to
/// front as the writer does.
pub open spec fn idx_enc_upto(recs: Seq<RecView>, n: int, upto: int) -> Seq<u8>
    decreases upto,
{
    if upto <= 0 {
        Seq::empty()
    } else {
        idx_enc_upto(recs, n, upto - 1) + (if is_indexed(upto - 1, n) {
            idx_entry_enc(recs[upto - 1].key, rec_offset(recs, upto - 1) as u64)
        } else {
            Seq::empty()
        })
    }
}

/// The incremental index prefix does not depend on the records after it.
pub proof fn lemma_idx_enc_upto_snoc(recs: Seq<RecView>, r: RecView, n: int, upto: int)
    requires
        0 <= upto <= recs.len(),
    ensures
        idx_enc_upto(recs.push(r), n, upto) == idx_enc_upto(recs, n, upto),
    decreases upto,
{
    if upto > 0 {
        lemma_idx_enc_upto_snoc(recs, r, n, upto - 1);
        assert(recs.push(r)[upto - 1] == recs[upto - 1]);
        lemma_rec_offset_snoc(recs, r, upto - 1);
    }
}

/// The complete incremental index equals the index region's layout.
pub proof fn lemma_idx_enc_upto_complete(recs: Seq<RecView>, from: int)
    requires
        0 <= from <= recs.len(),
    ensures
        idx_enc_upto(recs, recs.len() as int, recs.len() as int) == idx_enc_upto(
            recs,
            recs.len() as int,
            from,
        ) + idx_enc(recs, from),
    decreases recs.len() - from,
{
    let n = recs.len() as int;
    if from == n {
        assert(idx_enc(recs, from) =~= Seq::<u8>::empty());
        assert(idx_enc_upto(recs, n, from) + Seq::<u8>::empty() =~= idx_enc_upto(recs, n, from));
    } else {
        lemma_idx_enc_upto_complete(recs, from + 1);
        if is_indexed(from, n) {
            assert(idx_enc_upto(recs, n, from + 1) == idx_enc_upto(recs, n, from) + idx_entry_enc(
                recs[from].key,
                rec_offset(recs, from) as u64,
            ));
            assert((idx_enc_upto(recs, n, from) + idx_entry_enc(
                recs[from].key,
                rec_offset(recs, from) as u64,
            )) + idx_enc(recs, from + 1) =~= idx_enc_upto(recs, n, from) + (idx_entry_enc(
                recs[from].key,
                rec_offset(recs, from) as u64,
            ) + idx_enc(recs, from + 1)));
        } else {
            assert(idx_enc_upto(recs, n, from + 1) == idx_enc_upto(recs, n, from)
                + Seq::<u8>::empty());
            assert(idx_enc_upto(recs, n, from) + Seq::<u8>::empty() =~= idx_enc_upto(
                recs,
                n,
                from,
            ));
        }
    }
}

// ---------------------------------------------------------------------------
// Executable readers
// ---------------------------------------------------------------------------

/// One parsed sparse-index entry.
#[derive(Clone, Debug)]
pub struct IndexEntry {
    pub key: Vec<u8>,
    pub offset: u64,
}

impl View for IndexEntry {
    type V = (Seq<u8>, u64);

    open spec fn view(&self) -> (Seq<u8>, u64) {
        (self.key@, self.offset)
    }
}

/// One loaded segment: the file's bytes, the data-region boundary from the
/// footer, the parsed sparse index, and the per-segment decrypter.
#[derive(Debug)]
pub struct SegmentFile {
    pub data: Vec<u8>,
    pub idx_offset: u64,
    pub idx: Vec<IndexEntry>,
    pub decrypter: DefaultDecrypter,
}

impl SegmentFile {
    /// The parsed index as key/offset pairs.
    pub open spec fn idx_view(&self) -> Seq<(Seq<u8>, u64)> {
        self.idx@.map_values(|e: IndexEntry| e@)
    }

    pub fn new(offset: u64, data: Vec<u8>, decrypter: DefaultDecrypter) -> (r: Self)
        ensures
            r.data@ == data@,
            r.idx_offset == offset,
            r.idx_view() =~= Seq::<(Seq<u8>, u64)>::empty(),
            r.decrypter == decrypter,
    {
        SegmentFile { data, idx_offset: offset, idx: Vec::new(), decrypter }
    }

    /// Reads the fixed footer off the end of a segment file: the data
    /// length, the index length, and the salt. Fails exactly when the file
    /// is shorter than the footer or the region lengths do not account for
    /// the file.
    pub fn parse_footer(data: &Vec<u8>) -> (r: Result<(u64, u64, Vec<u8>), KvError>)
        ensures
            match r {
                Ok(f) => {
                    &&& footer_ok(data@)
                    &&& f.0 == footer_data_len(data@)
                    &&& f.1 == footer_idx_len(data@)
                    &&& f.2@ == footer_salt(data@)
                },
                Err(_) => !footer_ok(data@),
            },
    {
        let n: usize = data.len();
        if n < FOOTER_SIZE {
            return Err(KvError("segment too short"));
        }
        let dl = read_u64_be(data, n - 32);
        let il = read_u64_be(data, n - 24);
        if dl > (n as u64) - 32 || il != (n as u64) - 32 - dl {
            return Err(KvError("segment footer lengths are inconsistent"));
        }
        let salt = copy_range(data, n - 16, 16);
        Ok((dl, il, salt))
    }

    /// Parses the index region into this segment's sparse index. Fails
    /// exactly when the region is malformed; on success the parsed entries
    /// are the region's entries in order.
    pub fn populate_index(&mut self, idx_bytes: Vec<u8>) -> (r: Result<(), KvError>)
        ensures
            final(self).data@ == old(self).data@,
            final(self).idx_offset == old(self).idx_offset,
            final(self).decrypter == old(self).decrypter,
            match r {
                Ok(_) => idx_parse(idx_bytes@) == Some(final(self).idx_view()),
                Err(_) => idx_parse(idx_bytes@) is None,
            },
    {
        let n: usize = idx_bytes.len();
        let mut pos: usize = 0;
        let mut out: Vec<IndexEntry> = Vec::new();
        proof {
            assert(idx_bytes@.skip(0) =~= idx_bytes@);
            assert(out@.map_values(|e: IndexEntry| e@) =~= Seq::<(Seq<u8>, u64)>::empty());
            match idx_parse(idx_bytes@) {
                Some(rest) => {
                    assert(out@.map_values(|e: IndexEntry| e@) + rest =~= rest);
                },
                None => {},
            }
        }
        loop
            invariant
                pos <= n,
                n == idx_bytes@.len(),
                *self == *old(self),
                match idx_parse(idx_bytes@.skip(pos as int)) {
                    Some(rest) => idx_parse(idx_bytes@) == Some(
                        out@.map_values(|e: IndexEntry| e@) + rest,
                    ),
                    None => idx_parse(idx_bytes@) is None,
                },
            ensures
                pos == n,
                *self == *old(self),
                match idx_parse(idx_bytes@.skip(pos as int)) {
                    Some(rest) => idx_parse(idx_bytes@) == Some(
                        out@.map_values(|e: IndexEntry| e@) + rest,
                    ),
                    None => idx_parse(idx_bytes@) is None,
                },
            decreases n - pos,
        {
            if pos == n {
                break ;
            }
            proof {
                assert(idx_bytes@.skip(pos as int).len() == n - pos);
            }
            if n - pos < 4 {
                proof {
                    assert(idx_bytes@.skip(pos as int).len() < 4);
                    assert(idx_parse(idx_bytes@.skip(pos as int)) is None);
                }
                return Err(KvError("truncated index entry"));
            }
            let kl = read_u32_be(&idx_bytes, pos);
            proof {
                assert(idx_bytes@.skip(pos as int).subrange(0, 4) =~= idx_bytes@.subrange(
                    pos as int,
                    pos as int + 4,
                ));
            }
            if (kl as u64) + 8 > (n - pos - 4) as u64 {
                proof {
                    assert(idx_parse(idx_bytes@.skip(pos as int)) is None);
                }
                return Err(KvError("truncated index entry"));
            }
            let klu = kl as usize;
            let key = copy_range(&idx_bytes, pos + 4, klu);
            let off = read_u64_be(&idx_bytes, pos + 4 + klu);
            proof {
                let b = idx_bytes@.skip(pos as int);
                assert(b.subrange(4, 4 + klu as int) =~= idx_bytes@.subrange(
                    pos as int + 4,
                    pos as int + 4 + klu as int,
                ));
                assert(b.subrange(4 + klu as int, 4 + klu as int + 8) =~= idx_bytes@.subrange(
                    pos as int + 4 + klu as int,
                    pos as int + 4 + klu as int + 8,
                ));
                assert(b.skip(4 + klu as int + 8) =~= idx_bytes@.skip(
                    pos as int + 12 + klu as int,
                ));
            }
            let ghost prev_out = out@;
            out.push(IndexEntry { key, offset: off });
            proof {
                let b = idx_bytes@.skip(pos as int);
                let entry = (idx_bytes@.subrange(
                    pos as int + 4,
                    pos as int + 4 + klu as int,
                ), off);
                assert(out@.map_values(|e: IndexEntry| e@) =~= prev_out.map_values(
                    |e: IndexEntry| e@,
                ) + seq![entry]);
                match idx_parse(idx_bytes@.skip(pos as int + 12 + klu as int)) {
                    Some(rest) => {
                        assert(idx_parse(b) == Some(seq![entry] + rest));
                        assert(prev_out.map_values(|e: IndexEntry| e@) + (seq![entry] + rest)
                            =~= out@.map_values(|e: IndexEntry| e@) + rest);
                    },
                    None => {
                        assert(idx_parse(b) is None);
                    },
                }
            }
            pos = pos + 12 + klu;
        }
        proof {
            assert(idx_bytes@.skip(n as int) =~= Seq::<u8>::empty());
            assert(idx_parse(idx_bytes@.skip(n as int)) == Some(Seq::<(Seq<u8>, u64)>::empty()));
            assert(out@.map_values(|e: IndexEntry| e@) + Seq::<(Seq<u8>, u64)>::empty()
                =~= out@.map_values(|e: IndexEntry| e@));
        }
        self.idx = out;
        Ok(())
    }

    /// The point lookup in this segment's data region: scan forward from
    /// `key_offset` until the key matches (open and decode it), a larger
    /// key is read (absent), or the index boundary is reached (absent).
    /// The result is exactly what the byte-level lookup spec says.
    pub fn search(&self, k: &Vec<u8>, key_offset: u64) -> (r: Result<Option<Vec<u8>>, KvError>)
        requires
            self.decrypter.wf(),
        ensures
            match r {
                Ok(Some(v)) => search_spec(
                    self.data@,
                    self.decrypter.spec_key(),
                    self.idx_offset as int,
                    key_offset as int,
                    k@,
                ) == LookupSpec::Found(v@),
                Ok(None) => search_spec(
                    self.data@,
                    self.decrypter.spec_key(),
                    self.idx_offset as int,
                    key_offset as int,
                    k@,
                ) is Miss,
                Err(_) => search_spec(
                    self.data@,
                    self.decrypter.spec_key(),
                    self.idx_offset as int,
                    key_offset as int,
                    k@,
                ) is Fail,
            },
    {
        let ghost dk = self.decrypter.spec_key();
        let ghost end = self.idx_offset as int;
        let n: usize = self.data.len();
        let mut pos: u64 = key_offset;
        loop
            invariant
                self.decrypter.wf(),
                n == self.data@.len(),
                dk == self.decrypter.spec_key(),
                end == self.idx_offset as int,
                search_spec(self.data@, dk, end, key_offset as int, k@) == search_spec(
                    self.data@,
                    dk,
                    end,
                    pos as int,
                    k@,
                ),
            decreases n + 1 - pos,
        {
            if pos >= self.idx_offset {
                return Ok(None);
            }
            if pos > n as u64 || (n as u64) - pos < 4 {
                return Err(KvError("truncated record"));
            }
            let p = pos as usize;
            let kl = read_u32_be(&self.data, p);
            if (kl as u64) + 16 > (n as u64) - pos - 4 {
                return Err(KvError("truncated record"));
            }
            let klu = kl as usize;
            let key_bytes = copy_range(&self.data, p + 4, klu);
            let nonce_bytes = copy_range(&self.data, p + 4 + klu, 12);
            let cl = read_u32_be(&self.data, p + 4 + klu + 12);
            if (cl as u64) > (n as u64) - pos - 20 - (kl as u64) {
                return Err(KvError("truncated record"));
            }
            let clu = cl as usize;
            let cipher = copy_range(&self.data, p + 20 + klu, clu);
            match compare_bytes(&key_bytes, k) {
                KeyCmp::Equal => {
                    let plain = match self.decrypter.decrypt(&cipher, &nonce_bytes, &key_bytes) {
                        Ok(plain) => plain,
                        Err(_) => {
                            return Err(KvError("Failed to decrypt"));
                        },
                    };
                    match bincode_decode(&plain) {
                        Some(v) => {
                            return Ok(Some(v));
                        },
                        None => {
                            return Err(KvError("Failed to decode"));
                        },
                    }
                },
                KeyCmp::Greater => {
                    return Ok(None);
                },
                KeyCmp::Less => {
                    pos = pos + 20 + (kl as u64) + (cl as u64);
                },
            }
        }
    }
}

/// Iterates loaded segment files from newest to oldest for a point lookup.
#[derive(Clone, Debug)]
pub struct SegmentIter {
    pub segments: Vec<Vec<u8>>,
    pub password: Vec<u8>,
}

impl SegmentIter {
    /// The segments as byte strings, oldest first.
    pub open spec fn segs_view(&self) -> Seq<Seq<u8>> {
        self.segments@.map_values(|v: Vec<u8>| v@)
    }

    /// Takes the segment files' bytes, oldest first, and the password that
    /// opens their records.
    pub fn new(segments: Vec<Vec<u8>>, password: Vec<u8>) -> (r: Self)
        ensures
            r.segs_view() == segments@.map_values(|v: Vec<u8>| v@),
            r.password@ == password@,
    {
        SegmentIter { segments, password }
    }

    /// Loads one segment: footer, per-segment key derivation, sparse index.
    /// Fails exactly when footer or index is malformed.
    fn load_segment(&self, seg_data: &Vec<u8>) -> (r: Result<SegmentFile, KvError>)
        requires
            self.password@.len() < 0x100000000,
        ensures
            match r {
                Ok(sf) => {
                    &&& seg_load_ok(seg_data@)
                    &&& sf.data@ == seg_data@
                    &&& sf.idx_offset == footer_data_len(seg_data@)
                    &&& sf.idx_view() == idx_parse(idx_region(seg_data@)).unwrap()
                    &&& sf.decrypter.wf()
                    &&& sf.decrypter.spec_key() == derived_key_of(
                        self.password@,
                        footer_salt(seg_data@),
                    )
                },
                Err(_) => !seg_load_ok(seg_data@),
            },
    {
        let (dl, il, salt) = match Self::parse_footer_of(seg_data) {
            Ok(f) => f,
            Err(e) => {
                return Err(e);
            },
        };
        let n: usize = seg_data.len();
        let dlu = dl as usize;
        let ilu = il as usize;
        let idx_bytes = copy_range(seg_data, dlu, ilu);
        proof {
            assert(idx_bytes@ == idx_region(seg_data@));
        }
        let file_decrypter = match DefaultDecrypter::new(clone_bytes(&self.password), salt) {
            Ok(d) => d,
            Err(_) => {
                return Err(KvError("Failed to derive key"));
            },
        };
        let mut seg = SegmentFile::new(dl, clone_bytes(seg_data), file_decrypter);
        match seg.populate_index(idx_bytes) {
            Ok(_) => Ok(seg),
            Err(e) => Err(e),
        }
    }

    /// `SegmentFile::parse_footer`, reached from the iterator.
    fn parse_footer_of(seg_data: &Vec<u8>) -> (r: Result<(u64, u64, Vec<u8>), KvError>)
        ensures
            match r {
                Ok(f) => {
                    &&& footer_ok(seg_data@)
                    &&& f.0 == footer_data_len(seg_data@)
                    &&& f.1 == footer_idx_len(seg_data@)
                    &&& f.2@ == footer_salt(seg_data@)
                },
                Err(_) => !footer_ok(seg_data@),
            },
    {
        SegmentFile::parse_footer(seg_data)
    }

    /// Walks the segments newest to oldest; within each, brackets a start
    /// offset with the sparse index and scans. The first segment whose
    /// lookup finds the key decides; per-segment search failures (including
    /// decrypt failures) count as a miss; a segment whose footer or index
    /// cannot be parsed aborts the whole lookup.
    pub fn find_key_in_segments(self, key: &Vec<u8>) -> (r: Result<Option<Vec<u8>>, KvError>)
        requires
            self.password@.len() < 0x100000000,
        ensures
            match r {
                Ok(Some(v)) => iter_lookup(
                    self.segs_view(),
                    self.password@,
                    key@,
                    self.segs_view().len() as int,
                ) == LookupSpec::Found(v@),
                Ok(None) => iter_lookup(
                    self.segs_view(),
                    self.password@,
                    key@,
                    self.segs_view().len() as int,
                ) is Miss,
                Err(_) => iter_lookup(
                    self.segs_view(),
                    self.password@,
                    key@,
                    self.segs_view().len() as int,
                ) is Fail,
            },
    {
        let ghost segs = self.segs_view();
        let ghost pw = self.password@;
        let total: usize = self.segments.len();
        let mut i: usize = total;
        loop
            invariant
                i <= total,
                total == segs.len(),
                segs == self.segs_view(),
                pw == self.password@,
                self.password@.len() < 0x100000000,
                iter_lookup(segs, pw, key@, segs.len() as int) == iter_lookup(
                    segs,
                    pw,
                    key@,
                    i as int,
                ),
            decreases i,
        {
            if i == 0 {
                return Ok(None);
            }
            i = i - 1;
            proof {
                assert(segs[i as int] == self.segments@[i as int]@);
            }
            let seg = match self.load_segment(&self.segments[i]) {
                Ok(sf) => sf,
                Err(e) => {
                    return Err(e);
                },
            };
            // walk the sparse index for a starting offset
            let ghost idx_full = seg.idx_view();
            let idx_len: usize = seg.idx.len();
            let mut key_offset: u64 = 0;
            let mut t: usize = 0;
            proof {
                assert(idx_full.skip(0) =~= idx_full);
            }
            loop
                invariant
                    t <= idx_len,
                    idx_len == idx_full.len(),
                    idx_full == seg.idx_view(),
                    bracket(idx_full, key@, 0) == bracket(
                        idx_full.skip(t as int),
                        key@,
                        key_offset,
                    ),
                ensures
                    key_offset == bracket(idx_full, key@, 0),
                decreases idx_len - t,
            {
                if t == idx_len {
                    proof {
                        assert(idx_full.skip(t as int).len() == 0);
                    }
                    break ;
                }
                proof {
                    assert(idx_full.skip(t as int)[0] == idx_full[t as int]);
                    assert(idx_full[t as int] == seg.idx@[t as int]@);
                }
                match compare_bytes(&seg.idx[t].key, key) {
                    KeyCmp::Greater => {
                        break ;
                    },
                    KeyCmp::Equal => {
                        key_offset = seg.idx[t].offset;
                        break ;
                    },
                    KeyCmp::Less => {
                        key_offset = seg.idx[t].offset;
                        proof {
                            assert(idx_full.skip(t as int).skip(1) =~= idx_full.skip(t as int + 1));
                        }
                        t = t + 1;
                    },
                }
            }
            match seg.search(key, key_offset) {
                Ok(Some(v)) => {
                    proof {
                        assert(seg_search_spec(
                            segs[i as int],
                            derived_key_of(pw, footer_salt(segs[i as int])),
                            key@,
                        ) == Some(v@));
                        assert(iter_lookup(segs, pw, key@, i as int + 1) == LookupSpec::Found(v@));
                    }
                    return Ok(Some(v));
                },
                Ok(None) => {
                    proof {
                        assert(seg_search_spec(
                            segs[i as int],
                            derived_key_of(pw, footer_salt(segs[i as int])),
                            key@,
                        ) is None);
                        assert(iter_lookup(segs, pw, key@, i as int + 1) == iter_lookup(
                            segs,
                            pw,
                            key@,
                            i as int,
                        ));
                    }
                },
                Err(_) => {
                    proof {
                        assert(seg_search_spec(
                            segs[i as int],
                            derived_key_of(pw, footer_salt(segs[i as int])),
                            key@,
                        ) is None);
                        assert(iter_lookup(segs, pw, key@, i as int + 1) == iter_lookup(
                            segs,
                            pw,
                            key@,
                            i as int,
                        ));
                    }
                },
            }
        }
    }
}

} // verus!
