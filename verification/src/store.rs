//! The store front end: the typed error, the write path (WAL line plus
//! memtable insert plus threshold-triggered flush handoff), the read path,
//! segment building, and write-ahead-log replay.

use vstd::prelude::*;

use crate::codec::{b64_decode, b64_encode, b64_of, bincode_decode, bincode_decoded_of, bincode_encode, bincode_of};
use crate::encryption::{derived_key_of, opened_of, sealed_of, DecryptError, DefaultDecrypter, DefaultEncrypter, EncryptError};
use crate::memtable::Memtable;
use crate::segment::{
    footer_ok, footer_salt, idx_entry_enc, idx_enc, idx_enc_upto, is_indexed, iter_lookup,
    lemma_newest_first_wins, newest_lookup,
    lemma_footer_of_enc, lemma_idx_enc_upto_complete, lemma_idx_enc_upto_snoc, lemma_recs_enc_len,
    lemma_recs_enc_snoc, lemma_rec_offset_snoc, rec_enc, rec_offset, recs_enc, recs_match, recs_wf,
    seg_enc, seg_wf_for, stride_of, LookupSpec, RecView, SegmentIter,
};
use crate::wal::{
    get_token, line_step, lines_of, replay_lines, set_token, split_lines, tokenize_line, tokens_of,
    wal_line_of, wal_line_wf, LineStep,
};
use crate::wire::{append_bytes, append_u32_be, append_u64_be, bytes_eq, clone_bytes, u64_be};
use crate::{MAX_KEY_LEN, MAX_MEMTABLE, MAX_VALUE_LEN};

verus! {

/// The store's error: a fixed message naming what failed.
#[derive(Clone, Copy, Debug)]
pub struct KvError(pub &'static str);

impl From<EncryptError> for KvError {
    fn from(_value: EncryptError) -> (r: KvError) {
        KvError("Failed to encrypt")
    }
}

impl vstd::std_specs::convert::FromSpecImpl<EncryptError> for KvError {
    open spec fn obeys_from_spec() -> bool {
        true
    }

    open spec fn from_spec(_v: EncryptError) -> KvError {
        KvError("Failed to encrypt")
    }
}

impl From<DecryptError> for KvError {
    fn from(_value: DecryptError) -> (r: KvError) {
        KvError("Failed to decrypt")
    }
}

impl vstd::std_specs::convert::FromSpecImpl<DecryptError> for KvError {
    open spec fn obeys_from_spec() -> bool {
        true
    }

    open spec fn from_spec(_v: DecryptError) -> KvError {
        KvError("Failed to decrypt")
    }
}

impl KvError {
    /// The error's message.
    pub fn message(&self) -> (r: &'static str)
        ensures
            r == self.0,
    {
        self.0
    }
}

/// One parsed front-end command.
#[derive(Debug)]
pub enum Command {
    /// `SET <key> <value>`.
    CmdSet(Vec<u8>, Vec<u8>),
    /// `GET <key>`.
    CmdGet(Vec<u8>),
}

/// Parses one command line: `SET` takes exactly a key and a value, each at
/// most the front end's limit; `GET` takes exactly a key. Anything else —
/// wrong token count, an oversized argument, an unknown command word — is
/// an error.
pub fn parse_command(line: &Vec<u8>) -> (r: Result<Command, KvError>)
    ensures
        match r {
            Ok(c) => match c {
                Command::CmdSet(k, v) => {
                    &&& tokens_of(line@).len() == 3
                    &&& tokens_of(line@)[0] == set_token()
                    &&& k@ == tokens_of(line@)[1]
                    &&& v@ == tokens_of(line@)[2]
                    &&& k@.len() <= MAX_KEY_LEN
                    &&& v@.len() <= MAX_VALUE_LEN
                },
                Command::CmdGet(k) => {
                    &&& tokens_of(line@).len() == 2
                    &&& tokens_of(line@)[0] == get_token()
                    &&& k@ == tokens_of(line@)[1]
                },
            },
            Err(_) => {
                &&& !(tokens_of(line@).len() == 3 && tokens_of(line@)[0] == set_token()
                    && tokens_of(line@)[1].len() <= MAX_KEY_LEN && tokens_of(line@)[2].len()
                    <= MAX_VALUE_LEN)
                &&& !(tokens_of(line@).len() == 2 && tokens_of(line@)[0] == get_token())
            },
        },
{
    let mut toks = tokenize_line(line);
    let mut set_word: Vec<u8> = Vec::new();
    set_word.push(83);
    set_word.push(69);
    set_word.push(84);
    let mut get_word: Vec<u8> = Vec::new();
    get_word.push(71);
    get_word.push(69);
    get_word.push(84);
    proof {
        assert(set_word@ =~= set_token());
        assert(get_word@ =~= get_token());
    }
    if toks.len() == 3 && bytes_eq(&toks[0], &set_word) {
        proof {
            assert(toks@.map_values(|t: Vec<u8>| t@)[0] == toks@[0]@);
            assert(toks@.map_values(|t: Vec<u8>| t@)[1] == toks@[1]@);
            assert(toks@.map_values(|t: Vec<u8>| t@)[2] == toks@[2]@);
        }
        let v = toks.pop().unwrap();
        let k = toks.pop().unwrap();
        if k.len() > MAX_KEY_LEN || v.len() > MAX_VALUE_LEN {
            return Err(KvError("key or value too long"));
        }
        Ok(Command::CmdSet(k, v))
    } else if toks.len() == 2 && bytes_eq(&toks[0], &get_word) {
        proof {
            assert(toks@.map_values(|t: Vec<u8>| t@)[0] == toks@[0]@);
            assert(toks@.map_values(|t: Vec<u8>| t@)[1] == toks@[1]@);
        }
        let k = toks.pop().unwrap();
        Ok(Command::CmdGet(k))
    } else {
        proof {
            assert forall|j: int| 0 <= j < toks@.len() implies toks@.map_values(|t: Vec<u8>| t@)[j]
                == toks@[j]@ by {}
        }
        Err(KvError("Unknown cmd"))
    }
}

/// The store: the ordered memtable, the sealing envelope, the password the
/// envelope was derived from, and the next segment number.
#[derive(Debug)]
pub struct KvStore {
    pub memtable: Memtable,
    pub encrypter: DefaultEncrypter,
    pub password: Vec<u8>,
    pub seq_num: usize,
}

impl KvStore {
    /// The memtable is ordered and bounded; the envelope's key matches the
    /// store's password and salt.
    pub open spec fn wf(&self) -> bool {
        &&& self.memtable.wf()
        &&& self.encrypter.wf()
        &&& self.encrypter.password@ == self.password@
        &&& self.password@.len() < 0x100000000
    }

    /// Opens a store: fresh salt, derived key, empty memtable; `latest_segment`
    /// is the number of segment files already on disk.
    pub fn new(password: Vec<u8>, latest_segment: usize) -> (r: KvStore)
        requires
            password@.len() < 0x100000000,
        ensures
            r.wf(),
            r.password@ == password@,
            r.memtable.as_map() =~= Map::<Seq<u8>, Seq<u8>>::empty(),
            r.memtable@ =~= Seq::<(Seq<u8>, Seq<u8>)>::empty(),
            r.seq_num == latest_segment,
    {
        let encrypter = match DefaultEncrypter::new(clone_bytes(&password)) {
            Ok(e) => e,
            Err(_) => {
                proof {
                    assert(false);
                }
                vstd::pervasive::unreached()
            },
        };
        KvStore { memtable: Memtable::new(), encrypter, password, seq_num: latest_segment }
    }

    /// Encodes and seals one value under its key as AAD, returning the
    /// sealed bytes and the fresh nonce.
    fn build_entry(&self, key: &Vec<u8>, value: &Vec<u8>) -> (r: Result<(Vec<u8>, Vec<u8>), KvError>)
        requires
            self.wf(),
            key@.len() <= MAX_KEY_LEN,
            value@.len() <= MAX_VALUE_LEN,
        ensures
            match r {
                Ok(p) => {
                    &&& p.1@.len() == 12
                    &&& p.0@ == sealed_of(self.encrypter.key@, p.1@, key@, bincode_of(value@))
                    &&& opened_of(self.encrypter.key@, p.1@, key@, p.0@) == Some(
                        bincode_of(value@),
                    )
                    &&& bincode_decoded_of(bincode_of(value@)) == Some(value@)
                    &&& 17 <= p.0@.len() <= value@.len() + 25
                },
                Err(_) => false,
            },
    {
        let mut sealed_bytes = bincode_encode(value);
        let nonce = self.encrypter.encrypt(&mut sealed_bytes, Some(key))?;
        Ok((sealed_bytes, nonce))
    }

    /// Builds the WAL line for one SET: the key and the base64-framed sealed
    /// value, nonce and salt, ready to append to the log file.
    pub fn write_wal(&self, k: &Vec<u8>, v: &Vec<u8>) -> (r: Result<Vec<u8>, KvError>)
        requires
            self.wf(),
            k@.len() <= MAX_KEY_LEN,
            v@.len() <= MAX_VALUE_LEN,
        ensures
            match r {
                Ok(line) => wal_line_wf(
                    line@,
                    self.encrypter.key@,
                    self.encrypter.spec_salt(),
                    k@,
                    v@,
                ),
                Err(_) => false,
            },
    {
        let (sealed_bytes, nonce) = match self.build_entry(k, v) {
            Ok(p) => p,
            Err(e) => {
                return Err(e);
            },
        };
        let encoded = b64_encode(&sealed_bytes);
        let nonce_b64 = b64_encode(&nonce);
        let salt_b64 = b64_encode(self.encrypter.get_salt_bytes());
        let mut line: Vec<u8> = Vec::new();
        line.push(83);
        line.push(69);
        line.push(84);
        line.push(32);
        append_bytes(&mut line, k);
        line.push(32);
        append_bytes(&mut line, &encoded);
        line.push(32);
        append_bytes(&mut line, &nonce_b64);
        line.push(32);
        append_bytes(&mut line, &salt_b64);
        line.push(10);
        proof {
            assert(line@ =~= wal_line_of(k@, sealed_bytes@, nonce@, self.encrypter.spec_salt()));
            assert(wal_line_wf(line@, self.encrypter.key@, self.encrypter.spec_salt(), k@, v@)) by {
                assert(sealed_bytes@ == sealed_of(
                    self.encrypter.key@,
                    nonce@,
                    k@,
                    bincode_of(v@),
                ));
                assert(encoded@ == b64_of(sealed_bytes@) && encoded@.len() > 0);
                assert(nonce_b64@ == b64_of(nonce@) && nonce_b64@.len() > 0);
                assert(salt_b64@ == b64_of(self.encrypter.spec_salt()) && salt_b64@.len() > 0);
            }
        }
        Ok(line)
    }

    /// Places a record in the memtable; last write wins.
    pub fn insert_parsed(&mut self, key: Vec<u8>, value: Vec<u8>) -> (r: Result<(), KvError>)
        requires
            old(self).wf(),
            key@.len() <= MAX_KEY_LEN,
            value@.len() <= MAX_VALUE_LEN,
        ensures
            final(self).wf(),
            r is Ok,
            final(self).memtable.as_map() == old(self).memtable.as_map().insert(key@, value@),
            final(self).encrypter == old(self).encrypter,
            final(self).password == old(self).password,
            final(self).seq_num == old(self).seq_num,
    {
        self.memtable.insert(key, value);
        Ok(())
    }

    /// The flush threshold has been reached.
    pub fn should_flush(&self) -> (r: bool)
        ensures
            r == (self.memtable@.len() >= MAX_MEMTABLE),
    {
        self.memtable.len() >= MAX_MEMTABLE
    }

    /// Detaches the memtable for the flush worker, leaving an empty one.
    pub fn take_memtable(&mut self) -> (r: Memtable)
        ensures
            r@ == old(self).memtable@,
            final(self).memtable@ =~= Seq::<(Seq<u8>, Seq<u8>)>::empty(),
            old(self).wf() ==> final(self).wf(),
            final(self).memtable.wf(),
            final(self).encrypter == old(self).encrypter,
            final(self).password == old(self).password,
            final(self).seq_num == old(self).seq_num,
    {
        self.memtable.take()
    }

    /// A point lookup: the memtable answers if it holds the key; otherwise
    /// the segments are consulted newest first.
    pub fn get(&self, key: &Vec<u8>, segments: Vec<Vec<u8>>) -> (r: Result<Option<Vec<u8>>, KvError>)
        requires
            self.wf(),
        ensures
            match r {
                Ok(Some(v)) => (self.memtable.as_map().contains_key(key@) && v@
                    == self.memtable.as_map()[key@]) || (!self.memtable.as_map().contains_key(key@)
                    && iter_lookup(
                    segments@.map_values(|s: Vec<u8>| s@),
                    self.password@,
                    key@,
                    segments@.len() as int,
                ) == LookupSpec::Found(v@)),
                Ok(None) => !self.memtable.as_map().contains_key(key@) && iter_lookup(
                    segments@.map_values(|s: Vec<u8>| s@),
                    self.password@,
                    key@,
                    segments@.len() as int,
                ) is Miss,
                Err(_) => !self.memtable.as_map().contains_key(key@) && iter_lookup(
                    segments@.map_values(|s: Vec<u8>| s@),
                    self.password@,
                    key@,
                    segments@.len() as int,
                ) is Fail,
            },
    {
        match self.memtable.get(key) {
            Some(v) => Ok(Some(clone_bytes(v))),
            None => {
                let it = SegmentIter::new(segments, clone_bytes(&self.password));
                it.find_key_in_segments(key)
            },
        }
    }

    /// Replays a write-ahead log into the memtable. Lines that fail to open
    /// (wrong password, tampering) or exceed the front end's limits are
    /// skipped; a structurally bad line stops replay with an error, keeping
    /// the insertions made so far.
    pub fn sync_wal(&mut self, text: &Vec<u8>) -> (r: Result<(), KvError>)
        requires
            old(self).wf(),
        ensures
            final(self).wf(),
            final(self).encrypter == old(self).encrypter,
            final(self).password == old(self).password,
            final(self).seq_num == old(self).seq_num,
            final(self).memtable.as_map() == replay_lines(
                old(self).memtable.as_map(),
                old(self).password@,
                lines_of(text@),
                0,
            ).0,
            (r is Ok) == replay_lines(
                old(self).memtable.as_map(),
                old(self).password@,
                lines_of(text@),
                0,
            ).1,
    {
        let lines = split_lines(text);
        let ghost lview = lines_of(text@);
        let ghost m0 = self.memtable.as_map();
        let ghost pw = self.password@;
        let mut set_word: Vec<u8> = Vec::new();
        set_word.push(83);
        set_word.push(69);
        set_word.push(84);
        proof {
            assert(set_word@ =~= set_token());
        }
        let nl: usize = lines.len();
        let mut i: usize = 0;
        while i < nl
            invariant
                i <= nl,
                nl == lview.len(),
                lview == lines_of(text@),
                m0 == old(self).memtable.as_map(),
                lines@.map_values(|l: Vec<u8>| l@) == lview,
                self.wf(),
                set_word@ == set_token(),
                pw == self.password@,
                self.encrypter == old(self).encrypter,
                self.password == old(self).password,
                self.seq_num == old(self).seq_num,
                replay_lines(m0, pw, lview, 0) == replay_lines(
                    self.memtable.as_map(),
                    pw,
                    lview,
                    i as int,
                ),
            decreases nl - i,
        {
            proof {
                assert(lview[i as int] == lines@[i as int]@);
            }
            let toks = tokenize_line(&lines[i]);
            let ghost ts = tokens_of(lview[i as int]);
            proof {
                assert(toks@.map_values(|t: Vec<u8>| t@) == ts);
            }
            if toks.len() != 5 {
                proof {
                    assert(ts.len() != 5);
                    assert(line_step(pw, lview[i as int]) == LineStep::Fatal);
                }
                return Err(KvError("unknown cmd"));
            }
            proof {
                assert(toks@[0]@ == ts[0]);
                assert(toks@[1]@ == ts[1]);
                assert(toks@[2]@ == ts[2]);
                assert(toks@[3]@ == ts[3]);
                assert(toks@[4]@ == ts[4]);
            }
            if !bytes_eq(&toks[0], &set_word) {
                proof {
                    assert(ts[0] != set_token());
                    assert(line_step(pw, lview[i as int]) == LineStep::Fatal);
                }
                return Err(KvError("unknown cmd"));
            }
            let cipher = match b64_decode(&toks[2]) {
                Some(c) => c,
                None => {
                    proof {
                        assert(line_step(pw, lview[i as int]) == LineStep::Fatal);
                    }
                    return Err(KvError("Failed to decode"));
                },
            };
            let nonce = match b64_decode(&toks[3]) {
                Some(c) => c,
                None => {
                    proof {
                        assert(line_step(pw, lview[i as int]) == LineStep::Fatal);
                    }
                    return Err(KvError("Failed to decode"));
                },
            };
            let salt = match b64_decode(&toks[4]) {
                Some(c) => c,
                None => {
                    proof {
                        assert(line_step(pw, lview[i as int]) == LineStep::Fatal);
                    }
                    return Err(KvError("Failed to decode"));
                },
            };
            if nonce.len() != 12 || salt.len() != 16 {
                proof {
                    assert(line_step(pw, lview[i as int]) == LineStep::Fatal);
                }
                return Err(KvError("invalid nonce bytes"));
            }
            let log_decrypter = match DefaultDecrypter::new(clone_bytes(&self.password), salt) {
                Ok(d) => d,
                Err(_) => {
                    proof {
                        assert(false);
                    }
                    return Err(KvError("Failed to derive key"));
                },
            };
            match log_decrypter.decrypt(&cipher, &nonce, &toks[1]) {
                Ok(plain) => {
                    match bincode_decode(&plain) {
                        Some(v) => {
                            if toks[1].len() <= MAX_KEY_LEN && v.len() <= MAX_VALUE_LEN {
                                let kk = clone_bytes(&toks[1]);
                                let ghost mcur = self.memtable.as_map();
                                self.memtable.insert(kk, v);
                                proof {
                                    assert(line_step(pw, lview[i as int]) == LineStep::Put(
                                        ts[1],
                                        v@,
                                    ));
                                    assert(replay_lines(mcur, pw, lview, i as int) == replay_lines(
                                        self.memtable.as_map(),
                                        pw,
                                        lview,
                                        i as int + 1,
                                    ));
                                }
                            } else {
                                proof {
                                    assert(line_step(pw, lview[i as int]) == LineStep::Skip);
                                }
                            }
                        },
                        None => {
                            proof {
                                assert(line_step(pw, lview[i as int]) == LineStep::Fatal);
                            }
                            return Err(KvError("Failed to decode"));
                        },
                    }
                },
                Err(_) => {
                    proof {
                        assert(line_step(pw, lview[i as int]) == LineStep::Skip);
                    }
                },
            }
            i = i + 1;
        }
        Ok(())
    }

    /// Serializes a detached memtable into one complete segment file:
    /// sealed records in key order, the sparse index, and the footer with
    /// this store's salt.
    pub fn build_segment(&self, table: &Memtable) -> (r: Vec<u8>)
        requires
            self.wf(),
            table.wf(),
        ensures
            seg_wf_for(r@, self.password@, table@),
            footer_ok(r@),
            footer_salt(r@) == self.encrypter.spec_salt(),
    {
        let n: usize = table.len();
        let s0: usize = n / crate::INDEX_DENSITY;
        let stride: usize = if s0 == 0 {
            1
        } else {
            s0
        };
        proof {
            assert(stride == stride_of(n as int));
        }
        let mut buf: Vec<u8> = Vec::new();
        let mut idxbuf: Vec<u8> = Vec::new();
        let ghost dk = self.encrypter.key@;
        let ghost mut grecs: Seq<RecView> = Seq::empty();
        proof {
            assert(buf@ =~= recs_enc(grecs, 0));
            assert(idxbuf@ =~= idx_enc_upto(grecs, n as int, 0));
        }
        let mut i: usize = 0;
        while i < n
            invariant
                self.wf(),
                table.wf(),
                i <= n,
                n == table@.len(),
                dk == self.encrypter.key@,
                stride == stride_of(n as int),
                grecs.len() == i,
                forall|m: int| 0 <= m < i ==> (#[trigger] grecs[m]).key == table@[m].0,
                forall|m: int| 0 <= m < i ==> (#[trigger] grecs[m]).nonce.len() == 12,
                forall|m: int| 0 <= m < i ==> (#[trigger] grecs[m]).key.len() <= MAX_KEY_LEN,
                forall|m: int| 0 <= m < i ==> (#[trigger] grecs[m]).cipher.len() < 0x100000000,
                forall|m: int|
                    0 <= m < i ==> opened_of(
                        dk,
                        (#[trigger] grecs[m]).nonce,
                        grecs[m].key,
                        grecs[m].cipher,
                    ) == Some(bincode_of(table@[m].1)),
                forall|m: int|
                    0 <= m < i ==> bincode_decoded_of(bincode_of((#[trigger] table@[m]).1)) == Some(
                        table@[m].1,
                    ),
                buf@ == recs_enc(grecs, 0),
                idxbuf@ == idx_enc_upto(grecs, n as int, i as int),
            decreases n - i,
        {
            proof {
                assert(table@[i as int] == table.entries@[i as int]@);
            }
            let offset: u64 = buf.len() as u64;
            let (sealed, nonce) = match self.build_entry(
                &table.entries[i].key,
                &table.entries[i].value,
            ) {
                Ok(p) => p,
                Err(_) => {
                    proof {
                        assert(false);
                    }
                    return Vec::new();
                },
            };
            let key_len: u32 = table.entries[i].key.len() as u32;
            let cipher_len: u32 = sealed.len() as u32;
            let ghost rec = RecView { key: table@[i as int].0, nonce: nonce@, cipher: sealed@ };
            let ghost old_buf = buf@;
            let ghost old_idx = idxbuf@;
            append_u32_be(&mut buf, key_len);
            append_bytes(&mut buf, &table.entries[i].key);
            append_bytes(&mut buf, &nonce);
            append_u32_be(&mut buf, cipher_len);
            append_bytes(&mut buf, &sealed);
            proof {
                lemma_recs_enc_snoc(grecs, rec, 0);
                assert(buf@ =~= old_buf + rec_enc(rec));
                lemma_recs_enc_len(grecs, 0);
                lemma_rec_offset_snoc(grecs, rec, i as int);
                assert(offset as int == rec_offset(grecs.push(rec), i as int)) by {
                    assert(old_buf.len() == rec_offset(grecs, grecs.len() as int) - rec_offset(
                        grecs,
                        0,
                    ));
                }
            }
            if i % stride == 0 {
                append_u32_be(&mut idxbuf, key_len);
                append_bytes(&mut idxbuf, &table.entries[i].key);
                append_u64_be(&mut idxbuf, offset);
                proof {
                    lemma_idx_enc_upto_snoc(grecs, rec, n as int, i as int);
                    assert(is_indexed(i as int, n as int));
                    assert((rec_offset(grecs.push(rec), i as int) as u64) == offset);
                    assert(idxbuf@ =~= idx_enc_upto(grecs.push(rec), n as int, i as int)
                        + idx_entry_enc(rec.key, offset));
                    assert(idxbuf@ =~= idx_enc_upto(grecs.push(rec), n as int, i as int + 1));
                }
            } else {
                proof {
                    lemma_idx_enc_upto_snoc(grecs, rec, n as int, i as int);
                    assert(!is_indexed(i as int, n as int));
                    assert(idxbuf@ + Seq::<u8>::empty() =~= idxbuf@);
                    assert(idxbuf@ =~= idx_enc_upto(grecs.push(rec), n as int, i as int + 1));
                }
            }
            proof {
                grecs = grecs.push(rec);
            }
            i = i + 1;
        }
        let data_len: u64 = buf.len() as u64;
        let idx_len: u64 = idxbuf.len() as u64;
        let ghost drecs = grecs;
        proof {
            lemma_idx_enc_upto_complete(drecs, 0);
            assert(idx_enc_upto(drecs, n as int, 0) + idx_enc(drecs, 0) =~= idx_enc(drecs, 0));
            assert(idxbuf@ == idx_enc(drecs, 0));
        }
        append_bytes(&mut buf, &idxbuf);
        append_u64_be(&mut buf, data_len);
        append_u64_be(&mut buf, idx_len);
        append_bytes(&mut buf, self.encrypter.get_salt_bytes());
        let total: usize = buf.len();
        proof {
            let salt = self.encrypter.spec_salt();
            assert(buf@ =~= recs_enc(drecs, 0) + idx_enc(drecs, 0) + (u64_be(data_len) + u64_be(
                idx_len,
            ) + salt));
            assert(recs_wf(drecs)) by {
                assert forall|p: int, q: int| 0 <= p < q < drecs.len() implies
                    crate::wire::lex_lt((#[trigger] drecs[p]).key, (#[trigger] drecs[q]).key) by {
                    assert(drecs[p].key == table@[p].0 && drecs[q].key == table@[q].0);
                }
                assert(total == buf@.len());
                assert(recs_enc(drecs, 0).len() + idx_enc(drecs, 0).len() + 32 == total);
            }
            assert(buf@ == seg_enc(drecs, salt));
            assert(recs_match(drecs, table@, dk));
            assert(dk == derived_key_of(self.password@, salt));
            assert(seg_wf_for(buf@, self.password@, table@));
            lemma_footer_of_enc(drecs, salt);
        }
        buf
    }
}

/// The prefix that marks a file as a segment: `segment_`.
pub open spec fn segment_prefix() -> Seq<u8> {
    seq![115u8, 101u8, 103u8, 109u8, 101u8, 110u8, 116u8, 95u8]
}

/// True when a directory entry's name begins with the segment prefix, as
/// the startup scan that counts existing segments requires.
pub fn is_segment_file_name(name: &Vec<u8>) -> (r: bool)
    ensures
        r == (name@.len() >= 8 && name@.subrange(0, 8) == segment_prefix()),
{
    if name.len() < 8 {
        return false;
    }
    let r = name[0] == 115 && name[1] == 101 && name[2] == 103 && name[3] == 109 && name[4] == 101
        && name[5] == 110 && name[6] == 116 && name[7] == 95;
    proof {
        if r {
            assert(name@.subrange(0, 8) =~= segment_prefix());
        } else {
            assert(name@.subrange(0, 8) != segment_prefix()) by {
                if name@.subrange(0, 8) == segment_prefix() {
                    assert(name@[0] == 115 && name@[1] == 101 && name@[2] == 103 && name@[3] == 109
                        && name@[4] == 101 && name@[5] == 110 && name@[6] == 116 && name@[7] == 95)
                        by {
                        assert(forall|j: int|
                            0 <= j < 8 ==> name@.subrange(0, 8)[j] == name@[j]);
                    }
                }
            }
        }
    }
    r
}

/// Law: a flush snapshot is never empty — the threshold that triggers a
/// flush is positive.
pub proof fn lemma_flush_snapshot_nonempty(t: Seq<(Seq<u8>, Seq<u8>)>)
    requires
        t.len() >= MAX_MEMTABLE,
    ensures
        t.len() > 0,
{
}

/// What a point lookup observes: the memtable's binding while one exists,
/// otherwise the newest flushed table's.
pub open spec fn system_lookup(
    mem: Map<Seq<u8>, Seq<u8>>,
    tables: Seq<Seq<(Seq<u8>, Seq<u8>)>>,
    k: Seq<u8>,
) -> Option<Seq<u8>> {
    if mem.contains_key(k) {
        Some(mem[k])
    } else {
        newest_lookup(tables, k)
    }
}

/// Law: GET consistency. A run of SETs of `k` leaves the system observing
/// the last value set, and over segments flushed under this password the
/// segment path returns exactly what the newest flushed table holding the
/// key says.
pub proof fn lemma_get_consistency(
    mem: Map<Seq<u8>, Seq<u8>>,
    k: Seq<u8>,
    vs: Seq<Seq<u8>>,
    tables: Seq<Seq<(Seq<u8>, Seq<u8>)>>,
    segs: Seq<Seq<u8>>,
    pw: Seq<u8>,
)
    requires
        vs.len() > 0,
        tables.len() == segs.len(),
        forall|j: int| 0 <= j < segs.len() ==> seg_wf_for(#[trigger] segs[j], pw, tables[j]),
    ensures
        system_lookup(set_all(mem, k, vs), tables, k) == Some(vs.last()),
        iter_lookup(segs, pw, k, segs.len() as int) == (match newest_lookup(tables, k) {
            Some(v) => LookupSpec::Found(v),
            None => LookupSpec::Miss,
        }),
{
    lemma_last_set_wins(mem, k, vs);
    lemma_newest_first_wins(segs, pw, tables, k);
}

/// A run of SETs of the same key applied to a table.
pub open spec fn set_all(m: Map<Seq<u8>, Seq<u8>>, k: Seq<u8>, vs: Seq<Seq<u8>>) -> Map<
    Seq<u8>,
    Seq<u8>,
>
    decreases vs.len(),
{
    if vs.len() == 0 {
        m
    } else {
        set_all(m, k, vs.drop_last()).insert(k, vs.last())
    }
}

/// Law: the last write wins. After any sequence of SETs of a key, the table
/// holds the final value for it, whatever it held before.
pub proof fn lemma_last_set_wins(m: Map<Seq<u8>, Seq<u8>>, k: Seq<u8>, vs: Seq<Seq<u8>>)
    requires
        vs.len() > 0,
    ensures
        set_all(m, k, vs).contains_key(k),
        set_all(m, k, vs)[k] == vs.last(),
{
}

} // verus!
