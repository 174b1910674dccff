//! The write-ahead log's text-line format: whitespace tokenization, the
//! encoding of one sealed SET record as a line, and the replay of a log
//! into a table. Replay is specified as a fold over the log's lines, which
//! makes its idempotence a theorem.

use vstd::prelude::*;

use crate::codec::{all_b64_bytes, b64_decoded_of, b64_of, bincode_decoded_of, bincode_of, is_b64_byte};
use crate::encryption::{derived_key_of, opened_of, sealed_of};
use crate::{MAX_KEY_LEN, MAX_VALUE_LEN};

verus! {

/// ASCII whitespace, as the line tokenizer understands it.
pub open spec fn is_ws(b: u8) -> bool {
    b == 32 || b == 9 || b == 10 || b == 13
}

/// Tokenization of a byte string from position `from`, with `cur` the token
/// accumulated so far.
pub open spec fn tokenize(s: Seq<u8>, from: int, cur: Seq<u8>) -> Seq<Seq<u8>>
    decreases s.len() - from,
{
    if from < 0 || from >= s.len() {
        if cur.len() == 0 {
            Seq::empty()
        } else {
            seq![cur]
        }
    } else if is_ws(s[from]) {
        if cur.len() == 0 {
            tokenize(s, from + 1, Seq::empty())
        } else {
            seq![cur] + tokenize(s, from + 1, Seq::empty())
        }
    } else {
        tokenize(s, from + 1, cur.push(s[from]))
    }
}

/// The whitespace-separated tokens of a byte string.
pub open spec fn tokens_of(s: Seq<u8>) -> Seq<Seq<u8>> {
    tokenize(s, 0, Seq::empty())
}

/// A line's trailing carriage return, if any, stripped.
pub open spec fn strip_cr(l: Seq<u8>) -> Seq<u8> {
    if l.len() > 0 && l.last() == 13 {
        l.drop_last()
    } else {
        l
    }
}

/// Splitting a text into lines at line feeds, from position `from`, with
/// `cur` the line accumulated so far; a trailing line feed ends the text.
pub open spec fn line_split(s: Seq<u8>, from: int, cur: Seq<u8>) -> Seq<Seq<u8>>
    decreases s.len() - from,
{
    if from < 0 || from >= s.len() {
        if cur.len() == 0 {
            Seq::empty()
        } else {
            seq![strip_cr(cur)]
        }
    } else if s[from] == 10 {
        seq![strip_cr(cur)] + line_split(s, from + 1, Seq::empty())
    } else {
        line_split(s, from + 1, cur.push(s[from]))
    }
}

/// The lines of a text.
pub open spec fn lines_of(text: Seq<u8>) -> Seq<Seq<u8>> {
    line_split(text, 0, Seq::empty())
}

/// The bytes of the `SET` command word.
pub open spec fn set_token() -> Seq<u8> {
    seq![83u8, 69u8, 84u8]
}

/// The bytes of the `GET` command word.
pub open spec fn get_token() -> Seq<u8> {
    seq![71u8, 69u8, 84u8]
}

/// One WAL line: `SET <key> <b64 cipher> <b64 nonce> <b64 salt>\n`.
pub open spec fn wal_line_of(key: Seq<u8>, cipher: Seq<u8>, nonce: Seq<u8>, salt: Seq<u8>) -> Seq<
    u8,
> {
    set_token() + seq![32u8] + key + seq![32u8] + b64_of(cipher) + seq![32u8] + b64_of(nonce)
        + seq![32u8] + b64_of(salt) + seq![10u8]
}

/// The line is a well-formed WAL record of `(k, v)` sealed under `dk` and
/// carrying `salt`: some 12-byte nonce seals the bincode encoding of `v`
/// with `k` as AAD; opening the sealed bytes gives the encoding back, and
/// the base64 framing decodes to what it frames.
pub open spec fn wal_line_wf(line: Seq<u8>, dk: Seq<u8>, salt: Seq<u8>, k: Seq<u8>, v: Seq<u8>) -> bool {
    exists|nonce: Seq<u8>|
        {
            &&& nonce.len() == 12
            &&& line == wal_line_of(k, #[trigger] sealed_of(dk, nonce, k, bincode_of(v)), nonce, salt)
            &&& opened_of(dk, nonce, k, sealed_of(dk, nonce, k, bincode_of(v))) == Some(
                bincode_of(v),
            )
            &&& b64_decoded_of(b64_of(sealed_of(dk, nonce, k, bincode_of(v)))) == Some(
                sealed_of(dk, nonce, k, bincode_of(v)),
            )
            &&& b64_decoded_of(b64_of(nonce)) == Some(nonce)
            &&& b64_decoded_of(b64_of(salt)) == Some(salt)
            &&& bincode_decoded_of(bincode_of(v)) == Some(v)
            &&& all_b64_bytes(b64_of(sealed_of(dk, nonce, k, bincode_of(v))))
            &&& all_b64_bytes(b64_of(nonce))
            &&& all_b64_bytes(b64_of(salt))
            &&& b64_of(sealed_of(dk, nonce, k, bincode_of(v))).len() > 0
            &&& b64_of(nonce).len() > 0
            &&& b64_of(salt).len() > 0
        }
}

/// No byte of the string is whitespace.
pub open spec fn ws_free(s: Seq<u8>) -> bool {
    forall|j: int| 0 <= j < s.len() ==> !is_ws(#[trigger] s[j])
}

/// What replaying one line does to the table.
pub enum LineStep {
    /// A structural error: wrong shape, unknown command, undecodable
    /// framing. Replay stops with an error.
    Fatal,
    /// The line did not open under this password, or its lengths exceed the
    /// front end's limits: the line is skipped.
    Skip,
    /// The line contributes this binding.
    Put(Seq<u8>, Seq<u8>),
}

/// The effect of one WAL line under a password.
pub open spec fn line_step(pw: Seq<u8>, line: Seq<u8>) -> LineStep {
    let ts = tokens_of(line);
    if ts.len() != 5 || ts[0] != set_token() {
        LineStep::Fatal
    } else {
        match (b64_decoded_of(ts[2]), b64_decoded_of(ts[3]), b64_decoded_of(ts[4])) {
            (Some(cipher), Some(nonce), Some(salt)) => {
                if nonce.len() != 12 || salt.len() != 16 {
                    LineStep::Fatal
                } else {
                    match opened_of(derived_key_of(pw, salt), nonce, ts[1], cipher) {
                        None => LineStep::Skip,
                        Some(pt) => match bincode_decoded_of(pt) {
                            None => LineStep::Fatal,
                            Some(v) => if ts[1].len() <= MAX_KEY_LEN && v.len() <= MAX_VALUE_LEN {
                                LineStep::Put(ts[1], v)
                            } else {
                                LineStep::Skip
                            },
                        },
                    }
                }
            },
            _ => LineStep::Fatal,
        }
    }
}

/// Replaying lines `i..` of a log into a table: the resulting table and
/// whether replay ran to completion (`false`: it stopped at a structural
/// error, leaving the insertions made so far).
pub open spec fn replay_lines(
    m: Map<Seq<u8>, Seq<u8>>,
    pw: Seq<u8>,
    lines: Seq<Seq<u8>>,
    i: int,
) -> (Map<Seq<u8>, Seq<u8>>, bool)
    decreases lines.len() - i,
{
    if i < 0 || i >= lines.len() {
        (m, true)
    } else {
        match line_step(pw, lines[i]) {
            LineStep::Fatal => (m, false),
            LineStep::Skip => replay_lines(m, pw, lines, i + 1),
            LineStep::Put(k, v) => replay_lines(m.insert(k, v), pw, lines, i + 1),
        }
    }
}

/// The bindings a replay of lines `i..` contributes, newest occurrence of
/// each key winning.
pub open spec fn replay_effect(pw: Seq<u8>, lines: Seq<Seq<u8>>, i: int) -> Map<Seq<u8>, Seq<u8>>
    decreases lines.len() - i,
{
    if i < 0 || i >= lines.len() {
        Map::empty()
    } else {
        match line_step(pw, lines[i]) {
            LineStep::Fatal => Map::empty(),
            LineStep::Skip => replay_effect(pw, lines, i + 1),
            LineStep::Put(k, v) => {
                let rest = replay_effect(pw, lines, i + 1);
                if rest.contains_key(k) {
                    rest
                } else {
                    rest.insert(k, v)
                }
            },
        }
    }
}

/// Whether replay completes does not depend on the starting table.
pub proof fn lemma_replay_ok_independent(
    m1: Map<Seq<u8>, Seq<u8>>,
    m2: Map<Seq<u8>, Seq<u8>>,
    pw: Seq<u8>,
    lines: Seq<Seq<u8>>,
    i: int,
)
    ensures
        replay_lines(m1, pw, lines, i).1 == replay_lines(m2, pw, lines, i).1,
    decreases lines.len() - i,
{
    if 0 <= i < lines.len() {
        match line_step(pw, lines[i]) {
            LineStep::Fatal => {},
            LineStep::Skip => {
                lemma_replay_ok_independent(m1, m2, pw, lines, i + 1);
            },
            LineStep::Put(k, v) => {
                lemma_replay_ok_independent(m1.insert(k, v), m2.insert(k, v), pw, lines, i + 1);
            },
        }
    }
}

/// A completed replay is the starting table overridden by the log's
/// bindings.
pub proof fn lemma_replay_as_union(m: Map<Seq<u8>, Seq<u8>>, pw: Seq<u8>, lines: Seq<Seq<u8>>, i: int)
    requires
        replay_lines(m, pw, lines, i).1,
    ensures
        replay_lines(m, pw, lines, i).0 == m.union_prefer_right(replay_effect(pw, lines, i)),
    decreases lines.len() - i,
{
    if i < 0 || i >= lines.len() {
        assert(m.union_prefer_right(Map::<Seq<u8>, Seq<u8>>::empty()) =~= m);
    } else {
        match line_step(pw, lines[i]) {
            LineStep::Fatal => {},
            LineStep::Skip => {
                lemma_replay_as_union(m, pw, lines, i + 1);
            },
            LineStep::Put(k, v) => {
                lemma_replay_as_union(m.insert(k, v), pw, lines, i + 1);
                let rest = replay_effect(pw, lines, i + 1);
                if rest.contains_key(k) {
                    assert(m.insert(k, v).union_prefer_right(rest) =~= m.union_prefer_right(
                        replay_effect(pw, lines, i),
                    ));
                } else {
                    assert(m.insert(k, v).union_prefer_right(rest) =~= m.union_prefer_right(
                        rest.insert(k, v),
                    ));
                }
            },
        }
    }
}

/// Law: WAL replay is idempotent. Replaying a log twice leaves the same
/// table as replaying it once.
pub proof fn lemma_replay_idempotent(m: Map<Seq<u8>, Seq<u8>>, pw: Seq<u8>, text: Seq<u8>)
    requires
        replay_lines(m, pw, lines_of(text), 0).1,
    ensures
        replay_lines(replay_lines(m, pw, lines_of(text), 0).0, pw, lines_of(text), 0).0
            == replay_lines(m, pw, lines_of(text), 0).0,
{
    let lines = lines_of(text);
    let once = replay_lines(m, pw, lines, 0).0;
    lemma_replay_ok_independent(once, m, pw, lines, 0);
    lemma_replay_as_union(m, pw, lines, 0);
    lemma_replay_as_union(once, pw, lines, 0);
    let eff = replay_effect(pw, lines, 0);
    assert(m.union_prefer_right(eff).union_prefer_right(eff) =~= m.union_prefer_right(eff));
}


// ---------------------------------------------------------------------------
// Recovery: lines the writer emits replay as the writes they record
// ---------------------------------------------------------------------------

/// Tokenization ignores a consumed prefix: positions past `a` see only `b`.
proof fn lemma_tok_shift(a: Seq<u8>, b: Seq<u8>, t: int, cur: Seq<u8>)
    requires
        t >= 0,
    ensures
        tokenize(a + b, a.len() + t, cur) == tokenize(b, t, cur),
    decreases b.len() - t,
{
    if t < b.len() {
        assert((a + b)[a.len() + t] == b[t]);
        if is_ws(b[t]) {
            if cur.len() == 0 {
                lemma_tok_shift(a, b, t + 1, Seq::empty());
            } else {
                lemma_tok_shift(a, b, t + 1, Seq::empty());
            }
        } else {
            lemma_tok_shift(a, b, t + 1, cur.push(b[t]));
        }
    } else {
        assert(a.len() + t >= (a + b).len());
    }
}

/// Scanning a whitespace-free word followed by a whitespace byte emits the
/// word as one token and goes on after the separator.
proof fn lemma_tok_word(line: Seq<u8>, w: Seq<u8>, sep: u8, rest: Seq<u8>, i: int, cur: Seq<u8>)
    requires
        line == w + seq![sep] + rest,
        is_ws(sep),
        w.len() > 0,
        ws_free(w),
        0 <= i <= w.len(),
        cur == w.take(i),
    ensures
        tokenize(line, i, cur) == seq![w] + tokenize(rest, 0, Seq::empty()),
    decreases w.len() - i,
{
    if i < w.len() {
        assert(line[i] == w[i]);
        assert(!is_ws(w[i]));
        assert(cur.push(w[i]) =~= w.take(i + 1));
        lemma_tok_word(line, w, sep, rest, i + 1, cur.push(line[i]));
    } else {
        assert(line[i] == sep);
        assert(cur =~= w);
        assert(cur.len() > 0);
        assert(tokenize(line, i, cur) == seq![cur] + tokenize(line, i + 1, Seq::empty()));
        assert(line =~= (w + seq![sep]) + rest);
        lemma_tok_shift(w + seq![sep], rest, 0, Seq::empty());
        assert((w + seq![sep]).len() + 0 == i + 1);
    }
}

/// Scanning a whitespace-free word at the end of the string emits it as
/// the final token.
proof fn lemma_tok_last(w: Seq<u8>, i: int, cur: Seq<u8>)
    requires
        w.len() > 0,
        ws_free(w),
        0 <= i <= w.len(),
        cur == w.take(i),
    ensures
        tokenize(w, i, cur) == seq![w],
    decreases w.len() - i,
{
    if i < w.len() {
        assert(!is_ws(w[i]));
        assert(cur.push(w[i]) =~= w.take(i + 1));
        lemma_tok_last(w, i + 1, cur.push(w[i]));
    } else {
        assert(cur =~= w);
    }
}

/// The tokens of one WAL line body (the line without its newline): the
/// command word, the key, and the three base64 fields.
proof fn lemma_wal_body_tokens(k: Seq<u8>, c: Seq<u8>, n: Seq<u8>, sl: Seq<u8>)
    requires
        k.len() > 0,
        ws_free(k),
        c.len() > 0,
        all_b64_bytes(c),
        n.len() > 0,
        all_b64_bytes(n),
        sl.len() > 0,
        all_b64_bytes(sl),
    ensures
        tokens_of(set_token() + seq![32u8] + k + seq![32u8] + c + seq![32u8] + n + seq![32u8] + sl)
            == seq![set_token(), k, c, n, sl],
{
    let body = set_token() + seq![32u8] + k + seq![32u8] + c + seq![32u8] + n + seq![32u8] + sl;
    assert(ws_free(set_token())) by {
        assert(set_token()[0] == 83 && set_token()[1] == 69 && set_token()[2] == 84);
    }
    assert(ws_free(c)) by {
        assert(forall|j: int| 0 <= j < c.len() ==> is_b64_byte(#[trigger] c[j]));
    }
    assert(ws_free(n)) by {
        assert(forall|j: int| 0 <= j < n.len() ==> is_b64_byte(#[trigger] n[j]));
    }
    assert(ws_free(sl)) by {
        assert(forall|j: int| 0 <= j < sl.len() ==> is_b64_byte(#[trigger] sl[j]));
    }
    let rest1 = k + seq![32u8] + c + seq![32u8] + n + seq![32u8] + sl;
    let rest2 = c + seq![32u8] + n + seq![32u8] + sl;
    let rest3 = n + seq![32u8] + sl;
    assert(body =~= set_token() + seq![32u8] + rest1);
    assert(rest1 =~= k + seq![32u8] + rest2);
    assert(rest2 =~= c + seq![32u8] + rest3);
    assert(set_token().take(0) =~= Seq::<u8>::empty());
    assert(k.take(0) =~= Seq::<u8>::empty());
    assert(c.take(0) =~= Seq::<u8>::empty());
    assert(n.take(0) =~= Seq::<u8>::empty());
    assert(sl.take(0) =~= Seq::<u8>::empty());
    lemma_tok_word(body, set_token(), 32u8, rest1, 0, Seq::empty());
    lemma_tok_word(rest1, k, 32u8, rest2, 0, Seq::empty());
    lemma_tok_word(rest2, c, 32u8, rest3, 0, Seq::empty());
    lemma_tok_word(rest3, n, 32u8, sl, 0, Seq::empty());
    lemma_tok_last(sl, 0, Seq::empty());
    assert(seq![set_token()] + (seq![k] + (seq![c] + (seq![n] + seq![sl]))) =~= seq![
        set_token(),
        k,
        c,
        n,
        sl,
    ]);
}

/// Law: a line the WAL writer emits replays as the write it recorded: its
/// body tokenizes to the five fields, they decode, the sealed value opens,
/// and the line contributes exactly its binding.
pub proof fn lemma_wal_line_replays(pw: Seq<u8>, salt: Seq<u8>, k: Seq<u8>, v: Seq<u8>, line: Seq<u8>)
    requires
        wal_line_wf(line, derived_key_of(pw, salt), salt, k, v),
        salt.len() == 16,
        0 < k.len() <= MAX_KEY_LEN,
        v.len() <= MAX_VALUE_LEN,
        ws_free(k),
    ensures
        line.len() > 0,
        line.last() == 10,
        forall|j: int| 0 <= j < line.len() - 1 ==> #[trigger] line[j] != 10 && line[j] != 13,
        line_step(pw, line.drop_last()) == LineStep::Put(k, v),
{
    let dk = derived_key_of(pw, salt);
    let nonce = choose|nonce: Seq<u8>|
        {
            &&& nonce.len() == 12
            &&& line == wal_line_of(k, #[trigger] sealed_of(dk, nonce, k, bincode_of(v)), nonce, salt)
            &&& opened_of(dk, nonce, k, sealed_of(dk, nonce, k, bincode_of(v))) == Some(
                bincode_of(v),
            )
            &&& b64_decoded_of(b64_of(sealed_of(dk, nonce, k, bincode_of(v)))) == Some(
                sealed_of(dk, nonce, k, bincode_of(v)),
            )
            &&& b64_decoded_of(b64_of(nonce)) == Some(nonce)
            &&& b64_decoded_of(b64_of(salt)) == Some(salt)
            &&& bincode_decoded_of(bincode_of(v)) == Some(v)
            &&& all_b64_bytes(b64_of(sealed_of(dk, nonce, k, bincode_of(v))))
            &&& all_b64_bytes(b64_of(nonce))
            &&& all_b64_bytes(b64_of(salt))
            &&& b64_of(sealed_of(dk, nonce, k, bincode_of(v))).len() > 0
            &&& b64_of(nonce).len() > 0
            &&& b64_of(salt).len() > 0
        };
    let cipher = sealed_of(dk, nonce, k, bincode_of(v));
    let c = b64_of(cipher);
    let n = b64_of(nonce);
    let sl = b64_of(salt);
    let body = set_token() + seq![32u8] + k + seq![32u8] + c + seq![32u8] + n + seq![32u8] + sl;
    assert(line =~= body + seq![10u8]);
    assert(line.last() == 10);
    assert(line.drop_last() =~= body);
    assert forall|j: int| 0 <= j < line.len() - 1 implies #[trigger] line[j] != 10 && line[j]
        != 13 by {
        assert(line[j] == body[j]);
        if j < 4 {
            assert(set_token()[0] == 83 && set_token()[1] == 69 && set_token()[2] == 84);
        }
    }
    lemma_wal_body_tokens(k, c, n, sl);
    let ts = tokens_of(body);
    assert(ts.len() == 5);
    assert(ts[0] == set_token() && ts[1] == k && ts[2] == c && ts[3] == n && ts[4] == sl);
    assert(line_step(pw, body) == LineStep::Put(k, v));
}

/// The text is a log of the given writes, oldest first: each is one
/// well-formed writer line under this password and some salt.
pub open spec fn wal_text_wf(text: Seq<u8>, pw: Seq<u8>, writes: Seq<(Seq<u8>, Seq<u8>)>) -> bool
    decreases writes.len(),
{
    if writes.len() == 0 {
        text.len() == 0
    } else {
        exists|line: Seq<u8>, salt: Seq<u8>|
            {
                &&& #[trigger] wal_line_wf(
                    line,
                    derived_key_of(pw, salt),
                    salt,
                    writes[0].0,
                    writes[0].1,
                )
                &&& salt.len() == 16
                &&& 0 < writes[0].0.len() <= MAX_KEY_LEN
                &&& writes[0].1.len() <= MAX_VALUE_LEN
                &&& ws_free(writes[0].0)
                &&& text.len() >= line.len()
                &&& text.take(line.len() as int) == line
                &&& wal_text_wf(text.skip(line.len() as int), pw, writes.skip(1))
            }
    }
}

/// A sequence of writes applied to a table, oldest first.
pub open spec fn apply_writes(m: Map<Seq<u8>, Seq<u8>>, writes: Seq<(Seq<u8>, Seq<u8>)>) -> Map<
    Seq<u8>,
    Seq<u8>,
>
    decreases writes.len(),
{
    if writes.len() == 0 {
        m
    } else {
        apply_writes(m.insert(writes[0].0, writes[0].1), writes.skip(1))
    }
}

/// Splitting a text whose head is a complete newline-terminated line with
/// no interior newline or trailing carriage return yields that line's body
/// and then the rest's lines.
proof fn lemma_line_split_shift(a: Seq<u8>, b: Seq<u8>, t: int, cur: Seq<u8>)
    requires
        t >= 0,
    ensures
        line_split(a + b, a.len() + t, cur) == line_split(b, t, cur),
    decreases b.len() - t,
{
    if t < b.len() {
        assert((a + b)[a.len() + t] == b[t]);
        if b[t] == 10 {
            lemma_line_split_shift(a, b, t + 1, Seq::empty());
        } else {
            lemma_line_split_shift(a, b, t + 1, cur.push(b[t]));
        }
    } else {
        assert(a.len() + t >= (a + b).len());
    }
}

proof fn lemma_lines_head(body: Seq<u8>, rest: Seq<u8>, i: int, cur: Seq<u8>)
    requires
        forall|j: int| 0 <= j < body.len() ==> #[trigger] body[j] != 10,
        body.len() == 0 || body.last() != 13,
        0 <= i <= body.len(),
        cur == body.take(i),
    ensures
        line_split(body + seq![10u8] + rest, i, cur) == seq![body] + line_split(
            rest,
            0,
            Seq::empty(),
        ),
    decreases body.len() - i,
{
    let text = body + seq![10u8] + rest;
    if i < body.len() {
        assert(text[i] == body[i]);
        assert(body[i] != 10);
        assert(cur.push(body[i]) =~= body.take(i + 1));
        lemma_lines_head(body, rest, i + 1, cur.push(body[i]));
    } else {
        assert(text[i] == 10);
        assert(cur =~= body);
        assert(strip_cr(cur) == body);
        assert(text =~= (body + seq![10u8]) + rest);
        lemma_line_split_shift(body + seq![10u8], rest, 0, Seq::empty());
    }
}

/// Replay over a cons of lines steps past the head.
proof fn lemma_replay_cons(
    m: Map<Seq<u8>, Seq<u8>>,
    pw: Seq<u8>,
    l0: Seq<u8>,
    rest: Seq<Seq<u8>>,
    i: int,
)
    requires
        i >= 0,
    ensures
        replay_lines(m, pw, seq![l0] + rest, i + 1) == replay_lines(m, pw, rest, i),
    decreases rest.len() - i,
{
    let lines = seq![l0] + rest;
    if i < rest.len() {
        assert(lines[i + 1] == rest[i]);
        match line_step(pw, rest[i]) {
            LineStep::Fatal => {},
            LineStep::Skip => {
                lemma_replay_cons(m, pw, l0, rest, i + 1);
            },
            LineStep::Put(k, v) => {
                lemma_replay_cons(m.insert(k, v), pw, l0, rest, i + 1);
            },
        }
    } else {
        assert(i + 1 >= lines.len());
    }
}

/// Law: recovery. Replaying a log of writer lines completes and leaves any
/// starting table holding exactly those writes, applied oldest first — so
/// what the WAL records before a crash is what replay restores.
pub proof fn lemma_wal_log_recovers(
    m: Map<Seq<u8>, Seq<u8>>,
    pw: Seq<u8>,
    text: Seq<u8>,
    writes: Seq<(Seq<u8>, Seq<u8>)>,
)
    requires
        wal_text_wf(text, pw, writes),
    ensures
        replay_lines(m, pw, lines_of(text), 0) == (apply_writes(m, writes), true),
    decreases writes.len(),
{
    if writes.len() == 0 {
        assert(text.len() == 0);
        assert(lines_of(text) =~= Seq::<Seq<u8>>::empty());
    } else {
        let (line, salt) = choose|line: Seq<u8>, salt: Seq<u8>|
            {
                &&& #[trigger] wal_line_wf(
                    line,
                    derived_key_of(pw, salt),
                    salt,
                    writes[0].0,
                    writes[0].1,
                )
                &&& salt.len() == 16
                &&& 0 < writes[0].0.len() <= MAX_KEY_LEN
                &&& writes[0].1.len() <= MAX_VALUE_LEN
                &&& ws_free(writes[0].0)
                &&& text.len() >= line.len()
                &&& text.take(line.len() as int) == line
                &&& wal_text_wf(text.skip(line.len() as int), pw, writes.skip(1))
            };
        lemma_wal_line_replays(pw, salt, writes[0].0, writes[0].1, line);
        let body = line.drop_last();
        let rest_text = text.skip(line.len() as int);
        assert(text =~= body + seq![10u8] + rest_text) by {
            assert(line.last() == 10);
            assert(forall|j: int| 0 <= j < line.len() ==> text[j] == line[j]);
        }
        assert(body.take(0) =~= Seq::<u8>::empty());
        lemma_lines_head(body, rest_text, 0, Seq::empty());
        assert(lines_of(text) == seq![body] + lines_of(rest_text));
        lemma_wal_log_recovers(m.insert(writes[0].0, writes[0].1), pw, rest_text, writes.skip(1));
        assert(line_step(pw, body) == LineStep::Put(writes[0].0, writes[0].1));
        assert((seq![body] + lines_of(rest_text))[0] == body);
        lemma_replay_cons(
            m.insert(writes[0].0, writes[0].1),
            pw,
            body,
            lines_of(rest_text),
            0,
        );
    }
}


/// Every token the tokenizer yields is nonempty and whitespace-free — in
/// particular, a key taken from a parsed command can stand in a WAL line.
pub proof fn lemma_tokens_ws_free(s: Seq<u8>)
    ensures
        forall|t: int|
            0 <= t < tokens_of(s).len() ==> (#[trigger] tokens_of(s)[t]).len() > 0 && ws_free(
                tokens_of(s)[t],
            ),
{
    assert(ws_free(Seq::<u8>::empty()));
    lemma_tokenize_ws_free(s, 0, Seq::empty());
}

proof fn lemma_tokenize_ws_free(s: Seq<u8>, from: int, cur: Seq<u8>)
    requires
        ws_free(cur),
    ensures
        forall|t: int|
            0 <= t < tokenize(s, from, cur).len() ==> (#[trigger] tokenize(s, from, cur)[t]).len()
                > 0 && ws_free(tokenize(s, from, cur)[t]),
    decreases s.len() - from,
{
    let out = tokenize(s, from, cur);
    if from < 0 || from >= s.len() {
        if cur.len() > 0 {
            assert(out[0] == cur);
        }
    } else if is_ws(s[from]) {
        lemma_tokenize_ws_free(s, from + 1, Seq::empty());
        let rest = tokenize(s, from + 1, Seq::empty());
        if cur.len() > 0 {
            assert(out == seq![cur] + rest);
            assert forall|t: int| 0 <= t < out.len() implies (#[trigger] out[t]).len() > 0
                && ws_free(out[t]) by {
                if t == 0 {
                    assert(out[0] == cur);
                } else {
                    assert(out[t] == rest[t - 1]);
                }
            }
        } else {
            assert(out == rest);
            assert forall|t: int| 0 <= t < out.len() implies (#[trigger] out[t]).len() > 0
                && ws_free(out[t]) by {
                assert(out[t] == rest[t]);
            }
        }
    } else {
        assert(ws_free(cur.push(s[from]))) by {
            assert(forall|j: int|
                0 <= j < cur.len() ==> #[trigger] cur.push(s[from])[j] == cur[j]);
            assert(cur.push(s[from])[cur.len() as int] == s[from]);
        }
        lemma_tokenize_ws_free(s, from + 1, cur.push(s[from]));
        let rest = tokenize(s, from + 1, cur.push(s[from]));
        assert(out == rest);
        assert forall|t: int| 0 <= t < out.len() implies (#[trigger] out[t]).len() > 0 && ws_free(
            out[t],
        ) by {
            assert(out[t] == rest[t]);
        }
    }
}

/// One byte of ASCII whitespace.
pub fn byte_is_ws(b: u8) -> (r: bool)
    ensures
        r == is_ws(b),
{
    b == 32 || b == 9 || b == 10 || b == 13
}

/// Splits a line into its whitespace-separated tokens.
pub fn tokenize_line(line: &Vec<u8>) -> (r: Vec<Vec<u8>>)
    ensures
        r@.map_values(|t: Vec<u8>| t@) == tokens_of(line@),
{
    let n: usize = line.len();
    let mut toks: Vec<Vec<u8>> = Vec::new();
    let mut cur: Vec<u8> = Vec::new();
    let mut i: usize = 0;
    proof {
        assert(toks@.map_values(|t: Vec<u8>| t@) =~= Seq::<Seq<u8>>::empty());
    }
    while i < n
        invariant
            i <= n,
            n == line@.len(),
            tokens_of(line@) == toks@.map_values(|t: Vec<u8>| t@) + tokenize(line@, i as int, cur@),
        decreases n - i,
    {
        let b = line[i];
        if byte_is_ws(b) {
            if cur.len() == 0 {
                proof {
                    assert(cur@ =~= Seq::<u8>::empty());
                }
            }
            if cur.len() > 0 {
                let ghost prev = toks@;
                toks.push(cur);
                cur = Vec::new();
                proof {
                    assert(cur@ =~= Seq::<u8>::empty());
                    assert(toks@.map_values(|t: Vec<u8>| t@) =~= prev.map_values(|t: Vec<u8>| t@)
                        + seq![toks@.last()@]);
                    assert((prev.map_values(|t: Vec<u8>| t@) + seq![toks@.last()@]) + tokenize(
                        line@,
                        i + 1,
                        Seq::empty(),
                    ) =~= prev.map_values(|t: Vec<u8>| t@) + (seq![toks@.last()@] + tokenize(
                        line@,
                        i + 1,
                        Seq::empty(),
                    )));
                }
            }
        } else {
            cur.push(b);
        }
        i = i + 1;
    }
    if cur.len() > 0 {
        let ghost prev = toks@;
        toks.push(cur);
        proof {
            assert(tokenize(line@, n as int, toks@.last()@) =~= seq![toks@.last()@]);
            assert(toks@.map_values(|t: Vec<u8>| t@) =~= prev.map_values(|t: Vec<u8>| t@)
                + seq![toks@.last()@]);
        }
    } else {
        proof {
            assert(tokenize(line@, n as int, cur@) =~= Seq::<Seq<u8>>::empty());
            assert(toks@.map_values(|t: Vec<u8>| t@) + Seq::<Seq<u8>>::empty() =~= toks@.map_values(
                |t: Vec<u8>| t@,
            ));
        }
    }
    toks
}

/// Splits a text into its lines.
pub fn split_lines(text: &Vec<u8>) -> (r: Vec<Vec<u8>>)
    ensures
        r@.map_values(|l: Vec<u8>| l@) == lines_of(text@),
{
    let n: usize = text.len();
    let mut out: Vec<Vec<u8>> = Vec::new();
    let mut cur: Vec<u8> = Vec::new();
    let mut i: usize = 0;
    proof {
        assert(out@.map_values(|l: Vec<u8>| l@) =~= Seq::<Seq<u8>>::empty());
    }
    while i < n
        invariant
            i <= n,
            n == text@.len(),
            lines_of(text@) == out@.map_values(|l: Vec<u8>| l@) + line_split(
                text@,
                i as int,
                cur@,
            ),
        decreases n - i,
    {
        let b = text[i];
        if b == 10 {
            let ghost prev = out@;
            let ghost prior_cur = cur@;
            if cur.len() > 0 && cur[cur.len() - 1] == 13 {
                cur.pop();
                proof {
                    assert(cur@ =~= strip_cr(prior_cur));
                }
            } else {
                proof {
                    assert(cur@ == strip_cr(prior_cur));
                }
            }
            out.push(cur);
            cur = Vec::new();
            proof {
                assert(out@.map_values(|l: Vec<u8>| l@) =~= prev.map_values(|l: Vec<u8>| l@)
                    + seq![out@.last()@]);
                assert((prev.map_values(|l: Vec<u8>| l@) + seq![out@.last()@]) + line_split(
                    text@,
                    i + 1,
                    Seq::empty(),
                ) =~= prev.map_values(|l: Vec<u8>| l@) + (seq![out@.last()@] + line_split(
                    text@,
                    i + 1,
                    Seq::empty(),
                )));
            }
        } else {
            cur.push(b);
        }
        i = i + 1;
    }
    if cur.len() > 0 {
        let ghost prev = out@;
        let ghost prior_cur = cur@;
        if cur[cur.len() - 1] == 13 {
            cur.pop();
            proof {
                assert(cur@ =~= strip_cr(prior_cur));
            }
        } else {
            proof {
                assert(cur@ == strip_cr(prior_cur));
            }
        }
        out.push(cur);
        proof {
            assert(line_split(text@, n as int, prior_cur) =~= seq![strip_cr(prior_cur)]);
            assert(out@.map_values(|l: Vec<u8>| l@) =~= prev.map_values(|l: Vec<u8>| l@)
                + seq![out@.last()@]);
        }
    } else {
        proof {
            assert(line_split(text@, n as int, cur@) =~= Seq::<Seq<u8>>::empty());
            assert(out@.map_values(|l: Vec<u8>| l@) + Seq::<Seq<u8>>::empty() =~= out@.map_values(
                |l: Vec<u8>| l@,
            ));
        }
    }
    out
}

} // verus!
