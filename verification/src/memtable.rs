//! The memtable: the ordered in-memory buffer of pending records, kept as a
//! vector of entries in strictly ascending key order. Lookup is specified
//! against the mathematical map the entry sequence denotes; last write wins.

use vstd::prelude::*;

use crate::wire::{compare_bytes, lemma_lex_lt_trans, lemma_lex_trichotomy, lex_lt, KeyCmp};
use crate::{MAX_KEY_LEN, MAX_VALUE_LEN};

verus! {

/// One key/value record.
#[derive(Clone, Debug)]
pub struct Entry {
    pub key: Vec<u8>,
    pub value: Vec<u8>,
}

impl View for Entry {
    type V = (Seq<u8>, Seq<u8>);

    open spec fn view(&self) -> (Seq<u8>, Seq<u8>) {
        (self.key@, self.value@)
    }
}

/// Keys appear in strictly ascending lexicographic order.
pub open spec fn sorted_strict(s: Seq<(Seq<u8>, Seq<u8>)>) -> bool {
    forall|i: int, j: int| 0 <= i < j < s.len() ==> lex_lt(#[trigger] s[i].0, #[trigger] s[j].0)
}

/// No key appears twice.
pub open spec fn unique_keys(s: Seq<(Seq<u8>, Seq<u8>)>) -> bool {
    forall|i: int, j: int|
        0 <= i < s.len() && 0 <= j < s.len() && i != j ==> (#[trigger] s[i].0) != (#[trigger] s[j].0)
}

/// Every key is at most `klim` bytes and every value at most `vlim` bytes.
pub open spec fn bounded_entries(s: Seq<(Seq<u8>, Seq<u8>)>, klim: nat, vlim: nat) -> bool {
    forall|i: int|
        0 <= i < s.len() ==> (#[trigger] s[i]).0.len() <= klim && s[i].1.len() <= vlim
}

/// The mathematical map an entry sequence denotes; later entries win.
pub open spec fn table_map(s: Seq<(Seq<u8>, Seq<u8>)>) -> Map<Seq<u8>, Seq<u8>>
    decreases s.len(),
{
    if s.len() == 0 {
        Map::empty()
    } else {
        table_map(s.drop_last()).insert(s.last().0, s.last().1)
    }
}

pub proof fn lemma_sorted_implies_unique(s: Seq<(Seq<u8>, Seq<u8>)>)
    requires
        sorted_strict(s),
    ensures
        unique_keys(s),
{
    assert forall|i: int, j: int|
        0 <= i < s.len() && 0 <= j < s.len() && i != j implies (#[trigger] s[i].0) != (
    #[trigger] s[j].0) by {
        if i < j {
            lemma_lex_trichotomy(s[i].0, s[j].0);
        } else {
            lemma_lex_trichotomy(s[j].0, s[i].0);
        }
    }
}

/// With unique keys, the denoted map holds exactly the entries: each entry's
/// key maps to its value, and every key of the map is some entry's key.
pub proof fn lemma_table_map_index(s: Seq<(Seq<u8>, Seq<u8>)>)
    requires
        unique_keys(s),
    ensures
        forall|i: int|
            0 <= i < s.len() ==> table_map(s).contains_key(#[trigger] s[i].0) && table_map(s)[s[i].0]
                == s[i].1,
        forall|k: Seq<u8>|
            table_map(s).contains_key(k) ==> exists|i: int| 0 <= i < s.len() && (#[trigger] s[i]).0
                == k,
    decreases s.len(),
{
    if s.len() > 0 {
        let prefix = s.drop_last();
        assert(unique_keys(prefix)) by {
            assert(forall|i: int| 0 <= i < prefix.len() ==> prefix[i] == s[i]);
        }
        lemma_table_map_index(prefix);
        assert forall|i: int|
            0 <= i < s.len() implies table_map(s).contains_key(#[trigger] s[i].0) && table_map(
            s,
        )[s[i].0] == s[i].1 by {
            if i < s.len() - 1 {
                assert(prefix[i] == s[i]);
                assert(s[i].0 != s.last().0);
            }
        }
        assert forall|k: Seq<u8>| table_map(s).contains_key(k) implies exists|i: int|
            0 <= i < s.len() && (#[trigger] s[i]).0 == k by {
            if k == s.last().0 {
                assert(s[s.len() - 1].0 == k);
            } else {
                assert(table_map(prefix).contains_key(k));
                let i = choose|i: int| 0 <= i < prefix.len() && (#[trigger] prefix[i]).0 == k;
                assert(s[i].0 == k);
            }
        }
    }
}

/// A key that no entry carries is not in the denoted map.
pub proof fn lemma_table_map_absent(s: Seq<(Seq<u8>, Seq<u8>)>, k: Seq<u8>)
    requires
        forall|i: int| 0 <= i < s.len() ==> (#[trigger] s[i]).0 != k,
    ensures
        !table_map(s).contains_key(k),
    decreases s.len(),
{
    if s.len() > 0 {
        let prefix = s.drop_last();
        assert(forall|i: int| 0 <= i < prefix.len() ==> (#[trigger] prefix[i]).0 != k) by {
            assert(forall|i: int| 0 <= i < prefix.len() ==> prefix[i] == s[i]);
        }
        lemma_table_map_absent(prefix, k);
        assert(s[s.len() - 1].0 != k);
    }
}

/// The ordered in-memory buffer of pending records.
#[derive(Clone, Debug)]
pub struct Memtable {
    pub entries: Vec<Entry>,
}

impl View for Memtable {
    type V = Seq<(Seq<u8>, Seq<u8>)>;

    open spec fn view(&self) -> Seq<(Seq<u8>, Seq<u8>)> {
        self.entries@.map_values(|e: Entry| e@)
    }
}

impl Memtable {
    /// Strictly sorted unique keys, all entries within the front end's
    /// length limits.
    pub open spec fn wf(&self) -> bool {
        &&& sorted_strict(self@)
        &&& bounded_entries(self@, MAX_KEY_LEN as nat, MAX_VALUE_LEN as nat)
    }

    /// The map this memtable denotes.
    pub open spec fn as_map(&self) -> Map<Seq<u8>, Seq<u8>> {
        table_map(self@)
    }

    pub fn new() -> (r: Memtable)
        ensures
            r@ =~= Seq::<(Seq<u8>, Seq<u8>)>::empty(),
            r.wf(),
            r.as_map() =~= Map::<Seq<u8>, Seq<u8>>::empty(),
    {
        Memtable { entries: Vec::new() }
    }

    pub fn len(&self) -> (r: usize)
        ensures
            r == self@.len(),
    {
        self.entries.len()
    }

    /// Looks the key up in the denoted map.
    pub fn get(&self, key: &Vec<u8>) -> (r: Option<&Vec<u8>>)
        requires
            self.wf(),
        ensures
            match r {
                Some(v) => self.as_map().contains_key(key@) && v@ == self.as_map()[key@],
                None => !self.as_map().contains_key(key@),
            },
    {
        proof {
            lemma_sorted_implies_unique(self@);
            lemma_table_map_index(self@);
        }
        let n: usize = self.entries.len();
        let mut i: usize = 0;
        while i < n
            invariant
                i <= n,
                n == self@.len(),
                self.wf(),
                unique_keys(self@),
                forall|j: int| 0 <= j < i ==> (#[trigger] self@[j]).0 != key@,
            decreases n - i,
        {
            match compare_bytes(&self.entries[i].key, key) {
                KeyCmp::Equal => {
                    proof {
                        assert(self@[i as int] == self.entries@[i as int]@);
                        assert(self@[i as int].0 == key@);
                        lemma_table_map_index(self@);
                        assert(self.as_map()[key@] == self@[i as int].1);
                    }
                    return Some(&self.entries[i].value);
                },
                _ => {
                    i = i + 1;
                },
            }
        }
        proof {
            lemma_table_map_absent(self@, key@);
        }
        None
    }

    /// Inserts the record, replacing any record with the same key: the
    /// denoted map gains exactly this binding.
    pub fn insert(&mut self, key: Vec<u8>, value: Vec<u8>)
        requires
            old(self).wf(),
            key@.len() <= MAX_KEY_LEN,
            value@.len() <= MAX_VALUE_LEN,
        ensures
            final(self).wf(),
            final(self).as_map() == old(self).as_map().insert(key@, value@),
            old(self)@.len() <= final(self)@.len() <= old(self)@.len() + 1,
    {
        proof {
            lemma_sorted_implies_unique(self@);
        }
        let ghost prior = self@;
        let n: usize = self.entries.len();
        let mut i: usize = 0;
        loop
            invariant
                i <= n,
                n == self@.len(),
                self@ == prior,
                *self == *old(self),
                forall|j: int| 0 <= j < i ==> lex_lt((#[trigger] prior[j]).0, key@),
            ensures
                i <= n,
                self@ == prior,
                *self == *old(self),
                forall|j: int| 0 <= j < i ==> lex_lt((#[trigger] prior[j]).0, key@),
                i < n ==> !lex_lt(prior[i as int].0, key@),
            decreases n - i,
        {
            if i == n {
                break ;
            }
            match compare_bytes(&self.entries[i].key, &key) {
                KeyCmp::Less => {
                    proof {
                        assert(self@[i as int] == self.entries@[i as int]@);
                    }
                    i = i + 1;
                },
                _ => {
                    proof {
                        assert(self@[i as int] == self.entries@[i as int]@);
                    }
                    break ;
                },
            }
        }
        if i < n {
            match compare_bytes(&self.entries[i].key, &key) {
                KeyCmp::Equal => {
                    let ghost kv = key@;
                    let ghost vv = value@;
                    self.entries[i] = Entry { key, value };
                    proof {
                        assert(self.entries@ == old(self).entries@.update(
                            i as int,
                            self.entries@[i as int],
                        ));
                        assert(self@[i as int] == (kv, vv));
                        assert(forall|j: int|
                            0 <= j < prior.len() && j != i ==> #[trigger] self@[j] == prior[j]);
                        lemma_replace_entry(prior, i as int, self@, kv, vv);
                    }
                    return ;
                },
                KeyCmp::Greater => {
                    self.entries.insert(i, Entry { key, value });
                    proof {
                        assert(self@ =~= prior.insert(i as int, (key@, value@)));
                        lemma_insert_entry(prior, i as int, self@, key@, value@);
                    }
                    return ;
                },
                KeyCmp::Less => {
                    proof {
                        assert(false);
                    }
                },
            }
        } else {
            self.entries.insert(i, Entry { key, value });
            proof {
                assert(self@ =~= prior.insert(i as int, (key@, value@)));
                lemma_insert_entry(prior, i as int, self@, key@, value@);
            }
        }
    }

    /// Detaches the whole table, leaving an empty one behind.
    pub fn take(&mut self) -> (r: Memtable)
        ensures
            r@ == old(self)@,
            final(self)@ =~= Seq::<(Seq<u8>, Seq<u8>)>::empty(),
            final(self).wf(),
    {
        let rest = self.entries.split_off(0);
        proof {
            assert(rest@ =~= old(self).entries@);
            assert(rest@.map_values(|e: Entry| e@) =~= old(self)@);
            assert(self@ =~= Seq::<(Seq<u8>, Seq<u8>)>::empty());
        }
        Memtable { entries: rest }
    }
}

/// Replacing the entry at `i` (same key) denotes the map with that binding
/// overwritten.
proof fn lemma_replace_entry(
    prior: Seq<(Seq<u8>, Seq<u8>)>,
    i: int,
    cur: Seq<(Seq<u8>, Seq<u8>)>,
    k: Seq<u8>,
    v: Seq<u8>,
)
    requires
        sorted_strict(prior),
        bounded_entries(prior, MAX_KEY_LEN as nat, MAX_VALUE_LEN as nat),
        k.len() <= MAX_KEY_LEN,
        v.len() <= MAX_VALUE_LEN,
        0 <= i < prior.len(),
        cur.len() == prior.len(),
        forall|j: int| 0 <= j < prior.len() && j != i ==> #[trigger] cur[j] == prior[j],
        cur[i] == (k, v),
        prior[i].0 == k,
    ensures
        sorted_strict(cur),
        bounded_entries(cur, MAX_KEY_LEN as nat, MAX_VALUE_LEN as nat),
        table_map(cur) == table_map(prior).insert(cur[i].0, cur[i].1),
{
    assert forall|p: int, q: int| 0 <= p < q < cur.len() implies lex_lt(
        #[trigger] cur[p].0,
        #[trigger] cur[q].0,
    ) by {
        assert(cur[p].0 == prior[p].0 && cur[q].0 == prior[q].0);
    }
    lemma_sorted_implies_unique(prior);
    assert(unique_keys(cur)) by {
        lemma_sorted_implies_unique(cur);
    }
    lemma_table_map_index(prior);
    lemma_table_map_index(cur);
    let k = cur[i].0;
    let lhs = table_map(cur);
    let rhs = table_map(prior).insert(k, cur[i].1);
    assert forall|kk: Seq<u8>| lhs.contains_key(kk) implies rhs.contains_key(kk) && lhs[kk]
        == rhs[kk] by {
        let j = choose|j: int| 0 <= j < cur.len() && (#[trigger] cur[j]).0 == kk;
        if j == i {
        } else {
            assert(prior[j].0 == kk && prior[j].1 == cur[j].1);
            assert(kk != k);
        }
    }
    assert forall|kk: Seq<u8>| rhs.contains_key(kk) implies lhs.contains_key(kk) by {
        if kk == k {
        } else {
            let j = choose|j: int| 0 <= j < prior.len() && (#[trigger] prior[j]).0 == kk;
            assert(cur[j].0 == kk);
        }
    }
    assert(lhs =~= rhs);
}

/// Inserting a fresh key at its sorted position denotes the map with that
/// binding added.
proof fn lemma_insert_entry(
    prior: Seq<(Seq<u8>, Seq<u8>)>,
    i: int,
    cur: Seq<(Seq<u8>, Seq<u8>)>,
    k: Seq<u8>,
    v: Seq<u8>,
)
    requires
        sorted_strict(prior),
        bounded_entries(prior, MAX_KEY_LEN as nat, MAX_VALUE_LEN as nat),
        k.len() <= MAX_KEY_LEN,
        v.len() <= MAX_VALUE_LEN,
        0 <= i <= prior.len(),
        forall|j: int| 0 <= j < i ==> lex_lt((#[trigger] prior[j]).0, k),
        i < prior.len() ==> lex_lt(k, prior[i].0),
        cur == prior.insert(i, (k, v)),
    ensures
        sorted_strict(cur),
        bounded_entries(cur, MAX_KEY_LEN as nat, MAX_VALUE_LEN as nat),
        table_map(cur) == table_map(prior).insert(k, v),
{
    assert(cur.len() == prior.len() + 1);
    assert(cur[i] == (k, v));
    assert(forall|j: int| 0 <= j < i ==> #[trigger] cur[j] == prior[j]);
    assert(forall|j: int| i < j < cur.len() ==> #[trigger] cur[j] == prior[j - 1]);
    assert forall|p: int, q: int| 0 <= p < q < cur.len() implies lex_lt(
        #[trigger] cur[p].0,
        #[trigger] cur[q].0,
    ) by {
        if p < i && q < i {
        } else if p < i && q == i {
        } else if p < i && q > i {
            if i < prior.len() {
                if p < i - 1 + 1 {
                }
            }
            if q - 1 == p {
            } else {
            }
        } else if p == i && q > i {
            // k < prior[i].0 <= prior[q-1].0
            if q - 1 == i {
            } else {
                lemma_lex_lt_trans(k, prior[i].0, prior[q - 1].0);
            }
        } else {
        }
    }
    lemma_sorted_implies_unique(prior);
    lemma_sorted_implies_unique(cur);
    lemma_table_map_index(prior);
    lemma_table_map_index(cur);
    let lhs = table_map(cur);
    let rhs = table_map(prior).insert(k, v);
    assert forall|kk: Seq<u8>| lhs.contains_key(kk) implies rhs.contains_key(kk) && lhs[kk]
        == rhs[kk] by {
        let j = choose|j: int| 0 <= j < cur.len() && (#[trigger] cur[j]).0 == kk;
        if j == i {
        } else if j < i {
            assert(prior[j].0 == kk && prior[j].1 == cur[j].1);
            lemma_lex_trichotomy(prior[j].0, k);
        } else {
            assert(prior[j - 1].0 == kk && prior[j - 1].1 == cur[j].1);
            lemma_lex_trichotomy(k, prior[j - 1].0);
            if j - 1 == i {
            } else {
                lemma_lex_lt_trans(k, prior[i].0, prior[j - 1].0);
            }
        }
    }
    assert forall|kk: Seq<u8>| rhs.contains_key(kk) implies lhs.contains_key(kk) by {
        if kk == k {
            assert(cur[i].0 == kk);
        } else {
            let j = choose|j: int| 0 <= j < prior.len() && (#[trigger] prior[j]).0 == kk;
            if j < i {
                assert(cur[j].0 == kk);
            } else {
                assert(cur[j + 1].0 == kk);
            }
        }
    }
    assert(lhs =~= rhs);
}

} // verus!
