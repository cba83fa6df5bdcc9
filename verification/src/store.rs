//! A verified in-memory key-value store with per-entry expiry.
//!
//! This is the reference model of the backing store the cache-aside
//! protocol talks to: one logical namespace of string keys, each holding a
//! string blob and an absolute expiry instant. Time is explicit — callers
//! pass the current instant in milliseconds — so expiry is part of the
//! contract rather than of a wall clock.
//!
//! Writes are atomic single-key upserts and the last write wins; the view
//! of the store is the map from key to (blob, expiry). An entry written at
//! `now` with time-to-live `ttl` is served while the reading instant is
//! strictly before `now + ttl`; a time-to-live of zero therefore never
//! serves, which makes such a write equivalent to not caching at all.

use vstd::prelude::*;

verus! {

/// One stored entry: a key, its blob, and the instant it expires.
#[derive(Debug, PartialEq, Eq)]
pub struct StoreEntry {
    pub key: String,
    pub val: String,
    pub expires_at: u64,
}

/// The store: entries in write order; later writes shadow earlier ones.
#[derive(Debug, PartialEq, Eq)]
pub struct MemStore {
    entries: Vec<StoreEntry>,
}

/// The map a write log denotes: each key holds its last-written entry.
pub open spec fn entries_map(s: Seq<StoreEntry>) -> Map<Seq<char>, (Seq<char>, u64)>
    decreases s,
{
    if s.len() == 0 {
        Map::empty()
    } else {
        entries_map(s.drop_last()).insert(s.last().key@, (s.last().val@, s.last().expires_at))
    }
}

impl View for MemStore {
    type V = Map<Seq<char>, (Seq<char>, u64)>;

    closed spec fn view(&self) -> Map<Seq<char>, (Seq<char>, u64)> {
        entries_map(self.entries@)
    }
}

proof fn lemma_entries_map_contains(s: Seq<StoreEntry>, k: Seq<char>)
    ensures
        entries_map(s).contains_key(k) <==> exists|i: int| 0 <= i < s.len() && s[i].key@ == k,
    decreases s,
{
    if s.len() > 0 {
        lemma_entries_map_contains(s.drop_last(), k);
        if s.last().key@ == k {
            assert(s[s.len() - 1].key@ == k);
        } else {
            if entries_map(s).contains_key(k) {
                let i = choose|i: int| 0 <= i < s.drop_last().len() && s.drop_last()[i].key@ == k;
                assert(s[i].key@ == k);
            }
            if exists|i: int| 0 <= i < s.len() && s[i].key@ == k {
                let i = choose|i: int| 0 <= i < s.len() && s[i].key@ == k;
                assert(s.drop_last()[i].key@ == k);
            }
        }
    }
}

proof fn lemma_entries_map_at(s: Seq<StoreEntry>, j: int)
    requires
        0 <= j < s.len(),
        forall|t: int| j < t < s.len() ==> s[t].key@ != s[j].key@,
    ensures
        entries_map(s).contains_key(s[j].key@),
        entries_map(s)[s[j].key@] == (s[j].val@, s[j].expires_at),
    decreases s,
{
    if j < s.len() - 1 {
        assert(s.drop_last()[j] == s[j]);
        lemma_entries_map_at(s.drop_last(), j);
        assert(s.last().key@ != s[j].key@);
    }
}

impl MemStore {
    /// An empty store.
    pub fn new() -> (r: MemStore)
        ensures
            r@ == Map::<Seq<char>, (Seq<char>, u64)>::empty(),
    {
        MemStore { entries: Vec::new() }
    }

    /// Read `key` at instant `now_ms`: the blob stored under it, if an
    /// entry is present and not yet expired.
    pub fn get(&self, key: &String, now_ms: u64) -> (r: Option<String>)
        ensures
            match r {
                Some(v) => self@.contains_key(key@) && v@ == self@[key@].0 && now_ms
                    < self@[key@].1,
                None => !self@.contains_key(key@) || now_ms >= self@[key@].1,
            },
    {
        let n = self.entries.len();
        let mut idx = n;
        while idx > 0
            invariant
                idx <= n,
                n == self.entries@.len(),
                forall|t: int| idx <= t < n ==> self.entries@[t].key@ != key@,
            decreases idx,
        {
            idx = idx - 1;
            if self.entries[idx].key.eq(key) {
                proof {
                    lemma_entries_map_at(self.entries@, idx as int);
                }
                if now_ms < self.entries[idx].expires_at {
                    return Some(self.entries[idx].val.clone());
                } else {
                    return None;
                }
            }
        }
        proof {
            lemma_entries_map_contains(self.entries@, key@);
        }
        None
    }

    /// Write `key -> val` at instant `now_ms` with time-to-live `ttl_ms`:
    /// an atomic upsert whose entry expires at `now_ms + ttl_ms`.
    pub fn set(&mut self, key: &String, val: &String, ttl_ms: u64, now_ms: u64)
        requires
            now_ms + ttl_ms <= u64::MAX,
        ensures
            final(self)@ == old(self)@.insert(key@, (val@, (now_ms + ttl_ms) as u64)),
    {
        let entry = StoreEntry { key: key.clone(), val: val.clone(), expires_at: now_ms + ttl_ms };
        self.entries.push(entry);
        proof {
            assert(self.entries@.drop_last() =~= old(self).entries@);
        }
    }
}

} // verus!
