//! The record and provider store.
//!
//! Local key/value records and per-key provider lists, both with expiry.
//! A put replaces an existing record only when the incoming one has no expiry
//! or a later one; reads and provider listings never return expired entries;
//! a periodic sweep drops them. Both stores are modelled as finite maps:
//! records by key, provider records by the pair (key, provider).

use vstd::prelude::*;
use crate::ident::{KeyId, PeerId, copy_bytes};
use crate::keyed::{
    keyed_map, distinct_keys, lemma_keyed_map_dom, lemma_keyed_map_at, lemma_keyed_map_push,
    lemma_keyed_map_update, lemma_keyed_map_remove,
};

verus! {

/// A stored key/value record.
#[derive(Clone, Debug)]
pub struct Record {
    /// Identifier the record is stored under.
    pub key: KeyId,
    /// The value bytes.
    pub value: Vec<u8>,
    /// Peer that originated the record, when known.
    pub publisher: Option<PeerId>,
    /// Instant after which the record is dead; `None` never expires.
    pub expires: Option<u64>,
}

/// Mathematical image of a `Record`.
pub struct SpecRecord {
    pub key: KeyId,
    pub value: Seq<u8>,
    pub publisher: Option<PeerId>,
    pub expires: Option<u64>,
}

impl View for Record {
    type V = SpecRecord;

    open spec fn view(&self) -> SpecRecord {
        SpecRecord {
            key: self.key,
            value: self.value@,
            publisher: self.publisher,
            expires: self.expires,
        }
    }
}

/// A record vector as a sequence of models.
pub open spec fn rec_views(v: Seq<Record>) -> Seq<SpecRecord> {
    v.map_values(|r: Record| r@)
}

/// Key function for the record map.
pub open spec fn rec_key() -> spec_fn(SpecRecord) -> KeyId {
    |r: SpecRecord| r.key
}

/// A record is alive at `now` when it has no expiry or has not yet reached it.
pub open spec fn rec_live(r: SpecRecord, now: u64) -> bool {
    match r.expires {
        None => true,
        Some(e) => now < e,
    }
}

/// The incoming expiry wins over the standing one: no expiry always wins,
/// an expiry only against an earlier-or-equal one.
pub open spec fn supersedes(incoming: Option<u64>, standing: Option<u64>) -> bool {
    match incoming {
        None => true,
        Some(n) => match standing {
            None => false,
            Some(o) => n >= o,
        },
    }
}

/// The local key/value records, at most one per key.
pub struct RecordStore {
    /// The records, one per key while `wf()` holds.
    pub records: Vec<Record>,
}

impl RecordStore {
    /// The records as a sequence of models.
    pub open spec fn entries(self) -> Seq<SpecRecord> {
        rec_views(self.records@)
    }

    /// At most one record per key.
    pub open spec fn wf(self) -> bool {
        distinct_keys(self.entries(), rec_key())
    }

    /// An empty store.
    pub fn new() -> (s: RecordStore)
        ensures
            s.wf(),
            s@ == Map::<KeyId, SpecRecord>::empty(),
    {
        let s = RecordStore { records: Vec::new() };
        proof {
            assert(s.entries() =~= Seq::<SpecRecord>::empty());
        }
        s
    }

    /// Whether `r` would be stored over what the map holds for its key.
    pub open spec fn put_stores(m: Map<KeyId, SpecRecord>, r: SpecRecord) -> bool {
        !m.contains_key(r.key) || supersedes(r.expires, m[r.key].expires)
    }

    /// Insert or replace the record for `r.key`, keeping a standing record
    /// whose expiry the incoming one does not supersede.
    pub fn put(&mut self, r: Record) -> (stored: bool)
        requires
            old(self).wf(),
        ensures
            final(self).wf(),
            stored == Self::put_stores(old(self)@, r@),
            stored ==> final(self)@ == old(self)@.insert(r@.key, r@),
            !stored ==> final(self)@ == old(self)@,
    {
        let n: usize = self.records.len();
        let mut i: usize = 0;
        while i < n
            invariant
                n == self.records@.len(),
                i <= n,
                self.wf(),
                self@ == old(self)@,
                self.entries() == old(self).entries(),
                forall|j: int| 0 <= j < i ==> self.entries()[j].key != r@.key,
            decreases n - i,
        {
            if self.records[i].key == r.key {
                proof {
                    lemma_keyed_map_at(self.entries(), rec_key(), i as int);
                }
                let replace = match (r.expires, self.records[i].expires) {
                    (None, _) => true,
                    (Some(_), None) => false,
                    (Some(ne), Some(oe)) => ne >= oe,
                };
                if replace {
                    let ghost before = self.entries();
                    self.records.set(i, r);
                    proof {
                        assert(self.entries() =~= before.update(i as int, r@));
                        lemma_keyed_map_update(before, rec_key(), i as int, r@);
                        assert(distinct_keys(self.entries(), rec_key()));
                    }
                    return true;
                } else {
                    return false;
                }
            }
            i = i + 1;
        }
        proof {
            lemma_keyed_map_dom(self.entries(), rec_key(), r@.key);
        }
        let ghost before = self.entries();
        self.records.push(r);
        proof {
            assert(self.entries() =~= before.push(r@));
            lemma_keyed_map_push(before, rec_key(), r@);
            assert(distinct_keys(self.entries(), rec_key()));
        }
        true
    }

    /// The value stored under `key`, if a live record holds it.
    pub fn get(&self, key: KeyId, now: u64) -> (r: Option<Vec<u8>>)
        requires
            self.wf(),
        ensures
            match r {
                Some(v) => self@.contains_key(key) && rec_live(self@[key], now) && v@ == self@[key].value,
                None => !(self@.contains_key(key) && rec_live(self@[key], now)),
            },
    {
        let n: usize = self.records.len();
        let mut i: usize = 0;
        while i < n
            invariant
                n == self.records@.len(),
                i <= n,
                self.wf(),
                forall|j: int| 0 <= j < i ==> self.entries()[j].key != key,
            decreases n - i,
        {
            if self.records[i].key == key {
                proof {
                    lemma_keyed_map_at(self.entries(), rec_key(), i as int);
                }
                let live = match self.records[i].expires {
                    None => true,
                    Some(e) => now < e,
                };
                if live {
                    return Some(copy_bytes(self.records[i].value.as_slice()));
                } else {
                    return None;
                }
            }
            i = i + 1;
        }
        proof {
            lemma_keyed_map_dom(self.entries(), rec_key(), key);
        }
        None
    }

    /// Evict the record under `key`, if any.
    pub fn remove(&mut self, key: KeyId)
        requires
            old(self).wf(),
        ensures
            final(self).wf(),
            final(self)@ == old(self)@.remove(key),
            final(self).records@.len() <= old(self).records@.len(),
            old(self)@.contains_key(key) ==> final(self).records@.len() < old(self).records@.len(),
    {
        let n: usize = self.records.len();
        let mut i: usize = 0;
        while i < n
            invariant
                n == self.records@.len(),
                i <= n,
                self.wf(),
                self@ == old(self)@,
                self.entries() == old(self).entries(),
                forall|j: int| 0 <= j < i ==> self.entries()[j].key != key,
            decreases n - i,
        {
            if self.records[i].key == key {
                let ghost before = self.entries();
                self.records.remove(i);
                proof {
                    assert(self.entries() =~= before.remove(i as int));
                    lemma_keyed_map_remove(before, rec_key(), i as int);
                    assert forall|a: int, b: int|
                        0 <= a < b < self.entries().len() implies rec_key()(self.entries()[a])
                        != rec_key()(self.entries()[b]) by {
                        if b < i {
                        } else if a < i {
                            assert(self.entries()[b] == before[b + 1]);
                        } else {
                            assert(self.entries()[a] == before[a + 1]);
                            assert(self.entries()[b] == before[b + 1]);
                        }
                    }
                }
                return ;
            }
            i = i + 1;
        }
        proof {
            lemma_keyed_map_dom(self.entries(), rec_key(), key);
            assert(self@ =~= old(self)@.remove(key));
        }
    }

    /// Some key whose record is dead at `now`, if any.
    fn find_dead(&self, now: u64) -> (r: Option<KeyId>)
        requires
            self.wf(),
        ensures
            match r {
                Some(k) => self@.contains_key(k) && !rec_live(self@[k], now),
                None => forall|k: KeyId| #[trigger] self@.contains_key(k) ==> rec_live(
                    self@[k],
                    now,
                ),
            },
    {
        let n: usize = self.records.len();
        let mut i: usize = 0;
        while i < n
            invariant
                n == self.records@.len(),
                i <= n,
                self.wf(),
                forall|j: int| 0 <= j < i ==> rec_live(#[trigger] self.entries()[j], now),
            decreases n - i,
        {
            let live = match self.records[i].expires {
                None => true,
                Some(e) => now < e,
            };
            if !live {
                proof {
                    lemma_keyed_map_at(self.entries(), rec_key(), i as int);
                }
                return Some(self.records[i].key);
            }
            i = i + 1;
        }
        proof {
            assert forall|k: KeyId| #[trigger] self@.contains_key(k) implies rec_live(
                self@[k],
                now,
            ) by {
                lemma_keyed_map_dom(self.entries(), rec_key(), k);
                let idx = choose|idx: int|
                    0 <= idx < self.entries().len() && rec_key()(self.entries()[idx]) == k;
                lemma_keyed_map_at(self.entries(), rec_key(), idx);
            }
        }
        None
    }

    /// Drop every record dead at `now`; live ones survive untouched.
    pub fn sweep(&mut self, now: u64)
        requires
            old(self).wf(),
        ensures
            final(self).wf(),
            forall|k: KeyId| #[trigger] final(self)@.contains_key(k) <==> (old(self)@.contains_key(
                k,
            ) && rec_live(old(self)@[k], now)),
            forall|k: KeyId| #[trigger] final(self)@.contains_key(k) ==> final(self)@[k] == old(self)@[k],
    {
        loop
            invariant
                self.wf(),
                forall|k: KeyId| #[trigger] self@.contains_key(k) ==> old(self)@.contains_key(k)
                    && self@[k] == old(self)@[k],
                forall|k: KeyId| old(self)@.contains_key(k) && rec_live(
                    #[trigger] old(self)@[k],
                    now,
                ) ==> self@.contains_key(k),
            decreases self.records@.len(),
        {
            match self.find_dead(now) {
                Some(k) => {
                    self.remove(k);
                },
                None => {
                    return ;
                },
            }
        }
    }

    /// The live records published by `p`, due for republishing.
    pub fn records_published_by(&self, p: PeerId, now: u64) -> (out: Vec<Record>)
        requires
            self.wf(),
        ensures
            forall|j: int| 0 <= j < out@.len() ==> {
                let r = #[trigger] out@[j]@;
                self@.contains_key(r.key) && self@[r.key] == r && r.publisher == Some(p)
                    && rec_live(r, now)
            },
            forall|k: KeyId| #[trigger] self@.contains_key(k) && self@[k].publisher == Some(p)
                && rec_live(self@[k], now) ==> exists|j: int| 0 <= j < out@.len() && out@[j]@
                == self@[k],
    {
        let n: usize = self.records.len();
        let mut out: Vec<Record> = Vec::new();
        let mut i: usize = 0;
        while i < n
            invariant
                n == self.records@.len(),
                i <= n,
                self.wf(),
                forall|j: int| 0 <= j < out@.len() ==> exists|idx: int| 0 <= idx < i
                    && #[trigger] out@[j]@ == self.entries()[idx] && self.entries()[idx].publisher
                    == Some(p) && rec_live(self.entries()[idx], now),
                forall|idx: int| 0 <= idx < i && #[trigger] self.entries()[idx].publisher == Some(p)
                    && rec_live(self.entries()[idx], now) ==> exists|j: int| 0 <= j < out@.len()
                    && out@[j]@ == self.entries()[idx],
            decreases n - i,
        {
            proof {
                assert(self.entries()[i as int] == self.records@[i as int]@);
            }
            let matches_p = match self.records[i].publisher {
                Some(q) => q == p,
                None => false,
            };
            let live = match self.records[i].expires {
                None => true,
                Some(e) => now < e,
            };
            if matches_p && live {
                let rec = Record {
                    key: self.records[i].key,
                    value: copy_bytes(self.records[i].value.as_slice()),
                    publisher: self.records[i].publisher,
                    expires: self.records[i].expires,
                };
                proof {
                    assert(rec@ == self.entries()[i as int]);
                }
                let ghost obefore = out@;
                out.push(rec);
                proof {
                    assert(out@[out@.len() - 1]@ == self.entries()[i as int]);
                    assert forall|idx: int| 0 <= idx < i && #[trigger] self.entries()[idx].publisher
                        == Some(p) && rec_live(self.entries()[idx], now) implies exists|j: int|
                        0 <= j < out@.len() && out@[j]@ == self.entries()[idx] by {
                        let j = choose|j: int|
                            0 <= j < obefore.len() && obefore[j]@ == self.entries()[idx];
                        assert(out@[j] == obefore[j]);
                    }
                }
            }
            i = i + 1;
        }
        proof {
            assert forall|j: int| 0 <= j < out@.len() implies {
                let r = #[trigger] out@[j]@;
                self@.contains_key(r.key) && self@[r.key] == r && r.publisher == Some(p)
                    && rec_live(r, now)
            } by {
                let idx = choose|idx: int|
                    0 <= idx < n && out@[j]@ == self.entries()[idx] && self.entries()[idx].publisher
                        == Some(p) && rec_live(self.entries()[idx], now);
                lemma_keyed_map_at(self.entries(), rec_key(), idx);
            }
            assert forall|k: KeyId| #[trigger] self@.contains_key(k) && self@[k].publisher == Some(
                p,
            ) && rec_live(self@[k], now) implies exists|j: int| 0 <= j < out@.len() && out@[j]@
                == self@[k] by {
                lemma_keyed_map_dom(self.entries(), rec_key(), k);
                let idx = choose|idx: int|
                    0 <= idx < self.entries().len() && rec_key()(self.entries()[idx]) == k;
                lemma_keyed_map_at(self.entries(), rec_key(), idx);
            }
        }
        out
    }
}

impl View for RecordStore {
    type V = Map<KeyId, SpecRecord>;

    open spec fn view(&self) -> Map<KeyId, SpecRecord> {
        keyed_map(self.entries(), rec_key())
    }
}

/// A put that was stored is read back before its expiry: the round trip
/// from `put` to `get` on the same key returns the value just written.
pub proof fn lemma_put_get_round_trip(m: Map<KeyId, SpecRecord>, r: SpecRecord, now: u64)
    requires
        rec_live(r, now),
    ensures
        m.insert(r.key, r).contains_key(r.key),
        rec_live(m.insert(r.key, r)[r.key], now),
        m.insert(r.key, r)[r.key].value == r.value,
{
}

/// One peer's claim to provide a key, dead once `expires` is reached.
#[derive(Clone, Copy, PartialEq, Eq, Structural, Debug)]
pub struct ProviderRecord {
    /// The provided key.
    pub key: KeyId,
    /// The peer that provides it.
    pub provider: PeerId,
    /// Instant after which the claim is dead.
    pub expires: u64,
}

/// Key function for the provider map: the pair (key, provider).
pub open spec fn prov_key() -> spec_fn(ProviderRecord) -> (KeyId, PeerId) {
    |p: ProviderRecord| (p.key, p.provider)
}

/// A provider record is alive at `now` strictly before its expiry.
pub open spec fn prov_live(p: ProviderRecord, now: u64) -> bool {
    now < p.expires
}

/// The provider lists, at most one record per (key, provider) pair.
pub struct ProviderStore {
    /// The provider records, one per pair while `wf()` holds.
    pub providers: Vec<ProviderRecord>,
}

impl ProviderStore {
    /// At most one record per (key, provider) pair.
    pub open spec fn wf(self) -> bool {
        distinct_keys(self.providers@, prov_key())
    }

    /// An empty store.
    pub fn new() -> (s: ProviderStore)
        ensures
            s.wf(),
            s@ == Map::<(KeyId, PeerId), ProviderRecord>::empty(),
    {
        let s = ProviderStore { providers: Vec::new() };
        proof {
            assert(s.providers@ =~= Seq::<ProviderRecord>::empty());
        }
        s
    }

    /// Add or refresh a provider record; the incoming expiry wins.
    pub fn add_provider(&mut self, rec: ProviderRecord)
        requires
            old(self).wf(),
        ensures
            final(self).wf(),
            final(self)@ == old(self)@.insert((rec.key, rec.provider), rec),
    {
        let n: usize = self.providers.len();
        let mut i: usize = 0;
        while i < n
            invariant
                n == self.providers@.len(),
                i <= n,
                self.wf(),
                self@ == old(self)@,
                self.providers@ == old(self).providers@,
                forall|j: int| 0 <= j < i ==> prov_key()(#[trigger] self.providers@[j]) != (
                rec.key,
                rec.provider,
                ),
            decreases n - i,
        {
            if self.providers[i].key == rec.key && self.providers[i].provider == rec.provider {
                let ghost before = self.providers@;
                self.providers.set(i, rec);
                proof {
                    lemma_keyed_map_update(before, prov_key(), i as int, rec);
                    assert(distinct_keys(self.providers@, prov_key()));
                }
                return ;
            }
            i = i + 1;
        }
        let ghost before = self.providers@;
        self.providers.push(rec);
        proof {
            lemma_keyed_map_push(before, prov_key(), rec);
            assert(distinct_keys(self.providers@, prov_key()));
        }
    }

    /// The live providers of `key` at `now`, one record per provider.
    pub fn get_providers(&self, key: KeyId, now: u64) -> (out: Vec<ProviderRecord>)
        requires
            self.wf(),
        ensures
            forall|j: int| 0 <= j < out@.len() ==> (#[trigger] out@[j]).key == key && prov_live(
                out@[j],
                now,
            ) && self@.contains_key((key, out@[j].provider)) && self@[(key, out@[j].provider)]
                == out@[j],
            forall|p: PeerId| self@.contains_key((key, p)) && prov_live(
                #[trigger] self@[(key, p)],
                now,
            ) ==> exists|j: int| 0 <= j < out@.len() && out@[j].provider == p,
            forall|a: int, b: int| 0 <= a < b < out@.len() ==> (#[trigger] out@[a]).provider != (
            #[trigger] out@[b]).provider,
    {
        let n: usize = self.providers.len();
        let mut out: Vec<ProviderRecord> = Vec::new();
        let mut i: usize = 0;
        while i < n
            invariant
                n == self.providers@.len(),
                i <= n,
                self.wf(),
                forall|j: int| 0 <= j < out@.len() ==> exists|idx: int| 0 <= idx < i
                    && #[trigger] out@[j] == self.providers@[idx] && self.providers@[idx].key == key
                    && prov_live(self.providers@[idx], now),
                forall|idx: int| 0 <= idx < i && (#[trigger] self.providers@[idx]).key == key
                    && prov_live(self.providers@[idx], now) ==> exists|j: int| 0 <= j < out@.len()
                    && out@[j] == self.providers@[idx],
                forall|a: int, b: int| 0 <= a < b < out@.len() ==> (#[trigger] out@[a]).provider
                    != (#[trigger] out@[b]).provider,
            decreases n - i,
        {
            let matched = self.providers[i].key == key && now < self.providers[i].expires;
            if matched {
                let ghost obefore = out@;
                out.push(self.providers[i]);
                proof {
                    assert(out@[out@.len() - 1] == self.providers@[i as int]);
                    assert forall|a: int, b: int|
                        0 <= a < b < out@.len() implies (#[trigger] out@[a]).provider != (
                    #[trigger] out@[b]).provider by {
                        if b == out@.len() - 1 {
                            let idx = choose|idx: int|
                                0 <= idx < i && obefore[a] == self.providers@[idx]
                                    && self.providers@[idx].key == key && prov_live(
                                    self.providers@[idx],
                                    now,
                                );
                            assert(prov_key()(self.providers@[idx]) != prov_key()(
                                self.providers@[i as int],
                            ));
                        }
                    }
                    assert forall|j: int| 0 <= j < out@.len() implies exists|idx: int|
                        0 <= idx < i + 1 && #[trigger] out@[j] == self.providers@[idx]
                            && self.providers@[idx].key == key && prov_live(
                            self.providers@[idx],
                            now,
                        ) by {
                        if j < out@.len() - 1 {
                            let idx = choose|idx: int|
                                0 <= idx < i && obefore[j] == self.providers@[idx]
                                    && self.providers@[idx].key == key && prov_live(
                                    self.providers@[idx],
                                    now,
                                );
                            assert(out@[j] == self.providers@[idx]);
                        } else {
                            assert(out@[j] == self.providers@[i as int]);
                        }
                    }
                    assert forall|idx: int|
                        0 <= idx < i + 1 && (#[trigger] self.providers@[idx]).key == key
                            && prov_live(self.providers@[idx], now) implies exists|j: int|
                        0 <= j < out@.len() && out@[j] == self.providers@[idx] by {
                        if idx < i {
                            let j = choose|j: int|
                                0 <= j < obefore.len() && obefore[j] == self.providers@[idx];
                            assert(out@[j] == self.providers@[idx]);
                        } else {
                            assert(out@[out@.len() - 1] == self.providers@[idx]);
                        }
                    }
                }
            }
            i = i + 1;
        }
        proof {
            assert forall|j: int| 0 <= j < out@.len() implies (#[trigger] out@[j]).key == key
                && prov_live(out@[j], now) && self@.contains_key((key, out@[j].provider)) && self@[(
                key,
                out@[j].provider,
            )] == out@[j] by {
                let idx = choose|idx: int|
                    0 <= idx < n && out@[j] == self.providers@[idx] && self.providers@[idx].key
                        == key && prov_live(self.providers@[idx], now);
                lemma_keyed_map_at(self.providers@, prov_key(), idx);
            }
            assert forall|p: PeerId| self@.contains_key((key, p)) && prov_live(
                #[trigger] self@[(key, p)],
                now,
            ) implies exists|j: int| 0 <= j < out@.len() && out@[j].provider == p by {
                lemma_keyed_map_dom(self.providers@, prov_key(), (key, p));
                let idx = choose|idx: int|
                    0 <= idx < self.providers@.len() && prov_key()(self.providers@[idx]) == (
                    key,
                    p,
                    );
                lemma_keyed_map_at(self.providers@, prov_key(), idx);
                let j = choose|j: int| 0 <= j < out@.len() && out@[j] == self.providers@[idx];
                assert(out@[j].provider == p);
            }
        }
        out
    }

    /// Withdraw one provider's claim on `key`, if present.
    pub fn remove_provider(&mut self, key: KeyId, provider: PeerId)
        requires
            old(self).wf(),
        ensures
            final(self).wf(),
            final(self)@ == old(self)@.remove((key, provider)),
            final(self).providers@.len() <= old(self).providers@.len(),
            old(self)@.contains_key((key, provider)) ==> final(self).providers@.len() < old(self).providers@.len(),
    {
        let n: usize = self.providers.len();
        let mut i: usize = 0;
        while i < n
            invariant
                n == self.providers@.len(),
                i <= n,
                self.wf(),
                self@ == old(self)@,
                self.providers@ == old(self).providers@,
                forall|j: int| 0 <= j < i ==> prov_key()(#[trigger] self.providers@[j]) != (
                key,
                provider,
                ),
            decreases n - i,
        {
            if self.providers[i].key == key && self.providers[i].provider == provider {
                let ghost before = self.providers@;
                proof {
                    lemma_keyed_map_at(before, prov_key(), i as int);
                }
                self.providers.remove(i);
                proof {
                    lemma_keyed_map_remove(before, prov_key(), i as int);
                    assert forall|a: int, b: int|
                        0 <= a < b < self.providers@.len() implies prov_key()(
                        #[trigger] self.providers@[a],
                    ) != prov_key()(#[trigger] self.providers@[b]) by {
                        if b < i {
                        } else if a < i {
                            assert(self.providers@[b] == before[b + 1]);
                        } else {
                            assert(self.providers@[a] == before[a + 1]);
                            assert(self.providers@[b] == before[b + 1]);
                        }
                    }
                }
                return ;
            }
            i = i + 1;
        }
        proof {
            lemma_keyed_map_dom(self.providers@, prov_key(), (key, provider));
            assert(self@ =~= old(self)@.remove((key, provider)));
        }
    }

    /// Some dead (key, provider) pair at `now`, if any.
    fn find_dead(&self, now: u64) -> (r: Option<(KeyId, PeerId)>)
        requires
            self.wf(),
        ensures
            match r {
                Some(kp) => self@.contains_key(kp) && !prov_live(self@[kp], now),
                None => forall|kp: (KeyId, PeerId)| #[trigger] self@.contains_key(kp)
                    ==> prov_live(self@[kp], now),
            },
    {
        let n: usize = self.providers.len();
        let mut i: usize = 0;
        while i < n
            invariant
                n == self.providers@.len(),
                i <= n,
                self.wf(),
                forall|j: int| 0 <= j < i ==> prov_live(#[trigger] self.providers@[j], now),
            decreases n - i,
        {
            if self.providers[i].expires <= now {
                proof {
                    lemma_keyed_map_at(self.providers@, prov_key(), i as int);
                }
                return Some((self.providers[i].key, self.providers[i].provider));
            }
            i = i + 1;
        }
        proof {
            assert forall|kp: (KeyId, PeerId)| #[trigger] self@.contains_key(kp) implies prov_live(
                self@[kp],
                now,
            ) by {
                lemma_keyed_map_dom(self.providers@, prov_key(), kp);
                let idx = choose|idx: int|
                    0 <= idx < self.providers@.len() && prov_key()(self.providers@[idx]) == kp;
                lemma_keyed_map_at(self.providers@, prov_key(), idx);
            }
        }
        None
    }

    /// Drop every provider record dead at `now`; live ones survive untouched.
    pub fn sweep(&mut self, now: u64)
        requires
            old(self).wf(),
        ensures
            final(self).wf(),
            forall|kp: (KeyId, PeerId)| #[trigger] final(self)@.contains_key(kp) <==> (old(self)@.contains_key(kp) && prov_live(old(self)@[kp], now)),
            forall|kp: (KeyId, PeerId)| #[trigger] final(self)@.contains_key(kp) ==> final(self)@[kp] == old(self)@[kp],
    {
        loop
            invariant
                self.wf(),
                forall|kp: (KeyId, PeerId)| #[trigger] self@.contains_key(kp) ==> old(self)@.contains_key(kp) && self@[kp] == old(self)@[kp],
                forall|kp: (KeyId, PeerId)| old(self)@.contains_key(kp) && prov_live(
                    #[trigger] old(self)@[kp],
                    now,
                ) ==> self@.contains_key(kp),
            decreases self.providers@.len(),
        {
            match self.find_dead(now) {
                Some(kp) => {
                    self.remove_provider(kp.0, kp.1);
                },
                None => {
                    return ;
                },
            }
        }
    }

    /// The live records naming `p` as provider, due for republishing.
    pub fn provided_by(&self, p: PeerId, now: u64) -> (out: Vec<ProviderRecord>)
        requires
            self.wf(),
        ensures
            forall|j: int| 0 <= j < out@.len() ==> (#[trigger] out@[j]).provider == p && prov_live(
                out@[j],
                now,
            ) && self@.contains_key((out@[j].key, p)) && self@[(out@[j].key, p)] == out@[j],
            forall|k: KeyId| self@.contains_key((k, p)) && prov_live(
                #[trigger] self@[(k, p)],
                now,
            ) ==> exists|j: int| 0 <= j < out@.len() && out@[j].key == k,
    {
        let n: usize = self.providers.len();
        let mut out: Vec<ProviderRecord> = Vec::new();
        let mut i: usize = 0;
        while i < n
            invariant
                n == self.providers@.len(),
                i <= n,
                self.wf(),
                forall|j: int| 0 <= j < out@.len() ==> exists|idx: int| 0 <= idx < i
                    && #[trigger] out@[j] == self.providers@[idx] && self.providers@[idx].provider
                    == p && prov_live(self.providers@[idx], now),
                forall|idx: int| 0 <= idx < i && (#[trigger] self.providers@[idx]).provider == p
                    && prov_live(self.providers@[idx], now) ==> exists|j: int| 0 <= j < out@.len()
                    && out@[j] == self.providers@[idx],
            decreases n - i,
        {
            let matched = self.providers[i].provider == p && now < self.providers[i].expires;
            if matched {
                let ghost obefore = out@;
                out.push(self.providers[i]);
                proof {
                    assert(out@[out@.len() - 1] == self.providers@[i as int]);
                    assert forall|j: int| 0 <= j < out@.len() implies exists|idx: int|
                        0 <= idx < i + 1 && #[trigger] out@[j] == self.providers@[idx]
                            && self.providers@[idx].provider == p && prov_live(
                            self.providers@[idx],
                            now,
                        ) by {
                        if j < out@.len() - 1 {
                            let idx = choose|idx: int|
                                0 <= idx < i && obefore[j] == self.providers@[idx]
                                    && self.providers@[idx].provider == p && prov_live(
                                    self.providers@[idx],
                                    now,
                                );
                            assert(out@[j] == self.providers@[idx]);
                        } else {
                            assert(out@[j] == self.providers@[i as int]);
                        }
                    }
                    assert forall|idx: int|
                        0 <= idx < i + 1 && (#[trigger] self.providers@[idx]).provider == p
                            && prov_live(self.providers@[idx], now) implies exists|j: int|
                        0 <= j < out@.len() && out@[j] == self.providers@[idx] by {
                        if idx < i {
                            let j = choose|j: int|
                                0 <= j < obefore.len() && obefore[j] == self.providers@[idx];
                            assert(out@[j] == self.providers@[idx]);
                        } else {
                            assert(out@[out@.len() - 1] == self.providers@[idx]);
                        }
                    }
                }
            }
            i = i + 1;
        }
        proof {
            assert forall|j: int| 0 <= j < out@.len() implies (#[trigger] out@[j]).provider == p
                && prov_live(out@[j], now) && self@.contains_key((out@[j].key, p)) && self@[(
                out@[j].key,
                p,
            )] == out@[j] by {
                let idx = choose|idx: int|
                    0 <= idx < n && out@[j] == self.providers@[idx] && self.providers@[idx].provider
                        == p && prov_live(self.providers@[idx], now);
                lemma_keyed_map_at(self.providers@, prov_key(), idx);
            }
            assert forall|k: KeyId| self@.contains_key((k, p)) && prov_live(
                #[trigger] self@[(k, p)],
                now,
            ) implies exists|j: int| 0 <= j < out@.len() && out@[j].key == k by {
                lemma_keyed_map_dom(self.providers@, prov_key(), (k, p));
                let idx = choose|idx: int|
                    0 <= idx < self.providers@.len() && prov_key()(self.providers@[idx]) == (k, p);
                lemma_keyed_map_at(self.providers@, prov_key(), idx);
                let j = choose|j: int| 0 <= j < out@.len() && out@[j] == self.providers@[idx];
                assert(out@[j].key == k);
            }
        }
        out
    }
}

impl View for ProviderStore {
    type V = Map<(KeyId, PeerId), ProviderRecord>;

    open spec fn view(&self) -> Map<(KeyId, PeerId), ProviderRecord> {
        keyed_map(self.providers@, prov_key())
    }
}

/// A provider stays listed until its record's expiry and no longer: once
/// `rec` is added, the pair (key, provider) maps to a live record exactly
/// at instants strictly before `rec.expires`.
pub proof fn lemma_provider_liveness(
    m: Map<(KeyId, PeerId), ProviderRecord>,
    rec: ProviderRecord,
    t: u64,
)
    ensures
        m.insert((rec.key, rec.provider), rec).contains_key((rec.key, rec.provider)),
        prov_live(m.insert((rec.key, rec.provider), rec)[(rec.key, rec.provider)], t) <==> t
            < rec.expires,
{
}

} // verus!
