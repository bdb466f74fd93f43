//! The routing table: k-buckets over the XOR metric.
//!
//! Entries are kept in one vector, least-recently-seen first within each
//! bucket; a peer's bucket is fixed by its distance from the local
//! identifier, so no peer can sit in two buckets. A full bucket never evicts
//! eagerly: the newcomer is parked as a pending candidate and the
//! least-recently-seen entry is probed; only a failed probe makes room.
//! The table is modelled as the map from PeerId to its entry.

use vstd::prelude::*;
use crate::ident::{KeyId, PeerId, BUCKET_SIZE, NUM_BUCKETS, distance, bucket_of, xor_distance,
    bucket_index, copy_bytes, bytes_eq};
use crate::keyed::{
    keyed_map, distinct_keys, lemma_keyed_map_dom, lemma_keyed_map_at, lemma_keyed_map_push,
    lemma_keyed_map_update, lemma_keyed_map_remove,
};

verus! {

/// What the table knows of one peer.
#[derive(Debug)]
pub struct PeerInfo {
    /// The peer.
    pub peer: PeerId,
    /// Its known addresses, no duplicates among them.
    pub addrs: Vec<Vec<u8>>,
    /// When the peer was last seen.
    pub last_seen: u64,
    /// Whether the last probe (if any) found it alive.
    pub alive: bool,
}

/// Mathematical image of a `PeerInfo`.
pub struct SpecPeerInfo {
    pub peer: PeerId,
    pub addrs: Seq<Seq<u8>>,
    pub last_seen: u64,
    pub alive: bool,
}

/// Address vectors as sequences of byte strings.
pub open spec fn addr_views(v: Seq<Vec<u8>>) -> Seq<Seq<u8>> {
    v.map_values(|a: Vec<u8>| a@)
}

impl View for PeerInfo {
    type V = SpecPeerInfo;

    open spec fn view(&self) -> SpecPeerInfo {
        SpecPeerInfo {
            peer: self.peer,
            addrs: addr_views(self.addrs@),
            last_seen: self.last_seen,
            alive: self.alive,
        }
    }
}

/// An entry vector as a sequence of models.
pub open spec fn info_views(v: Seq<PeerInfo>) -> Seq<SpecPeerInfo> {
    v.map_values(|e: PeerInfo| e@)
}

/// Key function for the table map.
pub open spec fn peer_key() -> spec_fn(SpecPeerInfo) -> PeerId {
    |e: SpecPeerInfo| e.peer
}

/// Key function for the pending list: the bucket a candidate belongs to.
pub open spec fn pend_key(sid: KeyId) -> spec_fn(SpecPeerInfo) -> int {
    |e: SpecPeerInfo| bucket_of(sid, e.peer)
}

/// How many entries of `s` fall in bucket `b` of `sid`.
pub open spec fn bucket_count(s: Seq<SpecPeerInfo>, sid: KeyId, b: int) -> int
    decreases s.len(),
{
    if s.len() == 0 {
        0
    } else {
        bucket_count(s.drop_last(), sid, b) + if bucket_of(sid, s.last().peer) == b {
            1int
        } else {
            0int
        }
    }
}

proof fn lemma_bucket_count_remove(s: Seq<SpecPeerInfo>, sid: KeyId, b: int, i: int)
    requires
        0 <= i < s.len(),
    ensures
        bucket_count(s.remove(i), sid, b) == bucket_count(s, sid, b) - (
        if bucket_of(sid, s[i].peer) == b {
            1int
        } else {
            0int
        }),
    decreases s.len(),
{
    if i == s.len() - 1 {
        assert(s.remove(i) =~= s.drop_last());
    } else {
        assert(s.remove(i).drop_last() =~= s.drop_last().remove(i));
        assert(s.remove(i).last() == s.last());
        lemma_bucket_count_remove(s.drop_last(), sid, b, i);
        assert(s.drop_last()[i] == s[i]);
    }
}

proof fn lemma_bucket_count_nonneg(s: Seq<SpecPeerInfo>, sid: KeyId, b: int)
    ensures
        bucket_count(s, sid, b) >= 0,
    decreases s.len(),
{
    if s.len() > 0 {
        lemma_bucket_count_nonneg(s.drop_last(), sid, b);
    }
}

/// The Kademlia routing table.
pub struct RoutingTable {
    /// The local identifier; distances are measured from it.
    pub self_id: KeyId,
    /// Known peers, least-recently-seen first within each bucket.
    pub entries: Vec<PeerInfo>,
    /// Newcomers parked while the least-recent entry of their full bucket
    /// is probed; at most one per bucket.
    pub pending: Vec<PeerInfo>,
}

impl RoutingTable {
    /// The entries as a sequence of models.
    pub open spec fn infos(self) -> Seq<SpecPeerInfo> {
        info_views(self.entries@)
    }

    /// Bucket capacity, distinctness, and no entry for the local peer.
    pub open spec fn wf(self) -> bool {
        &&& distinct_keys(self.infos(), peer_key())
        &&& forall|i: int| 0 <= i < self.infos().len() ==> (#[trigger] self.infos()[i]).peer
            != self.self_id
        &&& forall|b: int| #[trigger] bucket_count(self.infos(), self.self_id, b) <= BUCKET_SIZE
        &&& distinct_keys(info_views(self.pending@), pend_key(self.self_id))
        &&& forall|i: int| 0 <= i < self.pending@.len() ==> (#[trigger] self.pending@[i]).peer
            != self.self_id
    }

    /// An empty table for the local identifier `sid`.
    pub fn new(sid: KeyId) -> (t: RoutingTable)
        ensures
            t.wf(),
            t@ == Map::<PeerId, SpecPeerInfo>::empty(),
            t.self_id == sid,
            t.entries@.len() == 0,
    {
        let t = RoutingTable { self_id: sid, entries: Vec::new(), pending: Vec::new() };
        proof {
            assert(t.infos() =~= Seq::<SpecPeerInfo>::empty());
            assert(info_views(t.pending@) =~= Seq::<SpecPeerInfo>::empty());
            assert forall|b: int| #[trigger] bucket_count(t.infos(), sid, b) <= BUCKET_SIZE by {}
        }
        t
    }
}

impl View for RoutingTable {
    type V = Map<PeerId, SpecPeerInfo>;

    open spec fn view(&self) -> Map<PeerId, SpecPeerInfo> {
        keyed_map(self.infos(), peer_key())
    }
}

/// The set of addresses a sequence of address strings holds.
pub open spec fn addr_set(s: Seq<Seq<u8>>) -> Set<Seq<u8>> {
    Set::new(|x: Seq<u8>| s.contains(x))
}

/// Whether `a` is among the addresses of `v`.
fn contains_addr(v: &Vec<Vec<u8>>, a: &[u8]) -> (r: bool)
    ensures
        r == addr_views(v@).contains(a@),
{
    let n: usize = v.len();
    let mut i: usize = 0;
    while i < n
        invariant
            n == v@.len(),
            i <= n,
            forall|j: int| 0 <= j < i ==> addr_views(v@)[j] != a@,
        decreases n - i,
    {
        if bytes_eq(v[i].as_slice(), a) {
            proof {
                assert(addr_views(v@)[i as int] == a@);
            }
            return true;
        }
        i = i + 1;
    }
    proof {
        if addr_views(v@).contains(a@) {
            let j = choose|j: int| 0 <= j < addr_views(v@).len() && addr_views(v@)[j] == a@;
            assert(false);
        }
    }
    false
}

/// Merge `src` into `dst`: afterwards `dst` holds the union of both
/// address sets.
fn merge_addrs(dst: &mut Vec<Vec<u8>>, src: &Vec<Vec<u8>>)
    ensures
        addr_set(addr_views(final(dst)@)) == addr_set(addr_views(old(dst)@)).union(
            addr_set(addr_views(src@)),
        ),
{
    let n: usize = src.len();
    proof {
        assert(addr_views(src@).take(0) =~= Seq::<Seq<u8>>::empty());
        assert(addr_set(addr_views(dst@)) =~= addr_set(addr_views(dst@)).union(
            addr_set(addr_views(src@).take(0)),
        ));
    }
    let mut k: usize = 0;
    while k < n
        invariant
            n == src@.len(),
            k <= n,
            addr_set(addr_views(dst@)) == addr_set(addr_views(old(dst)@)).union(
                addr_set(addr_views(src@).take(k as int)),
            ),
        decreases n - k,
    {
        let ghost sk = addr_views(src@);
        let a = copy_bytes(src[k].as_slice());
        let ghost dbefore = addr_views(dst@);
        let present = contains_addr(dst, a.as_slice());
        if !present {
            dst.push(a);
        }
        proof {
            let dafter = addr_views(dst@);
            if !present {
                assert(dafter =~= dbefore.push(sk[k as int]));
            }
            assert forall|x: Seq<u8>| #[trigger] dafter.contains(x) <==> (dbefore.contains(x) || x
                == sk[k as int]) by {
                if present {
                    if x == sk[k as int] {
                        assert(dbefore.contains(x));
                    }
                } else {
                    if dafter.contains(x) {
                        let j = choose|j: int| 0 <= j < dafter.len() && dafter[j] == x;
                        if j < dbefore.len() {
                            assert(dbefore[j] == x);
                        } else {
                            assert(x == sk[k as int]);
                        }
                    }
                    if dbefore.contains(x) {
                        let j = choose|j: int| 0 <= j < dbefore.len() && dbefore[j] == x;
                        assert(dafter[j] == x);
                    }
                    if x == sk[k as int] {
                        assert(dafter[dafter.len() - 1] == x);
                    }
                }
            }
            assert forall|x: Seq<u8>| #[trigger] sk.take(k + 1).contains(x) <==> (sk.take(
                k as int,
            ).contains(x) || x == sk[k as int]) by {
                if sk.take(k + 1).contains(x) {
                    let j = choose|j: int| 0 <= j < k + 1 && #[trigger] sk.take(k + 1)[j] == x;
                    if j < k {
                        assert(sk.take(k as int)[j] == x);
                    }
                }
                if sk.take(k as int).contains(x) {
                    let j = choose|j: int| 0 <= j < k && sk.take(k as int)[j] == x;
                    assert(sk.take(k + 1)[j] == x);
                }
                if x == sk[k as int] {
                    assert(sk.take(k + 1)[k as int] == x);
                }
            }
            assert forall|x: Seq<u8>| #[trigger] addr_set(dafter).contains(x) == addr_set(
                addr_views(old(dst)@),
            ).union(addr_set(sk.take(k + 1))).contains(x) by {
                assert(addr_set(dafter).contains(x) == dafter.contains(x));
                assert(addr_set(sk.take(k + 1)).contains(x) == sk.take(k + 1).contains(x));
                assert(addr_set(sk.take(k as int)).contains(x) == sk.take(k as int).contains(x));
                assert(addr_set(dbefore).contains(x) == dbefore.contains(x));
                assert(dbefore.contains(x) == (addr_set(addr_views(old(dst)@)).contains(x)
                    || sk.take(k as int).contains(x)));
            }
            assert(addr_set(dafter) =~= addr_set(addr_views(old(dst)@)).union(
                addr_set(sk.take(k + 1)),
            ));
        }
        k = k + 1;
    }
    proof {
        assert(addr_views(src@).take(n as int) =~= addr_views(src@));
    }
}

/// Cloned address list, same sequence of byte strings.
fn clone_addrs(v: &Vec<Vec<u8>>) -> (out: Vec<Vec<u8>>)
    ensures
        addr_views(out@) == addr_views(v@),
{
    let n: usize = v.len();
    let mut out: Vec<Vec<u8>> = Vec::new();
    let mut i: usize = 0;
    while i < n
        invariant
            n == v@.len(),
            i <= n,
            out@.len() == i,
            forall|j: int| 0 <= j < i ==> addr_views(out@)[j] == addr_views(v@)[j],
        decreases n - i,
    {
        out.push(copy_bytes(v[i].as_slice()));
        i = i + 1;
    }
    proof {
        assert(addr_views(out@) =~= addr_views(v@));
    }
    out
}

/// Cloned entry, same model.
fn clone_info(e: &PeerInfo) -> (out: PeerInfo)
    ensures
        out@ == e@,
{
    PeerInfo {
        peer: e.peer,
        addrs: clone_addrs(&e.addrs),
        last_seen: e.last_seen,
        alive: e.alive,
    }
}

/// What `add_or_update` did with the peer.
#[derive(Clone, Copy, PartialEq, Eq, Structural, Debug)]
pub enum AddResult {
    /// The peer is the local one; nothing to record.
    SelfEntry,
    /// The peer was known: refreshed and moved to most-recently-seen.
    Updated,
    /// The peer was new and its bucket had room.
    Inserted,
    /// The bucket is full: the newcomer is parked and the given
    /// least-recently-seen entry should be probed.
    BucketFull { probe: PeerId },
}

impl RoutingTable {
    /// Record a discovery or contact: refresh a known peer (uniting the
    /// address sets), insert a new one while its bucket has room, and park
    /// it as pending otherwise, naming the entry to probe.
    pub fn add_or_update(&mut self, peer: PeerId, addrs: Vec<Vec<u8>>, now: u64) -> (res:
        AddResult)
        requires
            old(self).wf(),
        ensures
            final(self).wf(),
            final(self).self_id == old(self).self_id,
            (res == AddResult::SelfEntry) <==> (peer == old(self).self_id),
            res == AddResult::SelfEntry ==> final(self)@ == old(self)@ && final(self).pending@
                == old(self).pending@,
            (res == AddResult::Updated) <==> (peer != old(self).self_id && old(
                self,
            )@.contains_key(peer)),
            res == AddResult::Updated ==> {
                let e0 = old(self)@[peer];
                let e1 = final(self)@[peer];
                &&& final(self)@ == old(self)@.insert(peer, e1)
                &&& e1.peer == peer
                &&& e1.last_seen == now
                &&& e1.alive == e0.alive
                &&& addr_set(e1.addrs) == addr_set(e0.addrs).union(addr_set(addr_views(addrs@)))
                &&& final(self).pending@ == old(self).pending@
            },
            res == AddResult::Inserted ==> !old(self)@.contains_key(peer) && bucket_count(
                old(self).infos(),
                old(self).self_id,
                bucket_of(old(self).self_id, peer),
            ) < BUCKET_SIZE && final(self)@ == old(
                self,
            )@.insert(
                peer,
                SpecPeerInfo {
                    peer: peer,
                    addrs: addr_views(addrs@),
                    last_seen: now,
                    alive: true,
                },
            ) && final(self).pending@ == old(self).pending@,
            (res matches AddResult::BucketFull { .. }) ==> !old(self)@.contains_key(peer) && peer
                != old(self).self_id && bucket_count(
                old(self).infos(),
                old(self).self_id,
                bucket_of(old(self).self_id, peer),
            ) == BUCKET_SIZE && final(self)@ == old(self)@,
            match res {
                AddResult::BucketFull { probe } => old(self)@.contains_key(probe) && bucket_of(
                    old(self).self_id,
                    probe,
                ) == bucket_of(old(self).self_id, peer),
                _ => true,
            },
    {
        if peer == self.self_id {
            return AddResult::SelfEntry;
        }
        let b: usize = bucket_index(xor_distance(self.self_id, peer));
        // Refresh a known peer.
        let n: usize = self.entries.len();
        let mut i: usize = 0;
        while i < n
            invariant
                n == self.entries@.len(),
                i <= n,
                self.wf(),
                self == old(self),
                peer != self.self_id,
                forall|j: int| 0 <= j < i ==> (#[trigger] self.infos()[j]).peer != peer,
            decreases n - i,
        {
            if self.entries[i].peer == peer {
                proof {
                    lemma_keyed_map_at(self.infos(), peer_key(), i as int);
                }
                let ghost before = self.infos();
                let mut e = self.entries.remove(i);
                proof {
                    assert(self.infos() =~= before.remove(i as int));
                    lemma_keyed_map_remove(before, peer_key(), i as int);
                }
                merge_addrs(&mut e.addrs, &addrs);
                e.last_seen = now;
                let ghost mid = self.infos();
                self.entries.push(e);
                proof {
                    assert(self.infos() =~= mid.push(e@));
                    lemma_keyed_map_push(mid, peer_key(), e@);
                    assert forall|a: int, c: int|
                        0 <= a < c < self.infos().len() implies peer_key()(
                        #[trigger] self.infos()[a],
                    ) != peer_key()(#[trigger] self.infos()[c]) by {
                        if c < mid.len() {
                            assert(mid[a] == if a < i { before[a] } else { before[a + 1] });
                            assert(mid[c] == if c < i { before[c] } else { before[c + 1] });
                        } else {
                            assert(mid[a] == if a < i { before[a] } else { before[a + 1] });
                            lemma_keyed_map_dom(mid, peer_key(), peer);
                        }
                    }
                    assert forall|bb: int| #[trigger] bucket_count(
                        self.infos(),
                        self.self_id,
                        bb,
                    ) <= BUCKET_SIZE by {
                        lemma_bucket_count_remove(before, self.self_id, bb, i as int);
                        assert(self.infos().drop_last() =~= mid);
                    }
                    assert forall|j: int| 0 <= j < self.infos().len() implies (
                    #[trigger] self.infos()[j]).peer != self.self_id by {
                        if j < mid.len() {
                            assert(mid[j] == if j < i { before[j] } else { before[j + 1] });
                        }
                    }
                    assert(self@ =~= old(self)@.insert(peer, e@));
                }
                return AddResult::Updated;
            }
            i = i + 1;
        }
        proof {
            lemma_keyed_map_dom(self.infos(), peer_key(), peer);
        }
        // The peer is new: count its bucket.
        let mut c: usize = 0;
        let mut j: usize = 0;
        while j < n
            invariant
                n == self.entries@.len(),
                j <= n,
                self.wf(),
                self == old(self),
                c == bucket_count(self.infos().take(j as int), self.self_id, b as int),
                c <= j,
            decreases n - j,
        {
            let jb = bucket_index(xor_distance(self.self_id, self.entries[j].peer));
            proof {
                assert(self.infos().take(j + 1 as int).drop_last() =~= self.infos().take(
                    j as int,
                ));
                assert(self.infos().take(j + 1 as int).last() == self.infos()[j as int]);
            }
            if jb == b {
                c = c + 1;
            }
            j = j + 1;
        }
        proof {
            assert(self.infos().take(n as int) =~= self.infos());
        }
        if c < BUCKET_SIZE {
            // Room: insert as most-recently-seen of its bucket.
            let e = PeerInfo { peer: peer, addrs: addrs, last_seen: now, alive: true };
            let ghost before = self.infos();
            self.entries.push(e);
            proof {
                assert(self.infos() =~= before.push(e@));
                lemma_keyed_map_push(before, peer_key(), e@);
                assert forall|a: int, cc: int|
                    0 <= a < cc < self.infos().len() implies peer_key()(
                    #[trigger] self.infos()[a],
                ) != peer_key()(#[trigger] self.infos()[cc]) by {
                    if cc == self.infos().len() - 1 {
                        assert(self.infos()[a] == before[a]);
                    }
                }
                assert forall|bb: int| #[trigger] bucket_count(
                    self.infos(),
                    self.self_id,
                    bb,
                ) <= BUCKET_SIZE by {
                    assert(self.infos().drop_last() =~= before);
                    lemma_bucket_count_nonneg(before, self.self_id, bb);
                    if bb != b as int {
                        assert(bucket_count(self.infos(), self.self_id, bb) == bucket_count(
                            before,
                            self.self_id,
                            bb,
                        ));
                    }
                }
            }
            return AddResult::Inserted;
        }
        // Full: park the newcomer, name the least-recently-seen entry.
        let mut p: usize = 0;
        let mut probe: PeerId = peer;
        let mut found: bool = false;
        while p < n && !found
            invariant
                n == self.entries@.len(),
                p <= n,
                self.wf(),
                self == old(self),
                !found ==> forall|q: int| 0 <= q < p ==> bucket_of(
                    self.self_id,
                    (#[trigger] self.infos()[q]).peer,
                ) != b as int,
                found ==> self@.contains_key(probe) && bucket_of(self.self_id, probe) == b as int,
            decreases n - p + if found {
                0int
            } else {
                1int
            },
        {
            let pb = bucket_index(xor_distance(self.self_id, self.entries[p].peer));
            if pb == b {
                probe = self.entries[p].peer;
                found = true;
                proof {
                    lemma_keyed_map_at(self.infos(), peer_key(), p as int);
                }
            } else {
                p = p + 1;
            }
        }
        proof {
            if !found {
                lemma_bucket_count_all_missed(self.infos(), self.self_id, b as int);
                assert(false);
            }
        }
        // Replace or add the pending candidate for this bucket.
        let cand = PeerInfo { peer: peer, addrs: addrs, last_seen: now, alive: false };
        let m: usize = self.pending.len();
        let mut q: usize = 0;
        let mut done: bool = false;
        while q < m && !done
            invariant
                q <= m,
                self.wf(),
                cand@.peer == peer,
                peer != self.self_id,
                b as int == bucket_of(self.self_id, peer),
                self.self_id == old(self).self_id,
                done ==> self@ == old(self)@,
                !done ==> self == old(self) && m == self.pending@.len(),
                !done ==> forall|j: int| 0 <= j < q ==> pend_key(self.self_id)(
                    #[trigger] info_views(self.pending@)[j],
                ) != b as int,
            decreases m - q + if done {
                0int
            } else {
                1int
            },
        {
            let qb = bucket_index(xor_distance(self.self_id, self.pending[q].peer));
            if qb == b {
                let ghost pbefore = info_views(self.pending@);
                proof {
                    assert(distinct_keys(pbefore, pend_key(self.self_id)));
                    assert(pend_key(self.self_id)(pbefore[q as int]) == b as int);
                }
                self.pending.set(q, clone_info(&cand));
                proof {
                    assert(info_views(self.pending@) =~= pbefore.update(q as int, cand@));
                    assert(pend_key(self.self_id)(cand@) == b as int);
                    assert forall|i2: int| 0 <= i2 < self.pending@.len() implies (
                    #[trigger] self.pending@[i2]).peer != self.self_id by {
                        if i2 != q {
                            assert(self.pending@[i2] == old(self).pending@[i2]);
                        }
                    }
                    assert forall|a: int, cc: int|
                        0 <= a < cc < info_views(self.pending@).len() implies pend_key(
                        self.self_id,
                    )(#[trigger] info_views(self.pending@)[a]) != pend_key(self.self_id)(
                        #[trigger] info_views(self.pending@)[cc],
                    ) by {
                        if a != q && cc != q {
                            assert(info_views(self.pending@)[a] == pbefore[a]);
                            assert(info_views(self.pending@)[cc] == pbefore[cc]);
                        } else if a == q {
                            assert(info_views(self.pending@)[cc] == pbefore[cc]);
                            assert(pend_key(self.self_id)(pbefore[q as int]) != pend_key(
                                self.self_id,
                            )(pbefore[cc]));
                        } else {
                            assert(info_views(self.pending@)[a] == pbefore[a]);
                            assert(pend_key(self.self_id)(pbefore[a]) != pend_key(self.self_id)(
                                pbefore[q as int],
                            ));
                        }
                    }
                }
                done = true;
            } else {
                q = q + 1;
            }
        }
        if !done {
            let ghost pbefore = info_views(self.pending@);
            let ghost cv = cand@;
            self.pending.push(cand);
            proof {
                assert(info_views(self.pending@) =~= pbefore.push(cv));
                assert(pend_key(self.self_id)(cv) == b as int);
                assert forall|a: int, cc: int|
                    0 <= a < cc < info_views(self.pending@).len() implies pend_key(self.self_id)(
                    #[trigger] info_views(self.pending@)[a]) != pend_key(self.self_id)(
                    #[trigger] info_views(self.pending@)[cc]) by {
                    if cc == info_views(self.pending@).len() - 1 {
                        assert(info_views(self.pending@)[a] == pbefore[a]);
                        assert(pend_key(self.self_id)(pbefore[a]) != b as int);
                    }
                }
                assert forall|i2: int| 0 <= i2 < self.pending@.len() implies (
                #[trigger] self.pending@[i2]).peer != self.self_id by {
                    if i2 < self.pending@.len() - 1 {
                        assert(self.pending@[i2] == old(self).pending@[i2]);
                    }
                }
            }
        }
        AddResult::BucketFull { probe }
    }
}

/// Non-decreasing XOR distance from `target` along `s`.
pub open spec fn sorted_by_dist(target: KeyId, s: Seq<SpecPeerInfo>) -> bool {
    forall|a: int, b: int| 0 <= a < b < s.len() ==> distance(target, (#[trigger] s[a]).peer)
        <= distance(target, (#[trigger] s[b]).peer)
}

/// Pairwise distinct peers along `s`.
pub open spec fn distinct_peers(s: Seq<SpecPeerInfo>) -> bool {
    forall|a: int, b: int| 0 <= a < b < s.len() ==> (#[trigger] s[a]).peer != (
    #[trigger] s[b]).peer
}

/// Insert `e` into a distance-sorted vector, keeping it sorted.
#[verifier::rlimit(100)]
fn insert_by_distance(v: &mut Vec<PeerInfo>, e: PeerInfo, target: KeyId)
    requires
        sorted_by_dist(target, info_views(old(v)@)),
        distinct_peers(info_views(old(v)@)),
        forall|j: int| 0 <= j < info_views(old(v)@).len() ==> (#[trigger] info_views(
            old(v)@,
        )[j]).peer != e@.peer,
    ensures
        sorted_by_dist(target, info_views(final(v)@)),
        distinct_peers(info_views(final(v)@)),
        info_views(final(v)@).len() == info_views(old(v)@).len() + 1,
        forall|x: SpecPeerInfo| #[trigger] info_views(final(v)@).contains(x) <==> (info_views(
            old(v)@,
        ).contains(x) || x == e@),
{
    let de = xor_distance(target, e.peer);
    let m: usize = v.len();
    let mut p: usize = 0;
    let mut stop = false;
    while p < m && !stop
        invariant
            p <= m,
            m == info_views(v@).len(),
            v@ == old(v)@,
            de == distance(target, e@.peer),
            sorted_by_dist(target, info_views(v@)),
            forall|q: int| 0 <= q < p ==> distance(
                target,
                (#[trigger] info_views(v@)[q]).peer,
            ) <= de,
            stop ==> p < m && distance(target, info_views(v@)[p as int].peer) > de,
        decreases m - p + if stop {
            0int
        } else {
            1int
        },
    {
        if xor_distance(target, v[p].peer) <= de {
            p = p + 1;
        } else {
            stop = true;
        }
    }
    let ghost sold = info_views(v@);
    let ghost ev = e@;
    v.insert(p, e);
    proof {
        assert(info_views(v@) =~= sold.insert(p as int, ev));
        let snew = info_views(v@);
        assert forall|x: int| 0 <= x < snew.len() implies snew[x] == (if x < p {
            sold[x]
        } else if x == p {
            ev
        } else {
            sold[x - 1]
        }) by {}
        assert forall|a: int, b: int| 0 <= a < b < snew.len() implies distance(
            target,
            (#[trigger] snew[a]).peer,
        ) <= distance(target, (#[trigger] snew[b]).peer) by {
            if b == p {
                assert(distance(target, snew[a].peer) <= de);
            } else if a == p && b > p {
                assert(distance(target, sold[b - 1].peer) >= de);
            }
        }
        assert forall|x: SpecPeerInfo| #[trigger] snew.contains(x) implies (sold.contains(x) || x
            == ev) by {
            let j = choose|j: int| 0 <= j < snew.len() && snew[j] == x;
            if j < p {
                assert(sold[j] == x);
            } else if j > p {
                assert(sold[j - 1] == x);
            }
        }
        assert forall|x: SpecPeerInfo| (sold.contains(x) || x == ev) implies #[trigger] snew.contains(
            x,
        ) by {
            if sold.contains(x) {
                let j = choose|j: int| 0 <= j < sold.len() && sold[j] == x;
                if j < p {
                    assert(snew[j] == x);
                } else {
                    assert(snew[j + 1] == x);
                }
            } else {
                assert(snew[p as int] == x);
            }
        }
    }
}

impl RoutingTable {
    /// The peers closest to `target`, in non-decreasing XOR distance, no
    /// peer twice, at most `n` of them; every table peer left out is at
    /// least as far as each returned one.
    #[verifier::rlimit(100)]
    pub fn find_closest(&self, target: KeyId, n: usize) -> (out: Vec<PeerInfo>)
        requires
            self.wf(),
        ensures
            sorted_by_dist(target, info_views(out@)),
            distinct_peers(info_views(out@)),
            forall|j: int| 0 <= j < info_views(out@).len() ==> self@.contains_key(
                (#[trigger] info_views(out@)[j]).peer,
            ) && self@[info_views(out@)[j].peer] == info_views(out@)[j],
            out@.len() == if n as int <= self.entries@.len() {
                n as int
            } else {
                self.entries@.len() as int
            },
            forall|q: PeerId, j: int|
                #[trigger] self@.contains_key(q) && 0 <= j < info_views(out@).len() && (forall|
                    j2: int,
                | 0 <= j2 < info_views(out@).len() ==> (#[trigger] info_views(out@)[j2]).peer
                    != q) ==> distance(target, (#[trigger] info_views(out@)[j]).peer) <= distance(
                    target,
                    q,
                ),
    {
        let total: usize = self.entries.len();
        let mut sorted: Vec<PeerInfo> = Vec::new();
        let mut i: usize = 0;
        while i < total
            invariant
                total == self.entries@.len(),
                i <= total,
                self.wf(),
                info_views(sorted@).len() == i,
                sorted_by_dist(target, info_views(sorted@)),
                distinct_peers(info_views(sorted@)),
                forall|j: int| 0 <= j < i ==> info_views(sorted@).contains(
                    #[trigger] self.infos()[j],
                ),
                forall|x: SpecPeerInfo| #[trigger] info_views(sorted@).contains(x) ==> exists|
                    j: int,
                | 0 <= j < i && self.infos()[j] == x,
            decreases total - i,
        {
            let e = clone_info(&self.entries[i]);
            proof {
                assert(e@ == self.infos()[i as int]);
                assert forall|j: int| 0 <= j < info_views(sorted@).len() implies (
                #[trigger] info_views(sorted@)[j]).peer != e@.peer by {
                    assert(info_views(sorted@).contains(info_views(sorted@)[j]));
                    let jo = choose|jo: int|
                        0 <= jo < i && self.infos()[jo] == info_views(sorted@)[j];
                    assert(peer_key()(self.infos()[jo]) != peer_key()(self.infos()[i as int]));
                }
            }
            let ghost sold = info_views(sorted@);
            insert_by_distance(&mut sorted, e, target);
            proof {
                assert forall|j: int| 0 <= j < i + 1 implies info_views(sorted@).contains(
                    #[trigger] self.infos()[j],
                ) by {
                    if j < i {
                        assert(sold.contains(self.infos()[j]));
                    }
                }
            }
            i = i + 1;
        }
        let keep: usize = if n < total {
            n
        } else {
            total
        };
        let ghost full = info_views(sorted@);
        sorted.truncate(keep);
        proof {
            assert(info_views(sorted@) =~= full.take(keep as int));
            assert forall|j: int| 0 <= j < info_views(sorted@).len() implies self@.contains_key(
                (#[trigger] info_views(sorted@)[j]).peer,
            ) && self@[info_views(sorted@)[j].peer] == info_views(sorted@)[j] by {
                assert(full.contains(full[j]));
                let idx = choose|idx: int| 0 <= idx < total && self.infos()[idx] == full[j];
                lemma_keyed_map_at(self.infos(), peer_key(), idx);
            }
            assert forall|q: PeerId, j: int|
                #[trigger] self@.contains_key(q) && 0 <= j < info_views(sorted@).len() && (forall|
                    j2: int,
                | 0 <= j2 < info_views(sorted@).len() ==> (#[trigger] info_views(
                    sorted@,
                )[j2]).peer != q) implies distance(
                target,
                (#[trigger] info_views(sorted@)[j]).peer,
            ) <= distance(target, q) by {
                lemma_keyed_map_dom(self.infos(), peer_key(), q);
                let idx = choose|idx: int|
                    0 <= idx < self.infos().len() && peer_key()(#[trigger] self.infos()[idx]) == q;
                assert(full.contains(self.infos()[idx]));
                let jj = choose|jj: int| 0 <= jj < full.len() && full[jj] == self.infos()[idx];
                if jj < keep {
                    assert((info_views(sorted@)[jj]).peer == q);
                    assert(false);
                }
                assert(distance(target, full[j].peer) <= distance(target, full[jj].peer));
            }
        }
        sorted
    }
}

/// The pending candidate parked for bucket `b`, if any.
pub open spec fn first_pending(s: Seq<SpecPeerInfo>, sid: KeyId, b: int) -> Option<SpecPeerInfo>
    decreases s.len(),
{
    if s.len() == 0 {
        None
    } else if bucket_of(sid, s[0].peer) == b {
        Some(s[0])
    } else {
        first_pending(s.drop_first(), sid, b)
    }
}

proof fn lemma_first_pending_scan(s: Seq<SpecPeerInfo>, sid: KeyId, b: int, i: int)
    requires
        0 <= i <= s.len(),
        forall|j: int| 0 <= j < i ==> bucket_of(sid, (#[trigger] s[j]).peer) != b,
        i < s.len() ==> bucket_of(sid, s[i].peer) == b,
    ensures
        first_pending(s, sid, b) == (if i < s.len() {
            Some(s[i])
        } else {
            Option::<SpecPeerInfo>::None
        }),
    decreases s.len(),
{
    if s.len() == 0 {
    } else if bucket_of(sid, s[0].peer) == b {
    } else {
        let t = s.drop_first();
        assert(forall|j: int| 0 <= j < i - 1 ==> bucket_of(sid, (#[trigger] t[j]).peer) != b);
        lemma_first_pending_scan(t, sid, b, i - 1);
    }
}

impl RoutingTable {
    /// Drop the entry for `peer`, if any; buckets only shrink.
    pub fn remove_peer(&mut self, peer: PeerId)
        requires
            old(self).wf(),
        ensures
            final(self).wf(),
            final(self).self_id == old(self).self_id,
            final(self)@ == old(self)@.remove(peer),
            final(self).pending@ == old(self).pending@,
            forall|bb: int| #[trigger] bucket_count(final(self).infos(), final(self).self_id, bb)
                == bucket_count(old(self).infos(), old(self).self_id, bb) - (if old(
                self,
            )@.contains_key(peer) && bucket_of(old(self).self_id, peer) == bb {
                1int
            } else {
                0int
            }),
    {
        let n: usize = self.entries.len();
        let mut i: usize = 0;
        while i < n
            invariant
                n == self.entries@.len(),
                i <= n,
                self.wf(),
                self == old(self),
                forall|j: int| 0 <= j < i ==> (#[trigger] self.infos()[j]).peer != peer,
            decreases n - i,
        {
            if self.entries[i].peer == peer {
                proof {
                    lemma_keyed_map_at(self.infos(), peer_key(), i as int);
                }
                let ghost before = self.infos();
                self.entries.remove(i);
                proof {
                    assert(self.infos() =~= before.remove(i as int));
                    lemma_keyed_map_remove(before, peer_key(), i as int);
                    assert forall|a: int, c: int|
                        0 <= a < c < self.infos().len() implies peer_key()(
                        #[trigger] self.infos()[a],
                    ) != peer_key()(#[trigger] self.infos()[c]) by {
                        assert(self.infos()[a] == if a < i {
                            before[a]
                        } else {
                            before[a + 1]
                        });
                        assert(self.infos()[c] == if c < i {
                            before[c]
                        } else {
                            before[c + 1]
                        });
                    }
                    assert forall|j: int| 0 <= j < self.infos().len() implies (
                    #[trigger] self.infos()[j]).peer != self.self_id by {
                        assert(self.infos()[j] == if j < i {
                            before[j]
                        } else {
                            before[j + 1]
                        });
                    }
                    assert forall|bb: int| #[trigger] bucket_count(
                        self.infos(),
                        self.self_id,
                        bb,
                    ) == bucket_count(before, self.self_id, bb) - (if bucket_of(
                        self.self_id,
                        peer,
                    ) == bb {
                        1int
                    } else {
                        0int
                    }) by {
                        lemma_bucket_count_remove(before, self.self_id, bb, i as int);
                    }
                }
                return ;
            }
            i = i + 1;
        }
        proof {
            lemma_keyed_map_dom(self.infos(), peer_key(), peer);
            assert(self@ =~= old(self)@.remove(peer));
        }
    }

    /// Drop the pending candidate of bucket `b`, if any.
    fn drop_pending(&mut self, b: usize)
        requires
            old(self).wf(),
            b < NUM_BUCKETS,
        ensures
            final(self).wf(),
            final(self).self_id == old(self).self_id,
            final(self).entries@ == old(self).entries@,
            forall|x: SpecPeerInfo| #[trigger] info_views(final(self).pending@).contains(x) <==> (
            info_views(old(self).pending@).contains(x) && pend_key(final(self).self_id)(x)
                != b as int),
    {
        let m: usize = self.pending.len();
        let mut q: usize = 0;
        while q < m
            invariant
                m == self.pending@.len(),
                q <= m,
                self.wf(),
                self == old(self),
                b < NUM_BUCKETS,
                forall|j: int| 0 <= j < q ==> pend_key(self.self_id)(
                    #[trigger] info_views(self.pending@)[j],
                ) != b as int,
            decreases m - q,
        {
            let qb = bucket_index(xor_distance(self.self_id, self.pending[q].peer));
            if qb == b {
                let ghost pbefore = info_views(self.pending@);
                self.pending.remove(q);
                proof {
                    assert(info_views(self.pending@) =~= pbefore.remove(q as int));
                    let pafter = info_views(self.pending@);
                    assert forall|a: int, c: int|
                        0 <= a < c < pafter.len() implies pend_key(self.self_id)(
                        #[trigger] pafter[a],
                    ) != pend_key(self.self_id)(#[trigger] pafter[c]) by {
                        assert(pafter[a] == if a < q {
                            pbefore[a]
                        } else {
                            pbefore[a + 1]
                        });
                        assert(pafter[c] == if c < q {
                            pbefore[c]
                        } else {
                            pbefore[c + 1]
                        });
                    }
                    assert forall|j: int| 0 <= j < self.pending@.len() implies (
                    #[trigger] self.pending@[j]).peer != self.self_id by {
                        assert(self.pending@[j] == if j < q {
                            old(self).pending@[j]
                        } else {
                            old(self).pending@[j + 1]
                        });
                    }
                    assert forall|x: SpecPeerInfo| #[trigger] pafter.contains(x) implies (
                    pbefore.contains(x) && pend_key(self.self_id)(x) != b as int) by {
                        let j = choose|j: int| 0 <= j < pafter.len() && pafter[j] == x;
                        if j < q {
                            assert(pbefore[j] == x);
                            assert(pend_key(self.self_id)(pbefore[q as int]) != pend_key(
                                self.self_id,
                            )(pbefore[j]));
                        } else {
                            assert(pbefore[j + 1] == x);
                            assert(pend_key(self.self_id)(pbefore[q as int]) != pend_key(
                                self.self_id,
                            )(pbefore[j + 1]));
                        }
                    }
                    assert forall|x: SpecPeerInfo| (pbefore.contains(x) && pend_key(self.self_id)(
                        x,
                    ) != b as int) implies #[trigger] pafter.contains(x) by {
                        let j = choose|j: int| 0 <= j < pbefore.len() && pbefore[j] == x;
                        if j < q {
                            assert(pafter[j] == x);
                        } else if j > q {
                            assert(pafter[j - 1] == x);
                        }
                    }
                }
                return ;
            }
            q = q + 1;
        }
        proof {
            assert forall|x: SpecPeerInfo| #[trigger] info_views(self.pending@).contains(
                x,
            ) implies pend_key(self.self_id)(x) != b as int by {
                let j = choose|j: int|
                    0 <= j < info_views(self.pending@).len() && info_views(self.pending@)[j] == x;
            }
        }
    }

    /// Take the pending candidate of bucket `b` out, if one is parked.
    fn take_pending(&mut self, b: usize) -> (r: Option<PeerInfo>)
        requires
            old(self).wf(),
            b < NUM_BUCKETS,
        ensures
            final(self).wf(),
            final(self).self_id == old(self).self_id,
            final(self).entries@ == old(self).entries@,
            match r {
                Some(c) => first_pending(
                    info_views(old(self).pending@),
                    old(self).self_id,
                    b as int,
                ) == Some(c@) && bucket_of(old(self).self_id, c@.peer) == b as int && c@.peer
                    != old(self).self_id,
                None => first_pending(info_views(old(self).pending@), old(self).self_id, b as int)
                    is None,
            },
            forall|x: SpecPeerInfo| #[trigger] info_views(final(self).pending@).contains(x) ==> (
            info_views(old(self).pending@).contains(x)),
    {
        let m: usize = self.pending.len();
        let mut q: usize = 0;
        while q < m
            invariant
                m == self.pending@.len(),
                q <= m,
                self.wf(),
                self == old(self),
                b < NUM_BUCKETS,
                forall|j: int| 0 <= j < q ==> bucket_of(
                    self.self_id,
                    (#[trigger] info_views(self.pending@)[j]).peer,
                ) != b as int,
            decreases m - q,
        {
            let qb = bucket_index(xor_distance(self.self_id, self.pending[q].peer));
            if qb == b {
                proof {
                    lemma_first_pending_scan(
                        info_views(self.pending@),
                        self.self_id,
                        b as int,
                        q as int,
                    );
                }
                let ghost pbefore = info_views(self.pending@);
                let c = self.pending.remove(q);
                proof {
                    assert(info_views(self.pending@) =~= pbefore.remove(q as int));
                    let pafter = info_views(self.pending@);
                    assert forall|a: int, cc: int|
                        0 <= a < cc < pafter.len() implies pend_key(self.self_id)(
                        #[trigger] pafter[a],
                    ) != pend_key(self.self_id)(#[trigger] pafter[cc]) by {
                        assert(pafter[a] == if a < q {
                            pbefore[a]
                        } else {
                            pbefore[a + 1]
                        });
                        assert(pafter[cc] == if cc < q {
                            pbefore[cc]
                        } else {
                            pbefore[cc + 1]
                        });
                    }
                    assert forall|j: int| 0 <= j < self.pending@.len() implies (
                    #[trigger] self.pending@[j]).peer != self.self_id by {
                        assert(self.pending@[j] == if j < q {
                            old(self).pending@[j]
                        } else {
                            old(self).pending@[j + 1]
                        });
                    }
                    assert forall|x: SpecPeerInfo| #[trigger] pafter.contains(x) implies
                        pbefore.contains(x) by {
                        let j = choose|j: int| 0 <= j < pafter.len() && pafter[j] == x;
                        if j < q {
                            assert(pbefore[j] == x);
                        } else {
                            assert(pbefore[j + 1] == x);
                        }
                    }
                }
                return Some(c);
            }
            q = q + 1;
        }
        proof {
            lemma_first_pending_scan(info_views(self.pending@), self.self_id, b as int, m as int);
        }
        None
    }

    /// Digest a probe answer for `peer`. A success refreshes the entry and
    /// discards the bucket's parked newcomer; a failure evicts the entry
    /// and promotes the newcomer in its place.
    pub fn on_probe(&mut self, peer: PeerId, success: bool, now: u64)
        requires
            old(self).wf(),
        ensures
            final(self).wf(),
            final(self).self_id == old(self).self_id,
            !old(self)@.contains_key(peer) ==> final(self)@ == old(self)@,
            success && old(self)@.contains_key(peer) ==> final(self)@ == old(self)@.insert(
                peer,
                SpecPeerInfo {
                    peer: peer,
                    addrs: old(self)@[peer].addrs,
                    last_seen: now,
                    alive: true,
                },
            ),
            !success && old(self)@.contains_key(peer) ==> {
                let mid = old(self)@.remove(peer);
                match first_pending(
                    info_views(old(self).pending@),
                    old(self).self_id,
                    bucket_of(old(self).self_id, peer),
                ) {
                    Some(c) => if !mid.contains_key(c.peer) {
                        final(self)@ == mid.insert(
                            c.peer,
                            SpecPeerInfo {
                                peer: c.peer,
                                addrs: c.addrs,
                                last_seen: c.last_seen,
                                alive: true,
                            },
                        )
                    } else {
                        final(self)@.dom() == mid.dom() && forall|k: PeerId|
                            #[trigger] mid.contains_key(k) && k != c.peer ==> final(self)@[k]
                                == mid[k]
                    },
                    None => final(self)@ == mid,
                }
            },
    {
        if peer == self.self_id {
            proof {
                lemma_keyed_map_dom(self.infos(), peer_key(), peer);
            }
            return ;
        }
        let b: usize = bucket_index(xor_distance(self.self_id, peer));
        if success {
            let n: usize = self.entries.len();
            let mut i: usize = 0;
            while i < n
                invariant
                    n == self.entries@.len(),
                    i <= n,
                    self.wf(),
                    self == old(self),
                    success,
                    peer != self.self_id,
                    b < NUM_BUCKETS,
                    b as int == bucket_of(self.self_id, peer),
                    forall|j: int| 0 <= j < i ==> (#[trigger] self.infos()[j]).peer != peer,
                decreases n - i,
            {
                if self.entries[i].peer == peer {
                    proof {
                        lemma_keyed_map_at(self.infos(), peer_key(), i as int);
                    }
                    let ghost before = self.infos();
                    let mut e = self.entries.remove(i);
                    proof {
                        assert(self.infos() =~= before.remove(i as int));
                        lemma_keyed_map_remove(before, peer_key(), i as int);
                    }
                    e.alive = true;
                    e.last_seen = now;
                    let ghost mid = self.infos();
                    let ghost ev = e@;
                    self.entries.push(e);
                    proof {
                        assert(self.infos() =~= mid.push(ev));
                        lemma_keyed_map_push(mid, peer_key(), ev);
                        assert forall|a: int, c: int|
                            0 <= a < c < self.infos().len() implies peer_key()(
                            #[trigger] self.infos()[a],
                        ) != peer_key()(#[trigger] self.infos()[c]) by {
                            if c < mid.len() {
                                assert(mid[a] == if a < i {
                                    before[a]
                                } else {
                                    before[a + 1]
                                });
                                assert(mid[c] == if c < i {
                                    before[c]
                                } else {
                                    before[c + 1]
                                });
                            } else {
                                assert(mid[a] == if a < i {
                                    before[a]
                                } else {
                                    before[a + 1]
                                });
                            }
                        }
                        assert forall|bb: int| #[trigger] bucket_count(
                            self.infos(),
                            self.self_id,
                            bb,
                        ) <= BUCKET_SIZE by {
                            lemma_bucket_count_remove(before, self.self_id, bb, i as int);
                            assert(self.infos().drop_last() =~= mid);
                        }
                        assert forall|j: int| 0 <= j < self.infos().len() implies (
                        #[trigger] self.infos()[j]).peer != self.self_id by {
                            if j < mid.len() {
                                assert(mid[j] == if j < i {
                                    before[j]
                                } else {
                                    before[j + 1]
                                });
                            }
                        }
                        assert(self@ =~= old(self)@.insert(peer, ev));
                    }
                    self.drop_pending(b);
                    return ;
                }
                i = i + 1;
            }
            proof {
                lemma_keyed_map_dom(self.infos(), peer_key(), peer);
            }
            self.drop_pending(b);
        } else {
            if !self.has_entry(peer) {
                return ;
            }
            self.remove_peer(peer);
            let ghost mid = self@;
            proof {
                assert(bucket_count(self.infos(), self.self_id, b as int) < BUCKET_SIZE);
            }
            match self.take_pending(b) {
                Some(c) => {
                    let ghost cv = c@;
                    let ghost pre_count = bucket_count(self.infos(), self.self_id, b as int);
                    proof {
                        assert(self@ == mid);
                        assert(pre_count < BUCKET_SIZE);
                    }
                    let known = self.has_entry(c.peer);
                    let r = self.add_or_update(c.peer, c.addrs, c.last_seen);
                    proof {
                        if known {
                            assert(r == AddResult::Updated);
                            assert(self@.dom() =~= mid.dom());
                        } else {
                            assert(r != AddResult::SelfEntry);
                            assert(r != AddResult::Updated);
                            if r matches AddResult::BucketFull { .. } {
                                assert(false);
                            }
                            assert(r == AddResult::Inserted);
                        }
                    }
                },
                None => {},
            }
        }
    }

    /// Whether the table holds an entry for `peer`.
    pub fn has_entry(&self, peer: PeerId) -> (r: bool)
        requires
            self.wf(),
        ensures
            r == self@.contains_key(peer),
    {
        let n: usize = self.entries.len();
        let mut i: usize = 0;
        while i < n
            invariant
                n == self.entries@.len(),
                i <= n,
                self.wf(),
                forall|j: int| 0 <= j < i ==> (#[trigger] self.infos()[j]).peer != peer,
            decreases n - i,
        {
            if self.entries[i].peer == peer {
                proof {
                    lemma_keyed_map_at(self.infos(), peer_key(), i as int);
                }
                return true;
            }
            i = i + 1;
        }
        proof {
            lemma_keyed_map_dom(self.infos(), peer_key(), peer);
        }
        false
    }
}

/// If no entry of `s` falls in bucket `b`, that bucket's count is zero.
proof fn lemma_bucket_count_all_missed(s: Seq<SpecPeerInfo>, sid: KeyId, b: int)
    requires
        forall|q: int| 0 <= q < s.len() ==> bucket_of(sid, (#[trigger] s[q]).peer) != b,
    ensures
        bucket_count(s, sid, b) == 0,
    decreases s.len(),
{
    if s.len() > 0 {
        assert(s[s.len() - 1] == s.last());
        lemma_bucket_count_all_missed(s.drop_last(), sid, b);
    }
}

} // verus!
