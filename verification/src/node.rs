//! The event loop's single control point.
//!
//! One node owns the routing table, the record and provider store and the
//! outstanding queries; every event — a command line, an inbound request, a
//! response or failure, a discovery event, a timer tick — is digested here,
//! to completion, one at a time. Handlers return effects: messages for the
//! transport to send and results for the command channel; they never block.

use vstd::prelude::*;
use crate::ident::{KeyId, PeerId, BUCKET_SIZE, key_id_of};
use crate::parse::{Command, CommandError, SpecCmd, parse_spec, parse_command};
use crate::store::{Record, SpecRecord, RecordStore, ProviderStore, ProviderRecord, rec_live};
use crate::routing::{RoutingTable, AddResult, SpecPeerInfo, addr_set, addr_views, info_views,
    bucket_count};
use crate::ident::bucket_of;
use crate::query::{Query, QueryKind, CandState, Candidate, count_state};

verus! {

/// A message the node asks the transport to deliver.
#[derive(Debug)]
pub enum Request {
    /// Ask for the peers closest to `target`.
    FindNode { target: KeyId },
    /// Ask for the value under `key`, and closer peers.
    GetValue { key: KeyId },
    /// Ask for the providers of `key`, and closer peers.
    GetProviders { key: KeyId },
    /// Ask the peer to hold a record.
    Store { record: Record },
    /// Ask the peer to remember a provider of `key`.
    AddProvider { key: KeyId, provider: PeerId, expires: u64 },
}

/// Mathematical image of a `Request`.
pub enum SpecRequest {
    FindNode { target: KeyId },
    GetValue { key: KeyId },
    GetProviders { key: KeyId },
    Store { record: SpecRecord },
    AddProvider { key: KeyId, provider: PeerId, expires: u64 },
}

impl View for Request {
    type V = SpecRequest;

    open spec fn view(&self) -> SpecRequest {
        match self {
            Request::FindNode { target } => SpecRequest::FindNode { target: *target },
            Request::GetValue { key } => SpecRequest::GetValue { key: *key },
            Request::GetProviders { key } => SpecRequest::GetProviders { key: *key },
            Request::Store { record } => SpecRequest::Store { record: record@ },
            Request::AddProvider { key, provider, expires } => SpecRequest::AddProvider {
                key: *key,
                provider: *provider,
                expires: *expires,
            },
        }
    }
}

/// What a node answers to a request.
#[derive(Debug)]
pub enum Response {
    /// Closer peers for a find-node.
    Nodes { closer: Vec<PeerId> },
    /// The value asked for, with closer peers.
    Value { value: Vec<u8>, expires: Option<u64>, closer: Vec<PeerId> },
    /// No value held; closer peers only.
    NoValue { closer: Vec<PeerId> },
    /// The providers known for the key, with closer peers.
    Providers { providers: Vec<ProviderRecord>, closer: Vec<PeerId> },
    /// The record was stored.
    StoreAck,
    /// The provider was recorded.
    ProviderAck,
}

/// A finished query's result, surfaced to the command channel.
#[derive(Debug)]
pub enum Outcome {
    /// GET found this value.
    ValueFound { value: Vec<u8> },
    /// GET exhausted its candidates without a value.
    NotFound,
    /// GET_PROVIDERS collected these providers.
    ProvidersFound { peers: Vec<PeerId> },
    /// PUT reached its quorum.
    Stored,
    /// PUT ran out of peers below its quorum.
    StoreQuorumFailed,
    /// PUT_PROVIDER announced to the closest peers.
    Providing,
    /// CLOSEST_PEERS finished with these peers.
    Closest { peers: Vec<PeerId> },
}

/// What a handler asks its caller to do.
#[derive(Debug)]
pub enum Effect {
    /// Send `request` to `to`, tagged with the issuing query.
    Send { to: PeerId, query_id: u64, request: Request },
    /// Report a query's result on the command channel.
    Report { query_id: u64, outcome: Outcome },
    /// The command line was malformed; nothing was done.
    CommandFailed { error: CommandError },
    /// The key or value was invalid; nothing was done.
    StoreFailed,
    /// Probe this peer: its bucket is full and it is least-recently seen.
    Probe { peer: PeerId },
    /// Re-announce this record before it lapses.
    RepublishRecord { record: Record },
    /// Re-announce this provider claim before it lapses.
    RepublishProvider { key: KeyId },
}

/// The peer a send effect addresses; meaningful only for sends.
pub open spec fn send_target(e: Effect) -> PeerId {
    match e {
        Effect::Send { to, .. } => to,
        _ => 0,
    }
}

/// What starting a query leaves behind, beyond the untouched stores: with
/// no peer to seed from, the immediate local report with `empty_outcome`;
/// otherwise one newly registered query of the given shape and one send per
/// first-round target — min(ALPHA, table size) distinct known peers, each
/// send carrying the query's request.
pub open spec fn query_started(
    pre: Node,
    post: Node,
    effects: Seq<Effect>,
    base: int,
    kind: QueryKind,
    target: KeyId,
    quorum: usize,
    proto: SpecRequest,
    empty_outcome: Outcome,
) -> bool {
    let qid = pre.next_query_id;
    let n = pre.routing.entries@.len() as int;
    &&& effects.len() >= base
    &&& if n == 0 {
        &&& post.queries@ == pre.queries@
        &&& post.protos@ == pre.protos@
        &&& effects.len() == base + 1
        &&& effects[base] matches Effect::Report { query_id, outcome } && query_id == qid
            && outcome == empty_outcome
    } else {
        &&& post.queries@.len() == pre.queries@.len() + 1
        &&& post.queries@.take(pre.queries@.len() as int) == pre.queries@
        &&& post.protos@.len() == pre.protos@.len() + 1
        &&& post.protos@.take(pre.protos@.len() as int) == pre.protos@
        &&& post.protos@.last()@ == proto
        &&& post.queries@.last().wf()
        &&& post.queries@.last().id == qid
        &&& post.queries@.last().kind == kind
        &&& post.queries@.last().target == target
        &&& post.queries@.last().quorum == quorum
        &&& effects.len() == base + (if crate::ident::ALPHA as int <= n {
            crate::ident::ALPHA as int
        } else {
            n
        })
        &&& forall|j: int| base <= j < effects.len() ==> (#[trigger] effects[j] matches Effect::Send {
            to,
            query_id,
            request,
        } && query_id == qid && request@ == proto && pre.routing@.contains_key(to))
        &&& forall|j1: int, j2: int| base <= j1 < j2 < effects.len() ==> send_target(
            #[trigger] effects[j1],
        ) != send_target(#[trigger] effects[j2])
    }
}

/// What a GET leaves behind: the local value when it is held live, else a
/// started value query whose local fallback is not-found.
pub open spec fn get_done(pre: Node, post: Node, effects: Seq<Effect>, key: Seq<u8>, now: u64) -> bool {
    let kid = crate::ident::fnv1a(key);
    let held = pre.records@.contains_key(kid) && rec_live(pre.records@[kid], now);
    &&& post.routing == pre.routing
    &&& (held ==> post == pre && effects.len() == 1 && (effects[0] matches Effect::Report {
        query_id,
        outcome: Outcome::ValueFound { value },
    } && query_id == pre.next_query_id && value@ == pre.records@[kid].value))
    &&& (!held ==> post.records@ == pre.records@ && post.providers@ == pre.providers@
        && query_started(
        pre,
        post,
        effects,
        0,
        QueryKind::GetValue,
        kid,
        1,
        SpecRequest::GetValue { key: kid },
        Outcome::NotFound,
    ))
}

/// What a GET_PROVIDERS leaves behind: a started provider query whose local
/// fallback lists live locally known providers of the key.
pub open spec fn get_providers_done(pre: Node, post: Node, effects: Seq<Effect>, key: Seq<u8>, now: u64) -> bool {
    let kid = crate::ident::fnv1a(key);
    &&& post.routing == pre.routing
    &&& post.records@ == pre.records@
    &&& post.providers@ == pre.providers@
    &&& exists|out: Outcome|
        #[trigger] query_started(
            pre,
            post,
            effects,
            0,
            QueryKind::GetProviders,
            kid,
            1,
            SpecRequest::GetProviders { key: kid },
            out,
        ) && (out matches Outcome::ProvidersFound { peers } && (forall|j: int|
            0 <= j < peers@.len() ==> pre.providers@.contains_key((kid, #[trigger] peers@[j]))
                && crate::store::prov_live(pre.providers@[(kid, peers@[j])], now)))
}

/// What a PUT leaves behind: rejected when key or value is empty; otherwise
/// the record is stored locally under the replacement policy and a store
/// query is started whose local fallback is a failed quorum.
pub open spec fn put_done(pre: Node, post: Node, effects: Seq<Effect>, key: Seq<u8>, value: Seq<u8>, now: u64) -> bool {
    let kid = crate::ident::fnv1a(key);
    let newrec = SpecRecord {
        key: kid,
        value: value,
        publisher: Some(pre.self_peer),
        expires: (if now + pre.record_ttl <= u64::MAX {
            Some((now + pre.record_ttl) as u64)
        } else {
            None
        }),
    };
    &&& post.routing == pre.routing
    &&& (key.len() == 0 || value.len() == 0 ==> post == pre && effects.len() == 1 && effects[0]
        == (Effect::StoreFailed))
    &&& (key.len() > 0 && value.len() > 0 ==> {
        &&& post.providers@ == pre.providers@
        &&& (RecordStore::put_stores(pre.records@, newrec) ==> post.records@
            == pre.records@.insert(kid, newrec))
        &&& (!RecordStore::put_stores(pre.records@, newrec) ==> post.records@ == pre.records@)
        &&& query_started(
            pre,
            post,
            effects,
            0,
            QueryKind::PutRecord,
            kid,
            1,
            SpecRequest::Store { record: newrec },
            Outcome::StoreQuorumFailed,
        )
    })
}

/// What a PUT_PROVIDER leaves behind: rejected when the key is empty;
/// otherwise the local claim is recorded with a fresh expiry and an
/// announcement query is started.
pub open spec fn put_provider_done(pre: Node, post: Node, effects: Seq<Effect>, key: Seq<u8>, now: u64) -> bool {
    let kid = crate::ident::fnv1a(key);
    let pexp = if now + pre.provider_ttl <= u64::MAX {
        (now + pre.provider_ttl) as u64
    } else {
        u64::MAX
    };
    &&& post.routing == pre.routing
    &&& (key.len() == 0 ==> post == pre && effects.len() == 1 && effects[0] == (
    Effect::StoreFailed))
    &&& (key.len() > 0 ==> {
        &&& post.records@ == pre.records@
        &&& post.providers@ == pre.providers@.insert(
            (kid, pre.self_peer),
            ProviderRecord { key: kid, provider: pre.self_peer, expires: pexp },
        )
        &&& query_started(
            pre,
            post,
            effects,
            0,
            QueryKind::StartProviding,
            kid,
            1,
            SpecRequest::AddProvider { key: kid, provider: pre.self_peer, expires: pexp },
            Outcome::Providing,
        )
    })
}

/// What a CLOSEST_PEERS leaves behind: a started closest-peer walk whose
/// local fallback is an empty list.
pub open spec fn closest_done(pre: Node, post: Node, effects: Seq<Effect>, key: Seq<u8>) -> bool {
    let kid = crate::ident::fnv1a(key);
    &&& post.routing == pre.routing
    &&& post.records@ == pre.records@
    &&& post.providers@ == pre.providers@
    &&& exists|out: Outcome|
        #[trigger] query_started(
            pre,
            post,
            effects,
            0,
            QueryKind::FindClosest,
            kid,
            1,
            SpecRequest::FindNode { target: kid },
            out,
        ) && (out matches Outcome::Closest { peers } && peers@.len() == 0)
}

/// A well-formed closer-peer list: the peers the node knows closest to
/// `target`, in non-decreasing XOR distance, none twice, capped at the
/// bucket size.
pub open spec fn closer_ok(n: Node, target: KeyId, closer: Seq<PeerId>) -> bool {
    &&& forall|a: int, b: int| 0 <= a < b < closer.len() ==> crate::ident::distance(
        target,
        #[trigger] closer[a],
    ) <= crate::ident::distance(target, #[trigger] closer[b])
    &&& forall|a: int, b: int| 0 <= a < b < closer.len() ==> #[trigger] closer[a]
        != #[trigger] closer[b]
    &&& forall|j: int| 0 <= j < closer.len() ==> n.routing@.contains_key(#[trigger] closer[j])
    &&& closer.len() == (if BUCKET_SIZE as int <= n.routing.entries@.len() {
        BUCKET_SIZE as int
    } else {
        n.routing.entries@.len() as int
    })
}

/// A peer-to-peer node: all state the event loop mutates.
pub struct Node {
    /// The local peer, also its position in the identifier space.
    pub self_peer: PeerId,
    /// The known peers.
    pub routing: RoutingTable,
    /// The local records.
    pub records: RecordStore,
    /// The local provider lists.
    pub providers: ProviderStore,
    /// Queries still running.
    pub queries: Vec<Query>,
    /// The request each running query repeats, one per query.
    pub protos: Vec<Request>,
    /// Next query identifier to hand out.
    pub next_query_id: u64,
    /// How long a stored record announced here lives.
    pub record_ttl: u64,
    /// How long a provider claim lives.
    pub provider_ttl: u64,
}

impl Node {
    /// Every component keeps its own shape.
    pub open spec fn wf(self) -> bool {
        &&& self.routing.wf()
        &&& self.routing.self_id == self.self_peer
        &&& self.records.wf()
        &&& self.providers.wf()
        &&& self.protos@.len() == self.queries@.len()
        &&& forall|i: int| 0 <= i < self.queries@.len() ==> (#[trigger] self.queries@[i]).wf()
    }

    /// A fresh node with nothing known and nothing stored.
    pub fn new(self_peer: PeerId, record_ttl: u64, provider_ttl: u64) -> (n: Node)
        ensures
            n.wf(),
            n.self_peer == self_peer,
            n.routing@ == Map::<PeerId, SpecPeerInfo>::empty(),
            n.records@ == Map::<KeyId, SpecRecord>::empty(),
            n.providers@ == Map::<(KeyId, PeerId), ProviderRecord>::empty(),
            n.queries@.len() == 0,
    {
        Node {
            self_peer,
            routing: RoutingTable::new(self_peer),
            records: RecordStore::new(),
            providers: ProviderStore::new(),
            queries: Vec::new(),
            protos: Vec::new(),
            next_query_id: 0,
            record_ttl,
            provider_ttl,
        }
    }

    /// Feed a discovery event in: the routing table absorbs the peer and
    /// its addresses; two sightings of one peer leave one entry holding the
    /// union of the address sets.
    pub fn handle_discovery(&mut self, peer: PeerId, addrs: Vec<Vec<u8>>, now: u64) -> (effects:
        Vec<Effect>)
        requires
            old(self).wf(),
        ensures
            final(self).wf(),
            final(self).self_peer == old(self).self_peer,
            final(self).records@ == old(self).records@,
            final(self).providers@ == old(self).providers@,
            final(self).queries@ == old(self).queries@,
            peer != old(self).self_peer && old(self).routing@.contains_key(peer) ==> {
                let e0 = old(self).routing@[peer];
                let e1 = final(self).routing@[peer];
                &&& final(self).routing@ == old(self).routing@.insert(peer, e1)
                &&& e1.last_seen == now
                &&& addr_set(e1.addrs) == addr_set(e0.addrs).union(addr_set(addr_views(addrs@)))
                &&& effects@.len() == 0
            },
            peer != old(self).self_peer && !old(self).routing@.contains_key(peer) && bucket_count(
                old(self).routing.infos(),
                old(self).self_peer,
                bucket_of(old(self).self_peer, peer),
            ) < BUCKET_SIZE ==> final(self).routing@ == old(self).routing@.insert(
                peer,
                SpecPeerInfo {
                    peer: peer,
                    addrs: addr_views(addrs@),
                    last_seen: now,
                    alive: true,
                },
            ) && effects@.len() == 0,
            peer != old(self).self_peer && !old(self).routing@.contains_key(peer) && bucket_count(
                old(self).routing.infos(),
                old(self).self_peer,
                bucket_of(old(self).self_peer, peer),
            ) == BUCKET_SIZE ==> final(self).routing@ == old(self).routing@ && effects@.len() == 1
                && (effects@[0] matches Effect::Probe { peer: probe } && old(self).routing@.contains_key(probe) && bucket_of(old(self).self_peer, probe) == bucket_of(
                old(self).self_peer,
                peer,
            )),
            peer == old(self).self_peer ==> final(self).routing@ == old(self).routing@
                && effects@.len() == 0,
    {
        let res = self.routing.add_or_update(peer, addrs, now);
        let mut effects: Vec<Effect> = Vec::new();
        match res {
            AddResult::BucketFull { probe } => {
                effects.push(Effect::Probe { peer: probe });
            },
            _ => {},
        }
        proof {
            let bc = bucket_count(
                old(self).routing.infos(),
                old(self).self_peer,
                bucket_of(old(self).self_peer, peer),
            );
            if peer != old(self).self_peer && !old(self).routing@.contains_key(peer) {
                match res {
                    AddResult::SelfEntry => {
                        assert(false);
                    },
                    AddResult::Updated => {
                        assert(false);
                    },
                    AddResult::Inserted => {
                        assert(bc < BUCKET_SIZE);
                    },
                    AddResult::BucketFull { probe } => {
                        assert(bc == BUCKET_SIZE);
                        assert(self.routing@ == old(self).routing@);
                    },
                }
            }
        }
        effects
    }

    /// Feed a probe answer in.
    pub fn handle_probe_result(&mut self, peer: PeerId, success: bool, now: u64)
        requires
            old(self).wf(),
        ensures
            final(self).wf(),
            final(self).self_peer == old(self).self_peer,
            final(self).records@ == old(self).records@,
            final(self).providers@ == old(self).providers@,
            final(self).queries@ == old(self).queries@,
    {
        self.routing.on_probe(peer, success, now);
    }

    /// Answer an inbound request from `from`. The answer is exact: a value
    /// is returned iff a live record holds it, providers iff their claims
    /// are live, and stores land in the local stores.
    pub fn handle_request(&mut self, from: PeerId, request: Request, now: u64) -> (resp: Response)
        requires
            old(self).wf(),
        ensures
            final(self).wf(),
            final(self).self_peer == old(self).self_peer,
            match request {
                Request::GetValue { key } => {
                    &&& final(self).records@ == old(self).records@
                    &&& final(self).providers@ == old(self).providers@
                    &&& match resp {
                        Response::Value { value, expires, closer } => old(
                            self,
                        ).records@.contains_key(key) && rec_live(old(self).records@[key], now)
                            && value@ == old(self).records@[key].value && expires == old(
                            self,
                        ).records@[key].expires && closer_ok(*final(self), key, closer@),
                        Response::NoValue { closer } => !(old(self).records@.contains_key(key)
                            && rec_live(old(self).records@[key], now)) && closer_ok(
                            *final(self),
                            key,
                            closer@,
                        ),
                        _ => false,
                    }
                },
                Request::Store { record } => {
                    &&& final(self).providers@ == old(self).providers@
                    &&& (RecordStore::put_stores(old(self).records@, record@) ==> final(self).records@ == old(self).records@.insert(record@.key, record@))
                    &&& (!RecordStore::put_stores(old(self).records@, record@) ==> final(self).records@ == old(self).records@)
                    &&& resp matches Response::StoreAck
                },
                Request::AddProvider { key, provider, expires } => {
                    &&& final(self).records@ == old(self).records@
                    &&& final(self).providers@ == old(self).providers@.insert(
                        (key, provider),
                        ProviderRecord { key, provider, expires },
                    )
                    &&& resp matches Response::ProviderAck
                },
                Request::FindNode { target } => final(self).records@ == old(self).records@
                    && final(self).providers@ == old(self).providers@ && (
                resp matches Response::Nodes { closer } && closer_ok(
                    *final(self),
                    target,
                    closer@,
                )),
                Request::GetProviders { key } => final(self).records@ == old(self).records@
                    && final(self).providers@ == old(self).providers@ && (
                resp matches Response::Providers { providers, closer } && closer_ok(
                    *final(self),
                    key,
                    closer@,
                ) && (forall|j: int| 0 <= j < providers@.len() ==> (
                #[trigger] providers@[j]).key == key && crate::store::prov_live(
                    providers@[j],
                    now,
                ) && old(self).providers@.contains_key((key, providers@[j].provider)) && old(
                    self,
                ).providers@[(key, providers@[j].provider)] == providers@[j]) && (forall|p: PeerId|
                    old(self).providers@.contains_key((key, p)) && crate::store::prov_live(
                        #[trigger] old(self).providers@[(key, p)],
                        now,
                    ) ==> exists|j: int| 0 <= j < providers@.len() && providers@[j].provider
                        == p)),
            },
    {
        let _ = self.routing.add_or_update(from, Vec::new(), now);
        match request {
            Request::FindNode { target } => {
                let peers = self.closest_ids(target);
                Response::Nodes { closer: peers }
            },
            Request::GetValue { key } => {
                let closer = self.closest_ids(key);
                match self.records.get(key, now) {
                    Some(value) => {
                        let expires = self.record_expiry(key);
                        Response::Value { value, expires, closer }
                    },
                    None => Response::NoValue { closer },
                }
            },
            Request::GetProviders { key } => {
                let closer = self.closest_ids(key);
                let providers = self.providers.get_providers(key, now);
                Response::Providers { providers, closer }
            },
            Request::Store { record } => {
                let _ = self.records.put(record);
                Response::StoreAck
            },
            Request::AddProvider { key, provider, expires } => {
                self.providers.add_provider(ProviderRecord { key, provider, expires });
                Response::ProviderAck
            },
        }
    }

    /// The expiry of the record under `key`, if one is held.
    fn record_expiry(&self, key: KeyId) -> (r: Option<u64>)
        requires
            self.records.wf(),
        ensures
            self.records@.contains_key(key) ==> r == self.records@[key].expires,
    {
        let n: usize = self.records.records.len();
        let mut i: usize = 0;
        while i < n
            invariant
                n == self.records.records@.len(),
                i <= n,
                self.records.wf(),
                forall|j: int| 0 <= j < i ==> (#[trigger] self.records.entries()[j]).key != key,
            decreases n - i,
        {
            if self.records.records[i].key == key {
                proof {
                    crate::keyed::lemma_keyed_map_at(
                        self.records.entries(),
                        crate::store::rec_key(),
                        i as int,
                    );
                }
                return self.records.records[i].expires;
            }
            i = i + 1;
        }
        proof {
            crate::keyed::lemma_keyed_map_dom(
                self.records.entries(),
                crate::store::rec_key(),
                key,
            );
        }
        None
    }

    /// The identifiers of the peers closest to `target`.
    fn closest_ids(&self, target: KeyId) -> (out: Vec<PeerId>)
        requires
            self.routing.wf(),
        ensures
            forall|a: int, b: int| 0 <= a < b < out@.len() ==> crate::ident::distance(
                target,
                #[trigger] out@[a],
            ) <= crate::ident::distance(target, #[trigger] out@[b]),
            forall|a: int, b: int| 0 <= a < b < out@.len() ==> #[trigger] out@[a]
                != #[trigger] out@[b],
            forall|j: int| 0 <= j < out@.len() ==> self.routing@.contains_key(#[trigger] out@[j]),
            out@.len() == (if BUCKET_SIZE as int <= self.routing.entries@.len() {
                BUCKET_SIZE as int
            } else {
                self.routing.entries@.len() as int
            }),
    {
        let infos = self.routing.find_closest(target, BUCKET_SIZE);
        let n: usize = infos.len();
        let mut out: Vec<PeerId> = Vec::new();
        let mut i: usize = 0;
        while i < n
            invariant
                n == infos@.len(),
                i <= n,
                out@.len() == i,
                forall|j: int| 0 <= j < i ==> #[trigger] out@[j] == info_views(infos@)[j].peer,
            decreases n - i,
        {
            out.push(infos[i].peer);
            proof {
                assert(out@[i as int] == info_views(infos@)[i as int].peer);
            }
            i = i + 1;
        }
        out
    }

    /// Start a query toward `target` and emit its first requests; when the
    /// table gives no candidate, the query ends at once with `empty_outcome`.
    fn start_query(&mut self, kind: QueryKind, target: KeyId, per_peer: Request, quorum: usize,
        empty_outcome: Outcome, effects: &mut Vec<Effect>)
        requires
            old(self).wf(),
        ensures
            final(self).wf(),
            final(self).self_peer == old(self).self_peer,
            final(self).records@ == old(self).records@,
            final(self).providers@ == old(self).providers@,
            final(self).routing == old(self).routing,
            final(effects)@.take(old(effects)@.len() as int) == old(effects)@,
            query_started(
                *old(self),
                *final(self),
                final(effects)@,
                old(effects)@.len() as int,
                kind,
                target,
                quorum,
                per_peer@,
                empty_outcome,
            ),
    {
        let qid = self.next_query_id;
        self.next_query_id = if self.next_query_id < u64::MAX {
            self.next_query_id + 1
        } else {
            0
        };
        let seeds = self.closest_ids(target);
        let mut q = Query::new(qid, kind, target, quorum, &seeds);
        proof {
            assert(forall|j: int| 0 <= j < q.candidates@.len() ==> (
            #[trigger] q.candidates@[j]).state == CandState::Fresh);
            crate::query::lemma_count_state_all(q.candidates@, CandState::Fresh);
            crate::query::lemma_count_state_none(q.candidates@, CandState::Waiting);
        }
        let ghost q0 = q;
        let batch = q.next_batch();
        let nb: usize = batch.len();
        let mut i: usize = 0;
        while i < nb
            invariant
                nb == batch@.len(),
                i <= nb,
                self.wf(),
                self.self_peer == old(self).self_peer,
                self.routing == old(self).routing,
                self.records@ == old(self).records@,
                self.providers@ == old(self).providers@,
                self.queries@ == old(self).queries@,
                self.protos@ == old(self).protos@,
                qid == old(self).next_query_id,
                effects@.len() == old(effects)@.len() + i,
                effects@.take(old(effects)@.len() as int) == old(effects)@,
                forall|j: int| old(effects)@.len() <= j < effects@.len() ==> (
                #[trigger] effects@[j] matches Effect::Send { to, query_id, request } && query_id
                    == qid && request@ == per_peer@ && to == batch@[j - old(effects)@.len()]),
            decreases nb - i,
        {
            let to = batch[i];
            let req = clone_request(&per_peer);
            let ghost ebefore = effects@;
            effects.push(Effect::Send { to, query_id: qid, request: req });
            proof {
                assert(effects@.take(old(effects)@.len() as int) =~= ebefore.take(old(effects)@.len() as int));
                assert(effects@[effects@.len() - 1] matches Effect::Send {
                    to: t2,
                    query_id: q2,
                    request: r2,
                } && q2 == qid && r2@ == per_peer@ && t2 == batch@[i as int]);
            }
            i = i + 1;
        }
        if nb == 0 {
            // Nothing to ask: the query ends here, a failure or an
            // answer from local knowledge alone.
            let ghost ebefore = effects@;
            effects.push(Effect::Report { query_id: qid, outcome: empty_outcome });
            proof {
                assert(effects@.take(old(effects)@.len() as int) =~= ebefore.take(old(effects)@.len() as int));
                assert(effects@[effects@.len() - 1] == (Effect::Report {
                    query_id: qid,
                    outcome: empty_outcome,
                }));
                if seeds@.len() > 0 {
                    assert(count_state(q0.candidates@, CandState::Fresh) > 0);
                    assert(false);
                }
                assert(old(self).routing.entries@.len() == 0);
            }
        } else {
            let ghost qlen = self.queries@.len();
            self.queries.push(q);
            self.protos.push(per_peer);
            proof {
                assert forall|j: int| 0 <= j < self.queries@.len() implies (
                #[trigger] self.queries@[j]).wf() by {
                    if j < qlen {
                        assert(self.queries@[j] == old(self).queries@[j]);
                    }
                }
                assert(self.queries@.take(qlen as int) =~= old(self).queries@);
                assert(self.protos@.take(qlen as int) =~= old(self).protos@);
                assert(seeds@.len() > 0);
                assert forall|j1: int, j2: int|
                    old(effects)@.len() <= j1 < j2 < effects@.len() implies send_target(
                    #[trigger] effects@[j1],
                ) != send_target(#[trigger] effects@[j2]) by {
                    assert(send_target(effects@[j1]) == batch@[j1 - old(effects)@.len()]);
                    assert(send_target(effects@[j2]) == batch@[j2 - old(effects)@.len()]);
                }
                assert forall|j: int|
                    old(effects)@.len() <= j < effects@.len() implies #[trigger] effects@[j] matches Effect::Send {
                    to,
                    query_id,
                    request,
                } && query_id == qid && request@ == per_peer@ && old(self).routing@.contains_key(to) by {
                    let x = batch@[j - old(effects)@.len()];
                    assert(batch@.contains(x));
                    let cj = choose|cj: int|
                        0 <= cj < q0.candidates@.len() && (#[trigger] q0.candidates@[cj]).peer
                            == x && q0.candidates@[cj].state == CandState::Fresh;
                    assert(x == seeds@[cj]);
                }
            }
        }
    }

    /// Digest one command line. A malformed line changes nothing and yields
    /// exactly one failure effect; a PUT or PUT_PROVIDER with an empty key
    /// (or PUT with an empty value) fails locally and changes nothing; a GET
    /// whose key is held live locally is answered from the local store; every
    /// other well-formed command starts exactly one query and sends its
    /// first round, or reports its local outcome at once when no peer is
    /// known.
    #[verifier::rlimit(100)]
    pub fn handle_command(&mut self, line: &[u8], now: u64) -> (effects: Vec<Effect>)
        requires
            old(self).wf(),
        ensures
            final(self).wf(),
            final(self).self_peer == old(self).self_peer,
            match parse_spec(line@) {
                Err(e) => *final(self) == *old(self) && effects@.len() == 1 && effects@[0] == (
                Effect::CommandFailed { error: e }),
                Ok(cmd) => match cmd {
                    SpecCmd::Get(key) => get_done(*old(self), *final(self), effects@, key, now),
                    SpecCmd::GetProviders(key) => get_providers_done(
                        *old(self),
                        *final(self),
                        effects@,
                        key,
                        now,
                    ),
                    SpecCmd::Put(key, value) => put_done(
                        *old(self),
                        *final(self),
                        effects@,
                        key,
                        value,
                        now,
                    ),
                    SpecCmd::PutProvider(key) => put_provider_done(
                        *old(self),
                        *final(self),
                        effects@,
                        key,
                        now,
                    ),
                    SpecCmd::ClosestPeers(key) => closest_done(
                        *old(self),
                        *final(self),
                        effects@,
                        key,
                    ),
                },
            },
    {
        let mut effects: Vec<Effect> = Vec::new();
        let cmd = match parse_command(line) {
            Ok(cmd) => cmd,
            Err(e) => {
                effects.push(Effect::CommandFailed { error: e });
                return effects;
            },
        };
        match cmd {
            Command::Get { key } => self.cmd_get(key, now),
            Command::GetProviders { key } => self.cmd_get_providers(key, now),
            Command::Put { key, value } => self.cmd_put(key, value, now),
            Command::PutProvider { key } => self.cmd_put_provider(key, now),
            Command::ClosestPeers { key } => self.cmd_closest(key),
        }
    }

    /// Run a GET: answer from the local store when the record is held live,
    /// else start a value query.
    fn cmd_get(&mut self, key: Vec<u8>, now: u64) -> (effects: Vec<Effect>)
        requires
            old(self).wf(),
        ensures
            final(self).wf(),
            final(self).self_peer == old(self).self_peer,
            get_done(*old(self), *final(self), effects@, key@, now),
    {
        let mut effects: Vec<Effect> = Vec::new();
        let kid = key_id_of(key.as_slice());
        match self.records.get(kid, now) {
            Some(value) => {
                // held live locally: with quorum one the local record
                // satisfies the query at once
                effects.push(
                    Effect::Report {
                        query_id: self.next_query_id,
                        outcome: Outcome::ValueFound { value },
                    },
                );
            },
            None => {
                self.start_query(
                    QueryKind::GetValue,
                    kid,
                    Request::GetValue { key: kid },
                    1,
                    Outcome::NotFound,
                    &mut effects,
                );
            },
        }
        effects
    }

    /// Run a GET_PROVIDERS: start a provider query whose local fallback
    /// lists the live locally known providers.
    fn cmd_get_providers(&mut self, key: Vec<u8>, now: u64) -> (effects: Vec<Effect>)
        requires
            old(self).wf(),
        ensures
            final(self).wf(),
            final(self).self_peer == old(self).self_peer,
            get_providers_done(*old(self), *final(self), effects@, key@, now),
    {
        let mut effects: Vec<Effect> = Vec::new();
        let kid = key_id_of(key.as_slice());
        let local = self.providers.get_providers(kid, now);
        let peers = provider_ids(&local);
        let out = Outcome::ProvidersFound { peers };
        let ghost og = out;
        self.start_query(
            QueryKind::GetProviders,
            kid,
            Request::GetProviders { key: kid },
            1,
            out,
            &mut effects,
        );
        proof {
            assert(og matches Outcome::ProvidersFound { peers: ps } && (forall|j: int|
                0 <= j < ps@.len() ==> old(self).providers@.contains_key(
                    (kid, #[trigger] ps@[j]),
                ) && crate::store::prov_live(old(self).providers@[(kid, ps@[j])], now)));
        }
        effects
    }

    /// Run a PUT: validate, store locally, then replicate to the closest
    /// peers; with no peer known the quorum cannot be met.
    fn cmd_put(&mut self, key: Vec<u8>, value: Vec<u8>, now: u64) -> (effects: Vec<Effect>)
        requires
            old(self).wf(),
        ensures
            final(self).wf(),
            final(self).self_peer == old(self).self_peer,
            put_done(*old(self), *final(self), effects@, key@, value@, now),
    {
        let mut effects: Vec<Effect> = Vec::new();
        if key.len() == 0 || value.len() == 0 {
            effects.push(Effect::StoreFailed);
            return effects;
        }
        let kid = key_id_of(key.as_slice());
        let expires = now.checked_add(self.record_ttl);
        let record = Record { key: kid, value: value, publisher: Some(self.self_peer), expires };
        let copy = clone_record(&record);
        let _ = self.records.put(record);
        self.start_query(
            QueryKind::PutRecord,
            kid,
            Request::Store { record: copy },
            1,
            Outcome::StoreQuorumFailed,
            &mut effects,
        );
        effects
    }

    /// Run a PUT_PROVIDER: validate, record the local claim, then announce
    /// it to the closest peers.
    fn cmd_put_provider(&mut self, key: Vec<u8>, now: u64) -> (effects: Vec<Effect>)
        requires
            old(self).wf(),
        ensures
            final(self).wf(),
            final(self).self_peer == old(self).self_peer,
            put_provider_done(*old(self), *final(self), effects@, key@, now),
    {
        let mut effects: Vec<Effect> = Vec::new();
        if key.len() == 0 {
            effects.push(Effect::StoreFailed);
            return effects;
        }
        let kid = key_id_of(key.as_slice());
        let expires = match now.checked_add(self.provider_ttl) {
            Some(e) => e,
            None => u64::MAX,
        };
        self.providers.add_provider(
            ProviderRecord { key: kid, provider: self.self_peer, expires },
        );
        self.start_query(
            QueryKind::StartProviding,
            kid,
            Request::AddProvider { key: kid, provider: self.self_peer, expires },
            1,
            Outcome::Providing,
            &mut effects,
        );
        effects
    }

    /// Run a CLOSEST_PEERS: walk toward the key; the local fallback when no
    /// peer is known is an empty list.
    fn cmd_closest(&mut self, key: Vec<u8>) -> (effects: Vec<Effect>)
        requires
            old(self).wf(),
        ensures
            final(self).wf(),
            final(self).self_peer == old(self).self_peer,
            closest_done(*old(self), *final(self), effects@, key@),
    {
        let mut effects: Vec<Effect> = Vec::new();
        let kid = key_id_of(key.as_slice());
        let out = Outcome::Closest { peers: Vec::new() };
        let ghost og = out;
        self.start_query(
            QueryKind::FindClosest,
            kid,
            Request::FindNode { target: kid },
            1,
            out,
            &mut effects,
        );
        proof {
            assert(og matches Outcome::Closest { peers: ps } && ps@.len() == 0);
        }
        effects
    }
}

/// The first index among `qs` whose query carries `id`; -1 when none does.
pub open spec fn find_query_index(qs: Seq<Query>, id: u64) -> int
    decreases qs.len(),
{
    if qs.len() == 0 {
        -1
    } else if qs[0].id == id {
        0
    } else {
        let r = find_query_index(qs.drop_first(), id);
        if r < 0 {
            -1
        } else {
            r + 1
        }
    }
}

proof fn lemma_find_query_scan(qs: Seq<Query>, id: u64, i: int)
    requires
        0 <= i <= qs.len(),
        forall|j: int| 0 <= j < i ==> (#[trigger] qs[j]).id != id,
        i < qs.len() ==> qs[i].id == id,
    ensures
        find_query_index(qs, id) == (if i < qs.len() {
            i
        } else {
            -1
        }),
    decreases qs.len(),
{
    if qs.len() == 0 {
    } else if qs[0].id == id {
    } else {
        let t = qs.drop_first();
        assert(forall|j: int| 0 <= j < i - 1 ==> (#[trigger] t[j]).id != id);
        lemma_find_query_scan(t, id, i - 1);
    }
}

impl Node {
    /// Take the running query with this identifier out, with its request.
    fn take_query(&mut self, query_id: u64) -> (r: Option<(Query, Request)>)
        requires
            old(self).wf(),
        ensures
            final(self).wf(),
            final(self).self_peer == old(self).self_peer,
            final(self).records@ == old(self).records@,
            final(self).providers@ == old(self).providers@,
            final(self).routing == old(self).routing,
            final(self).next_query_id == old(self).next_query_id,
            match r {
                None => *final(self) == *old(self) && find_query_index(
                    old(self).queries@,
                    query_id,
                ) == -1,
                Some(qr) => {
                    let idx = find_query_index(old(self).queries@, query_id);
                    &&& 0 <= idx < old(self).queries@.len()
                    &&& qr.0 == old(self).queries@[idx]
                    &&& qr.0.wf()
                    &&& qr.0.id == query_id
                    &&& qr.1@ == old(self).protos@[idx]@
                    &&& final(self).queries@ == old(self).queries@.remove(idx)
                    &&& final(self).protos@ == old(self).protos@.remove(idx)
                },
            },
    {
        let n: usize = self.queries.len();
        let mut i: usize = 0;
        while i < n
            invariant
                n == self.queries@.len(),
                i <= n,
                self.wf(),
                self == old(self),
                forall|j: int| 0 <= j < i ==> (#[trigger] self.queries@[j]).id != query_id,
            decreases n - i,
        {
            if self.queries[i].id == query_id {
                proof {
                    lemma_find_query_scan(self.queries@, query_id, i as int);
                }
                let q = self.queries.remove(i);
                let req = self.protos.remove(i);
                proof {
                    assert forall|j: int| 0 <= j < self.queries@.len() implies (
                    #[trigger] self.queries@[j]).wf() by {
                        if j < i {
                            assert(self.queries@[j] == old(self).queries@[j]);
                        } else {
                            assert(self.queries@[j] == old(self).queries@[j + 1]);
                        }
                    }
                }
                return Some((q, req));
            }
            i = i + 1;
        }
        proof {
            lemma_find_query_scan(self.queries@, query_id, n as int);
        }
        None
    }

    /// Send this query's next requests, or finish and report it.
    fn drive_query(&mut self, q: Query, proto: Request, now: u64, effects: &mut Vec<Effect>)
        requires
            old(self).wf(),
            q.wf(),
        ensures
            final(self).wf(),
            final(self).self_peer == old(self).self_peer,
            final(self).records@ == old(self).records@,
            final(self).providers@ == old(self).providers@,
            final(self).routing == old(self).routing,
            final(effects)@.take(old(effects)@.len() as int) == old(effects)@,
            ({
                // the query finished: deregistered, its terminal report last
                &&& final(self).queries@ == old(self).queries@
                &&& final(self).protos@ == old(self).protos@
                &&& final(effects)@.len() == old(effects)@.len() + 1
                &&& (final(effects)@.last() matches Effect::Report { query_id, .. } && query_id
                    == q.id)
            } || {
                // the query runs on: re-queued, only requests sent
                &&& final(self).queries@ == old(self).queries@.push(final(self).queries@.last())
                &&& final(self).protos@ == old(self).protos@.push(proto)
                &&& final(self).queries@.last().id == q.id
                &&& final(self).queries@.last().wf()
                &&& (forall|x: Candidate| q.candidates@.contains(x) && x.state != CandState::Fresh
                    ==> final(self).queries@.last().candidates@.contains(x))
                &&& forall|j: int| old(effects)@.len() <= j < final(effects)@.len() ==> (
                #[trigger] final(effects)@[j] matches Effect::Send { to, query_id, request }
                    && query_id == q.id && request@ == proto@)
            }),
    {
        let mut q = q;
        let ghost q0 = q;
        let batch = q.next_batch();
        let nb: usize = batch.len();
        let mut i: usize = 0;
        while i < nb
            invariant
                nb == batch@.len(),
                i <= nb,
                self.wf(),
                *self == *old(self),
                q.id == q0.id,
                effects@.len() == old(effects)@.len() + i,
                effects@.take(old(effects)@.len() as int) == old(effects)@,
                forall|j: int| old(effects)@.len() <= j < effects@.len() ==> (
                #[trigger] effects@[j] matches Effect::Send { to, query_id, request } && query_id
                    == q0.id && request@ == proto@),
            decreases nb - i,
        {
            let to = batch[i];
            let ghost ebefore = effects@;
            effects.push(Effect::Send { to, query_id: q.id, request: clone_request(&proto) });
            proof {
                assert(effects@.take(old(effects)@.len() as int) =~= ebefore.take(old(effects)@.len() as int));
            }
            i = i + 1;
        }
        if nb == 0 && q.exhausted() {
            let outcome = match q.kind {
                QueryKind::GetValue => Outcome::NotFound,
                QueryKind::GetProviders => {
                    let local = self.providers.get_providers(q.target, now);
                    let mut all = provider_ids(&local);
                    let m: usize = q.providers.len();
                    let mut j: usize = 0;
                    while j < m
                        invariant
                            m == q.providers@.len(),
                            j <= m,
                            self.wf(),
                            *self == *old(self),
                        decreases m - j,
                    {
                        all = push_unique(all, q.providers[j].provider);
                        j = j + 1;
                    }
                    Outcome::ProvidersFound { peers: all }
                },
                QueryKind::PutRecord => {
                    if q.acks >= q.quorum {
                        Outcome::Stored
                    } else {
                        Outcome::StoreQuorumFailed
                    }
                },
                QueryKind::StartProviding => Outcome::Providing,
                QueryKind::FindClosest => Outcome::Closest { peers: self.closest_ids(q.target) },
                QueryKind::FindNode => Outcome::Closest { peers: self.closest_ids(q.target) },
            };
            let ghost ebefore = effects@;
            effects.push(Effect::Report { query_id: q.id, outcome });
            proof {
                assert(effects@.take(old(effects)@.len() as int) =~= ebefore.take(old(effects)@.len() as int));
                assert(effects@.last() matches Effect::Report { query_id, .. } && query_id
                    == q0.id);
            }
        } else {
            let ghost qlen = self.queries@.len();
            let ghost qfin = q;
            self.queries.push(q);
            self.protos.push(proto);
            proof {
                assert forall|j: int| 0 <= j < self.queries@.len() implies (
                #[trigger] self.queries@[j]).wf() by {
                    if j < qlen {
                        assert(self.queries@[j] == old(self).queries@[j]);
                    }
                }
                assert(self.queries@ =~= old(self).queries@.push(self.queries@.last()));
                assert forall|x: Candidate|
                    q0.candidates@.contains(x) && x.state != CandState::Fresh implies
                    self.queries@.last().candidates@.contains(x) by {
                    let j = choose|j: int|
                        0 <= j < q0.candidates@.len() && #[trigger] q0.candidates@[j] == x;
                    assert(qfin.candidates@[j] == x);
                }
            }
        }
    }

    /// Digest one response from the network, addressed to a query: the
    /// sender's candidate is marked answered, closer peers are folded into
    /// the table and the candidate list, a value answers a GET at once, and
    /// the query either sends its next requests or finishes with its report.
    pub fn handle_response(&mut self, query_id: u64, from: PeerId, response: Response, now: u64)
        -> (effects: Vec<Effect>)
        requires
            old(self).wf(),
        ensures
            final(self).wf(),
            final(self).self_peer == old(self).self_peer,
            ({
                let idx = find_query_index(old(self).queries@, query_id);
                let q = old(self).queries@[idx];
                &&& final(self).providers@ == old(self).providers@
                &&& (idx == -1 ==> final(self).records@ == old(self).records@ && final(self).queries@ == old(self).queries@ && final(self).protos@ == old(self).protos@
                    && effects@.len() == 0)
                &&& (idx >= 0 && (response matches Response::Value { .. }) && q.kind
                    == QueryKind::GetValue ==> (response matches Response::Value {
                    value,
                    expires,
                    ..
                } && {
                    let heard = SpecRecord {
                        key: q.target,
                        value: value@,
                        publisher: Some(from),
                        expires: expires,
                    };
                    &&& effects@.len() == 1
                    &&& (effects@[0] matches Effect::Report {
                        query_id: rid,
                        outcome: Outcome::ValueFound { value: v },
                    } && rid == query_id && v@ == value@)
                    &&& (RecordStore::put_stores(old(self).records@, heard) ==> final(self).records@ == old(self).records@.insert(heard.key, heard))
                    &&& (!RecordStore::put_stores(old(self).records@, heard) ==> final(self).records@ == old(self).records@)
                    &&& final(self).queries@ == old(self).queries@.remove(idx)
                    &&& final(self).protos@ == old(self).protos@.remove(idx)
                }))
                &&& (idx >= 0 && !((response matches Response::Value { .. }) && q.kind
                    == QueryKind::GetValue) ==> {
                    &&& final(self).records@ == old(self).records@
                    &&& ({
                        &&& final(self).queries@ == old(self).queries@.remove(idx)
                        &&& final(self).protos@ == old(self).protos@.remove(idx)
                        &&& effects@.len() >= 1
                        &&& (effects@.last() matches Effect::Report { query_id: rid, .. } && rid
                            == query_id)
                    } || {
                        &&& final(self).queries@ == old(self).queries@.remove(idx).push(
                            final(self).queries@.last(),
                        )
                        &&& final(self).queries@.last().id == query_id
                        &&& (q.candidates@.contains(
                            Candidate { peer: from, state: CandState::Waiting },
                        ) ==> final(self).queries@.last().candidates@.contains(
                            Candidate { peer: from, state: CandState::Done },
                        ))
                        &&& forall|j: int| 0 <= j < effects@.len() ==> (
                        #[trigger] effects@[j] matches Effect::Send { query_id: sid, .. } && sid
                            == query_id)
                    })
                })
            }),
    {
        let mut effects: Vec<Effect> = Vec::new();
        let _ = self.routing.add_or_update(from, Vec::new(), now);
        let (mut q, proto) = match self.take_query(query_id) {
            Some(qr) => qr,
            None => {
                return effects;
            },
        };
        let ghost qpre = q;
        let ghost midq = self.queries@;
        let ghost midp = self.protos@;
        q.on_response(from);
        proof {
            if qpre.candidates@.contains(Candidate { peer: from, state: CandState::Waiting }) {
                let j = choose|j: int|
                    0 <= j < qpre.candidates@.len() && #[trigger] qpre.candidates@[j] == (
                    Candidate { peer: from, state: CandState::Waiting });
                assert(q.candidates@[j] == (Candidate { peer: from, state: CandState::Done }));
                assert(q.candidates@.contains(Candidate { peer: from, state: CandState::Done }));
            }
        }
        match response {
            Response::Nodes { closer } => {
                self.merge_closer(&mut q, &closer, now);
            },
            Response::NoValue { closer } => {
                self.merge_closer(&mut q, &closer, now);
            },
            Response::Value { value, expires, closer } => {
                if matches!(q.kind, QueryKind::GetValue) {
                    // quorum one: the first value satisfies the query
                    let stored = Record {
                        key: q.target,
                        value: crate::ident::copy_bytes(value.as_slice()),
                        publisher: Some(from),
                        expires,
                    };
                    let _ = self.records.put(stored);
                    effects.push(
                        Effect::Report {
                            query_id: q.id,
                            outcome: Outcome::ValueFound { value },
                        },
                    );
                    return effects;
                }
                self.merge_closer(&mut q, &closer, now);
            },
            Response::Providers { providers, closer } => {
                self.merge_closer(&mut q, &closer, now);
                let m: usize = providers.len();
                let mut j: usize = 0;
                while j < m
                    invariant
                        m == providers@.len(),
                        j <= m,
                        q.wf(),
                        q.id == query_id,
                        qpre.candidates@.contains(
                            Candidate { peer: from, state: CandState::Waiting },
                        ) ==> q.candidates@.contains(
                            Candidate { peer: from, state: CandState::Done },
                        ),
                    decreases m - j,
                {
                    let ghost qq = q;
                    q.providers.push(providers[j]);
                    proof {
                        assert(q.candidates@ == qq.candidates@);
                    }
                    j = j + 1;
                }
            },
            Response::StoreAck => {
                if q.acks < usize::MAX - 1 {
                    q.record_ack();
                }
            },
            Response::ProviderAck => {
                if q.acks < usize::MAX - 1 {
                    q.record_ack();
                }
            },
        }
        let ghost qd = q;
        self.drive_query(q, proto, now, &mut effects);
        proof {
            let idx = find_query_index(old(self).queries@, query_id);
            assert(midq == old(self).queries@.remove(idx));
            assert(midp == old(self).protos@.remove(idx));
            assert(self.queries@ == midq || self.queries@ == midq.push(self.queries@.last()));
            if self.queries@ != midq {
                if qd.candidates@.contains(Candidate { peer: from, state: CandState::Done }) {
                    assert(self.queries@.last().candidates@.contains(
                        Candidate { peer: from, state: CandState::Done },
                    ));
                }
            }
            if self.queries@.len() == midq.len() {
                assert(self.queries@ == midq);
                assert(self.protos@ == midp);
                assert(effects@.len() >= 1);
                assert(effects@.last() matches Effect::Report { query_id: rid, .. } && rid
                    == query_id);
            } else {
                assert(self.queries@ == midq.push(self.queries@.last()));
                assert(self.queries@.last().id == query_id);
                assert(forall|j: int| 0 <= j < effects@.len() ==> (
                #[trigger] effects@[j] matches Effect::Send { query_id: sid, .. } && sid
                    == query_id));
            }
        }
        effects
    }

    /// Digest a per-request failure: the peer is pruned from the query and
    /// the traversal goes on; the query itself does not abort.
    pub fn handle_request_failure(&mut self, query_id: u64, from: PeerId, now: u64) -> (effects:
        Vec<Effect>)
        requires
            old(self).wf(),
        ensures
            final(self).wf(),
            final(self).self_peer == old(self).self_peer,
            final(self).records@ == old(self).records@,
            final(self).providers@ == old(self).providers@,
            final(self).routing == old(self).routing,
            ({
                let idx = find_query_index(old(self).queries@, query_id);
                let q = old(self).queries@[idx];
                &&& (idx == -1 ==> final(self).queries@ == old(self).queries@ && final(self).protos@ == old(self).protos@ && effects@.len() == 0)
                &&& (idx >= 0 ==> ({
                    &&& final(self).queries@ == old(self).queries@.remove(idx)
                    &&& final(self).protos@ == old(self).protos@.remove(idx)
                    &&& effects@.len() >= 1
                    &&& (effects@.last() matches Effect::Report { query_id: rid, .. } && rid
                        == query_id)
                } || {
                    &&& final(self).queries@ == old(self).queries@.remove(idx).push(
                        final(self).queries@.last(),
                    )
                    &&& final(self).queries@.last().id == query_id
                    &&& (q.candidates@.contains(
                        Candidate { peer: from, state: CandState::Waiting },
                    ) ==> final(self).queries@.last().candidates@.contains(
                        Candidate { peer: from, state: CandState::Failed },
                    ))
                    &&& forall|j: int| 0 <= j < effects@.len() ==> (
                    #[trigger] effects@[j] matches Effect::Send { query_id: sid, .. } && sid
                        == query_id)
                }))
            }),
    {
        let mut effects: Vec<Effect> = Vec::new();
        let (mut q, proto) = match self.take_query(query_id) {
            Some(qr) => qr,
            None => {
                return effects;
            },
        };
        let ghost qpre = q;
        let ghost midq = self.queries@;
        let ghost midp = self.protos@;
        q.on_failure(from);
        proof {
            if qpre.candidates@.contains(Candidate { peer: from, state: CandState::Waiting }) {
                let j = choose|j: int|
                    0 <= j < qpre.candidates@.len() && #[trigger] qpre.candidates@[j] == (
                    Candidate { peer: from, state: CandState::Waiting });
                assert(q.candidates@[j] == (Candidate { peer: from, state: CandState::Failed }));
                assert(q.candidates@.contains(
                    Candidate { peer: from, state: CandState::Failed },
                ));
            }
        }
        let ghost qd = q;
        self.drive_query(q, proto, now, &mut effects);
        proof {
            let idx = find_query_index(old(self).queries@, query_id);
            assert(midq == old(self).queries@.remove(idx));
            assert(midp == old(self).protos@.remove(idx));
            assert(self.queries@ == midq || self.queries@ == midq.push(self.queries@.last()));
            if self.queries@ != midq {
                if qd.candidates@.contains(Candidate { peer: from, state: CandState::Failed }) {
                    assert(self.queries@.last().candidates@.contains(
                        Candidate { peer: from, state: CandState::Failed },
                    ));
                }
            }
        }
        effects
    }

    /// Fold the closer peers of a response into the query and the table.
    fn merge_closer(&mut self, q: &mut Query, closer: &Vec<PeerId>, now: u64)
        requires
            old(self).wf(),
            old(q).wf(),
        ensures
            final(self).wf(),
            final(q).wf(),
            final(self).self_peer == old(self).self_peer,
            final(self).records@ == old(self).records@,
            final(self).providers@ == old(self).providers@,
            final(self).queries@ == old(self).queries@,
            final(self).protos@ == old(self).protos@,
            final(q).id == old(q).id && final(q).kind == old(q).kind && final(q).target == old(q).target && final(q).quorum == old(q).quorum && final(q).acks == old(q).acks && final(q).providers@ == old(q).providers@,
            forall|x: Candidate| old(q).candidates@.contains(x) ==> final(q).candidates@.contains(
                x,
            ),
    {
        let n: usize = closer.len();
        let mut i: usize = 0;
        while i < n
            invariant
                n == closer@.len(),
                i <= n,
                self.wf(),
                self.self_peer == old(self).self_peer,
                self.records@ == old(self).records@,
                self.providers@ == old(self).providers@,
                self.queries@ == old(self).queries@,
                self.protos@ == old(self).protos@,
                q.wf(),
                q.id == old(q).id && q.kind == old(q).kind && q.target == old(q).target
                    && q.quorum == old(q).quorum && q.acks == old(q).acks && q.providers@ == old(q).providers@,
                forall|x: Candidate| old(q).candidates@.contains(x) ==> q.candidates@.contains(x),
            decreases n - i,
        {
            let p = closer[i];
            if p != self.self_peer {
                let _ = self.routing.add_or_update(p, Vec::new(), now);
                q.add_candidate(p);
            }
            i = i + 1;
        }
    }

    /// The periodic timer: drop every lapsed record and claim, and name a
    /// republish for exactly the live records published here and the live
    /// claims naming this peer.
    pub fn tick(&mut self, now: u64) -> (effects: Vec<Effect>)
        requires
            old(self).wf(),
        ensures
            final(self).wf(),
            final(self).self_peer == old(self).self_peer,
            forall|k: KeyId| #[trigger] final(self).records@.contains_key(k) <==> (old(self).records@.contains_key(k) && rec_live(old(self).records@[k], now)),
            forall|k: KeyId| #[trigger] final(self).records@.contains_key(k) ==> final(self).records@[k] == old(self).records@[k],
            forall|kp: (KeyId, PeerId)| #[trigger] final(self).providers@.contains_key(kp) <==> (
            old(self).providers@.contains_key(kp) && crate::store::prov_live(
                old(self).providers@[kp],
                now,
            )),
            forall|kp: (KeyId, PeerId)| #[trigger] final(self).providers@.contains_key(kp)
                ==> final(self).providers@[kp] == old(self).providers@[kp],
            forall|j: int| 0 <= j < effects@.len() ==> match #[trigger] effects@[j] {
                Effect::RepublishRecord { record } => old(self).records@.contains_key(record@.key)
                    && old(self).records@[record@.key] == record@ && record@.publisher == Some(
                    old(self).self_peer,
                ) && rec_live(record@, now),
                Effect::RepublishProvider { key } => old(self).providers@.contains_key(
                    (key, old(self).self_peer),
                ) && crate::store::prov_live(
                    old(self).providers@[(key, old(self).self_peer)],
                    now,
                ),
                _ => false,
            },
            forall|k: KeyId|
                old(self).records@.contains_key(k) && old(self).records@[k].publisher == Some(
                    old(self).self_peer,
                ) && rec_live(#[trigger] old(self).records@[k], now) ==> exists|j: int|
                    0 <= j < effects@.len() && (#[trigger] effects@[j] matches Effect::RepublishRecord {
                        record,
                    } && record@ == old(self).records@[k]),
            forall|k: KeyId|
                old(self).providers@.contains_key((k, old(self).self_peer))
                    && crate::store::prov_live(
                    #[trigger] old(self).providers@[(k, old(self).self_peer)],
                    now,
                ) ==> exists|j: int| 0 <= j < effects@.len() && #[trigger] effects@[j] == (
                Effect::RepublishProvider { key: k }),
    {
        let mut effects: Vec<Effect> = Vec::new();
        self.records.sweep(now);
        proof {
            assert forall|k: KeyId|
                old(self).records@.contains_key(k) && rec_live(
                    #[trigger] old(self).records@[k],
                    now,
                ) implies self.records@.contains_key(k) && self.records@[k] == old(self).records@[k] by {
                assert(self.records@.contains_key(k));
            }
        }
        self.providers.sweep(now);
        proof {
            assert forall|kp: (KeyId, PeerId)|
                old(self).providers@.contains_key(kp) && crate::store::prov_live(
                    #[trigger] old(self).providers@[kp],
                    now,
                ) implies self.providers@.contains_key(kp) && self.providers@[kp] == old(self).providers@[kp] by {
                assert(self.providers@.contains_key(kp));
            }
        }
        let mine = self.records.records_published_by(self.self_peer, now);
        let nm: usize = mine.len();
        let mut i: usize = 0;
        while i < nm
            invariant
                nm == mine@.len(),
                i <= nm,
                effects@.len() == i,
                forall|jj: int| 0 <= jj < i ==> (#[trigger] effects@[jj] matches Effect::RepublishRecord {
                    record,
                } && record@ == mine@[jj]@),
            decreases nm - i,
        {
            effects.push(Effect::RepublishRecord { record: clone_record(&mine[i]) });
            i = i + 1;
        }
        let claims = self.providers.provided_by(self.self_peer, now);
        let nc: usize = claims.len();
        let mut j: usize = 0;
        while j < nc
            invariant
                nc == claims@.len(),
                nm == mine@.len(),
                j <= nc,
                effects@.len() == nm + j,
                forall|jj: int| 0 <= jj < nm ==> (#[trigger] effects@[jj] matches Effect::RepublishRecord {
                    record,
                } && record@ == mine@[jj]@),
                forall|jj: int| nm <= jj < nm + j ==> #[trigger] effects@[jj] == (
                Effect::RepublishProvider { key: claims@[jj - nm].key }),
            decreases nc - j,
        {
            effects.push(Effect::RepublishProvider { key: claims[j].key });
            j = j + 1;
        }
        proof {
            let pre = *old(self);
            let post = *self;
            assert forall|jx: int| 0 <= jx < effects@.len() implies match #[trigger] effects@[jx] {
                Effect::RepublishRecord { record } => pre.records@.contains_key(record@.key)
                    && pre.records@[record@.key] == record@ && record@.publisher == Some(
                    pre.self_peer,
                ) && rec_live(record@, now),
                Effect::RepublishProvider { key } => pre.providers@.contains_key(
                    (key, pre.self_peer),
                ) && crate::store::prov_live(pre.providers@[(key, pre.self_peer)], now),
                _ => false,
            } by {
                if jx < nm {
                    assert(effects@[jx] matches Effect::RepublishRecord { record } && record@
                        == mine@[jx]@);
                    let r = mine@[jx]@;
                    assert(post.records@.contains_key(r.key) && post.records@[r.key] == r);
                } else {
                    assert(effects@[jx] == (Effect::RepublishProvider {
                        key: claims@[jx - nm].key,
                    }));
                    let c = claims@[jx - nm];
                    assert(post.providers@.contains_key((c.key, pre.self_peer))
                        && post.providers@[(c.key, pre.self_peer)] == c);
                }
            }
            assert forall|k: KeyId|
                pre.records@.contains_key(k) && pre.records@[k].publisher == Some(pre.self_peer)
                    && rec_live(#[trigger] pre.records@[k], now) implies exists|jx: int|
                0 <= jx < effects@.len() && (#[trigger] effects@[jx] matches Effect::RepublishRecord {
                    record,
                } && record@ == pre.records@[k]) by {
                assert(post.records@.contains_key(k) && post.records@[k] == pre.records@[k]);
                let jj = choose|jj: int|
                    0 <= jj < mine@.len() && #[trigger] mine@[jj]@ == post.records@[k];
                assert(effects@[jj] matches Effect::RepublishRecord { record } && record@
                    == pre.records@[k]);
            }
            assert forall|k: KeyId|
                pre.providers@.contains_key((k, pre.self_peer)) && crate::store::prov_live(
                    #[trigger] pre.providers@[(k, pre.self_peer)],
                    now,
                ) implies exists|jx: int| 0 <= jx < effects@.len() && #[trigger] effects@[jx] == (
            Effect::RepublishProvider { key: k }) by {
                assert(post.providers@.contains_key((k, pre.self_peer)) && post.providers@[(
                    k,
                    pre.self_peer,
                )] == pre.providers@[(k, pre.self_peer)]);
                let jj = choose|jj: int|
                    0 <= jj < claims@.len() && (#[trigger] claims@[jj]).key == k;
                assert(effects@[nm + jj] == (Effect::RepublishProvider { key: k }));
            }
        }
        effects
    }
}

/// Append `p` unless it is already listed.
fn push_unique(list: Vec<PeerId>, p: PeerId) -> (out: Vec<PeerId>)
    ensures
        forall|x: PeerId| #[trigger] out@.contains(x) <==> (list@.contains(x) || x == p),
{
    let n: usize = list.len();
    let mut i: usize = 0;
    while i < n
        invariant
            n == list@.len(),
            i <= n,
            forall|j: int| 0 <= j < i ==> #[trigger] list@[j] != p,
        decreases n - i,
    {
        if list[i] == p {
            proof {
                assert forall|x: PeerId| #[trigger] list@.contains(x) <==> (list@.contains(x) || x
                    == p) by {
                    if x == p {
                        assert(list@[i as int] == p);
                    }
                }
            }
            return list;
        }
        i = i + 1;
    }
    let mut out = list;
    let ghost before = out@;
    out.push(p);
    proof {
        assert forall|x: PeerId| #[trigger] out@.contains(x) implies (before.contains(x) || x
            == p) by {
            let j = choose|j: int| 0 <= j < out@.len() && out@[j] == x;
            if j < before.len() {
                assert(before[j] == x);
            }
        }
        assert forall|x: PeerId| (before.contains(x) || x == p) implies #[trigger] out@.contains(
            x,
        ) by {
            if before.contains(x) {
                let j = choose|j: int| 0 <= j < before.len() && before[j] == x;
                assert(out@[j] == x);
            } else {
                assert(out@[out@.len() - 1] == x);
            }
        }
    }
    out
}

/// The provider identifiers named in a list of claims.
fn provider_ids(list: &Vec<ProviderRecord>) -> (out: Vec<PeerId>)
    ensures
        out@.len() == list@.len(),
        forall|j: int| 0 <= j < list@.len() ==> #[trigger] out@[j] == list@[j].provider,
{
    let n: usize = list.len();
    let mut out: Vec<PeerId> = Vec::new();
    let mut i: usize = 0;
    while i < n
        invariant
            n == list@.len(),
            i <= n,
            out@.len() == i,
            forall|j: int| 0 <= j < i ==> #[trigger] out@[j] == list@[j].provider,
        decreases n - i,
    {
        out.push(list[i].provider);
        i = i + 1;
    }
    out
}

/// A structural copy of a record.
fn clone_record(r: &Record) -> (out: Record)
    ensures
        out@ == r@,
{
    Record {
        key: r.key,
        value: crate::ident::copy_bytes(r.value.as_slice()),
        publisher: r.publisher,
        expires: r.expires,
    }
}

/// A structural copy of a request.
fn clone_request(r: &Request) -> (out: Request)
    ensures
        out@ == r@,
{
    match r {
        Request::FindNode { target } => Request::FindNode { target: *target },
        Request::GetValue { key } => Request::GetValue { key: *key },
        Request::GetProviders { key } => Request::GetProviders { key: *key },
        Request::Store { record } => Request::Store { record: clone_record(record) },
        Request::AddProvider { key, provider, expires } => Request::AddProvider {
            key: *key,
            provider: *provider,
            expires: *expires,
        },
    }
}

} // verus!
