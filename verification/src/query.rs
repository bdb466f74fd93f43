//! The iterative query state machine.
//!
//! A query walks the identifier space toward its target: it keeps a
//! candidate list sorted by distance, hands out up to `ALPHA` requests at a
//! time to the closest peers not yet asked, folds returned peers back into
//! the list, and collects values, providers or acknowledgements according to
//! its kind. A peer that fails is set aside and never asked again; the query
//! is exhausted once no candidate is fresh and none is in flight.

use vstd::prelude::*;
use crate::ident::{KeyId, PeerId, ALPHA, distance, xor_distance};
use crate::store::ProviderRecord;

verus! {

/// Where one candidate stands in the traversal.
#[derive(Clone, Copy, PartialEq, Eq, Structural, Debug)]
pub enum CandState {
    /// Not asked yet.
    Fresh,
    /// A request to it is in flight.
    Waiting,
    /// It answered.
    Done,
    /// It timed out or was unreachable; dropped from consideration.
    Failed,
}

/// One peer in the candidate list.
#[derive(Clone, Copy, PartialEq, Eq, Structural, Debug)]
pub struct Candidate {
    pub peer: PeerId,
    pub state: CandState,
}

/// What a query is after.
#[derive(Clone, Copy, PartialEq, Eq, Structural, Debug)]
pub enum QueryKind {
    FindNode,
    FindClosest,
    GetValue,
    GetProviders,
    PutRecord,
    StartProviding,
}

/// Candidates sorted by distance to `target`.
pub open spec fn cand_sorted(target: KeyId, s: Seq<Candidate>) -> bool {
    forall|a: int, b: int| 0 <= a < b < s.len() ==> distance(target, (#[trigger] s[a]).peer)
        <= distance(target, (#[trigger] s[b]).peer)
}

/// No candidate peer twice.
pub open spec fn cand_distinct(s: Seq<Candidate>) -> bool {
    forall|a: int, b: int| 0 <= a < b < s.len() ==> (#[trigger] s[a]).peer != (
    #[trigger] s[b]).peer
}

pub proof fn lemma_count_state_none(s: Seq<Candidate>, st: CandState)
    requires
        forall|j: int| 0 <= j < s.len() ==> (#[trigger] s[j]).state != st,
    ensures
        count_state(s, st) == 0,
    decreases s.len(),
{
    if s.len() > 0 {
        assert(s[s.len() - 1] == s.last());
        lemma_count_state_none(s.drop_last(), st);
    }
}

/// In a sequence whose candidates all stand in `st`, the count is the length.
pub proof fn lemma_count_state_all(s: Seq<Candidate>, st: CandState)
    requires
        forall|j: int| 0 <= j < s.len() ==> (#[trigger] s[j]).state == st,
    ensures
        count_state(s, st) == s.len(),
    decreases s.len(),
{
    if s.len() > 0 {
        assert(s[s.len() - 1] == s.last());
        lemma_count_state_all(s.drop_last(), st);
    }
}

/// How many candidates are in state `st`.
pub open spec fn count_state(s: Seq<Candidate>, st: CandState) -> int
    decreases s.len(),
{
    if s.len() == 0 {
        0
    } else {
        count_state(s.drop_last(), st) + if s.last().state == st {
            1int
        } else {
            0int
        }
    }
}

/// One iterative lookup, from creation to exhaustion.
pub struct Query {
    /// Distinguishes this query among those outstanding.
    pub id: u64,
    /// What it is after.
    pub kind: QueryKind,
    /// The identifier it walks toward.
    pub target: KeyId,
    /// Confirmations required before a PUT or GET is satisfied.
    pub quorum: usize,
    /// Peers to ask, sorted by distance to the target.
    pub candidates: Vec<Candidate>,
    /// Acknowledgements received (store and add-provider requests).
    pub acks: usize,
    /// Providers heard, one entry per claim.
    pub providers: Vec<ProviderRecord>,
}

impl Query {
    /// Sorted, duplicate-free candidates.
    pub open spec fn wf(self) -> bool {
        &&& cand_sorted(self.target, self.candidates@)
        &&& cand_distinct(self.candidates@)
    }

    /// A fresh query seeded with the given peers, all unasked.
    pub fn new(id: u64, kind: QueryKind, target: KeyId, quorum: usize, seeds: &Vec<PeerId>) -> (q:
        Query)
        requires
            forall|a: int, b: int| 0 <= a < b < seeds@.len() ==> distance(
                target,
                #[trigger] seeds@[a],
            ) <= distance(target, #[trigger] seeds@[b]),
            forall|a: int, b: int| 0 <= a < b < seeds@.len() ==> #[trigger] seeds@[a]
                != #[trigger] seeds@[b],
        ensures
            q.wf(),
            q.id == id,
            q.kind == kind,
            q.target == target,
            q.quorum == quorum,
            q.candidates@.len() == seeds@.len(),
            forall|j: int| 0 <= j < seeds@.len() ==> q.candidates@[j] == (Candidate {
                peer: seeds@[j],
                state: CandState::Fresh,
            }),
            q.acks == 0,
            q.providers@.len() == 0,
    {
        let n: usize = seeds.len();
        let mut candidates: Vec<Candidate> = Vec::new();
        let mut i: usize = 0;
        while i < n
            invariant
                n == seeds@.len(),
                i <= n,
                candidates@.len() == i,
                forall|j: int| 0 <= j < i ==> candidates@[j] == (Candidate {
                    peer: seeds@[j],
                    state: CandState::Fresh,
                }),
            decreases n - i,
        {
            candidates.push(Candidate { peer: seeds[i], state: CandState::Fresh });
            i = i + 1;
        }
        Query { id, kind, target, quorum, candidates, acks: 0, providers: Vec::new() }
    }

    /// Fold one heard-of peer in: ignored if already a candidate, else a
    /// fresh candidate at its sorted place.
    pub fn add_candidate(&mut self, p: PeerId)
        requires
            old(self).wf(),
        ensures
            final(self).wf(),
            final(self).id == old(self).id && final(self).kind == old(self).kind && final(self).target == old(self).target && final(self).quorum == old(self).quorum && final(self).acks == old(self).acks && final(self).providers@ == old(self).providers@,
            forall|x: Candidate| #[trigger] final(self).candidates@.contains(x) <==> (old(self).candidates@.contains(x) || ((forall|j: int| 0 <= j < old(self).candidates@.len()
                ==> (#[trigger] old(self).candidates@[j]).peer != p) && x == (Candidate {
                peer: p,
                state: CandState::Fresh,
            }))),
    {
        let n: usize = self.candidates.len();
        let mut i: usize = 0;
        while i < n
            invariant
                n == self.candidates@.len(),
                i <= n,
                self.wf(),
                self == old(self),
                forall|j: int| 0 <= j < i ==> (#[trigger] self.candidates@[j]).peer != p,
            decreases n - i,
        {
            if self.candidates[i].peer == p {
                return ;
            }
            i = i + 1;
        }
        let de = xor_distance(self.target, p);
        let mut pos: usize = 0;
        let mut stop = false;
        while pos < n && !stop
            invariant
                pos <= n,
                n == self.candidates@.len(),
                self.wf(),
                self == old(self),
                de == distance(self.target, p),
                forall|q: int| 0 <= q < pos ==> distance(
                    self.target,
                    (#[trigger] self.candidates@[q]).peer,
                ) <= de,
                stop ==> pos < n && distance(
                    self.target,
                    self.candidates@[pos as int].peer,
                ) > de,
            decreases n - pos + if stop {
                0int
            } else {
                1int
            },
        {
            if xor_distance(self.target, self.candidates[pos].peer) <= de {
                pos = pos + 1;
            } else {
                stop = true;
            }
        }
        let ghost sold = self.candidates@;
        let c = Candidate { peer: p, state: CandState::Fresh };
        self.candidates.insert(pos, c);
        proof {
            let snew = self.candidates@;
            assert(snew =~= sold.insert(pos as int, c));
            assert forall|x: int| 0 <= x < snew.len() implies snew[x] == (if x < pos {
                sold[x]
            } else if x == pos {
                c
            } else {
                sold[x - 1]
            }) by {}
            assert forall|a: int, b: int| 0 <= a < b < snew.len() implies distance(
                self.target,
                (#[trigger] snew[a]).peer,
            ) <= distance(self.target, (#[trigger] snew[b]).peer) by {
                if b == pos {
                    assert(distance(self.target, snew[a].peer) <= de);
                } else if a == pos && b > pos {
                    assert(distance(self.target, sold[b - 1].peer) >= de);
                }
            }
            assert forall|a: int, b: int| 0 <= a < b < snew.len() implies (
            #[trigger] snew[a]).peer != (#[trigger] snew[b]).peer by {}
            assert forall|x: Candidate| #[trigger] snew.contains(x) implies (sold.contains(x) || x
                == c) by {
                let j = choose|j: int| 0 <= j < snew.len() && snew[j] == x;
                if j < pos {
                    assert(sold[j] == x);
                } else if j > pos {
                    assert(sold[j - 1] == x);
                }
            }
            assert forall|x: Candidate| (sold.contains(x) || x == c) implies #[trigger] snew.contains(
                x,
            ) by {
                if sold.contains(x) {
                    let j = choose|j: int| 0 <= j < sold.len() && sold[j] == x;
                    if j < pos {
                        assert(snew[j] == x);
                    } else {
                        assert(snew[j + 1] == x);
                    }
                } else {
                    assert(snew[pos as int] == x);
                }
            }
        }
    }

    /// How many candidates stand in state `st`.
    fn count_in(&self, st: CandState) -> (c: usize)
        ensures
            c == count_state(self.candidates@, st),
    {
        let n: usize = self.candidates.len();
        let mut c: usize = 0;
        let mut i: usize = 0;
        while i < n
            invariant
                n == self.candidates@.len(),
                i <= n,
                c <= i,
                c == count_state(self.candidates@.take(i as int), st),
            decreases n - i,
        {
            proof {
                assert(self.candidates@.take(i + 1 as int).drop_last() =~= self.candidates@.take(
                    i as int,
                ));
                assert(self.candidates@.take(i + 1 as int).last() == self.candidates@[i as int]);
            }
            if self.candidates[i].state == st {
                c = c + 1;
            }
            i = i + 1;
        }
        proof {
            assert(self.candidates@.take(n as int) =~= self.candidates@);
        }
        c
    }

    /// The closest fresh candidates, up to `ALPHA` minus those already in
    /// flight; each returned peer is marked waiting.
    pub fn next_batch(&mut self) -> (batch: Vec<PeerId>)
        requires
            old(self).wf(),
        ensures
            final(self).wf(),
            final(self).id == old(self).id && final(self).kind == old(self).kind && final(self).target == old(self).target && final(self).quorum == old(self).quorum && final(self).acks == old(self).acks && final(self).providers@ == old(self).providers@,
            final(self).candidates@.len() == old(self).candidates@.len(),
            forall|j: int| 0 <= j < old(self).candidates@.len() ==> (#[trigger] final(self).candidates@[j]).peer == old(self).candidates@[j].peer,
            forall|j: int| 0 <= j < old(self).candidates@.len() ==> final(self).candidates@[j]
                == old(self).candidates@[j] || (old(self).candidates@[j].state == CandState::Fresh
                && (#[trigger] final(self).candidates@[j]).state == CandState::Waiting
                && batch@.contains(old(self).candidates@[j].peer)),
            forall|x: PeerId| #[trigger] batch@.contains(x) ==> exists|j: int|
                0 <= j < old(self).candidates@.len() && (#[trigger] old(self).candidates@[j]).peer == x && old(self).candidates@[j].state == CandState::Fresh,
            count_state(old(self).candidates@, CandState::Waiting) < ALPHA ==> batch@.len()
                + count_state(old(self).candidates@, CandState::Waiting) <= ALPHA,
            count_state(old(self).candidates@, CandState::Waiting) < ALPHA ==> batch@.len() == (
            if ALPHA - count_state(old(self).candidates@, CandState::Waiting) <= count_state(
                old(self).candidates@,
                CandState::Fresh,
            ) {
                ALPHA - count_state(old(self).candidates@, CandState::Waiting)
            } else {
                count_state(old(self).candidates@, CandState::Fresh)
            }),
            count_state(old(self).candidates@, CandState::Waiting) >= ALPHA ==> batch@.len() == 0,
            forall|a: int, b: int| 0 <= a < b < batch@.len() ==> batch@[a] != batch@[b],
            batch@.len() == 0 ==> count_state(old(self).candidates@, CandState::Waiting) >= ALPHA
                || count_state(old(self).candidates@, CandState::Fresh) == 0,
    {
        let waiting = self.count_in(CandState::Waiting);
        let mut batch: Vec<PeerId> = Vec::new();
        if waiting >= ALPHA {
            return batch;
        }
        let room: usize = ALPHA - waiting;
        let n: usize = self.candidates.len();
        let mut i: usize = 0;
        while i < n
            invariant
                n == self.candidates@.len(),
                i <= n,
                self.wf(),
                batch@.len() <= room,
                1 <= room,
                room + count_state(old(self).candidates@, CandState::Waiting) == ALPHA,
                self.candidates@.len() == old(self).candidates@.len(),
                self.id == old(self).id && self.kind == old(self).kind && self.target == old(self).target && self.quorum == old(self).quorum && self.acks == old(self).acks
                    && self.providers@ == old(self).providers@,
                forall|j: int| 0 <= j < n ==> (#[trigger] self.candidates@[j]).peer == old(self).candidates@[j].peer,
                forall|j: int| 0 <= j < n ==> self.candidates@[j] == old(self).candidates@[j] || (
                old(self).candidates@[j].state == CandState::Fresh && (#[trigger] self.candidates@[j]).state
                    == CandState::Waiting && batch@.contains(old(self).candidates@[j].peer)),
                forall|j: int| i <= j < n ==> self.candidates@[j] == old(self).candidates@[j],
                forall|x: PeerId| #[trigger] batch@.contains(x) ==> exists|j: int| 0 <= j < n && (
                #[trigger] old(self).candidates@[j]).peer == x && old(self).candidates@[j].state
                    == CandState::Fresh,
                batch@.len() == (if room <= count_state(
                    old(self).candidates@.take(i as int),
                    CandState::Fresh,
                ) {
                    room as int
                } else {
                    count_state(old(self).candidates@.take(i as int), CandState::Fresh)
                }),
                forall|a: int| 0 <= a < batch@.len() ==> exists|j: int| 0 <= j < i && (
                #[trigger] batch@[a]) == old(self).candidates@[j].peer && old(
                    self,
                ).candidates@[j].state == CandState::Fresh,
                forall|a: int, b: int| 0 <= a < b < batch@.len() ==> batch@[a] != batch@[b],
                cand_distinct(old(self).candidates@),
                batch@.len() == 0 ==> forall|j: int| 0 <= j < i ==> (#[trigger] old(self).candidates@[j]).state != CandState::Fresh,
            decreases n - i,
        {
            proof {
                assert(old(self).candidates@.take(i + 1 as int).drop_last()
                    =~= old(self).candidates@.take(i as int));
                assert(old(self).candidates@.take(i + 1 as int).last() == old(
                    self,
                ).candidates@[i as int]);
            }
            if batch.len() < room && self.candidates[i].state == CandState::Fresh {
                let p = self.candidates[i].peer;
                self.candidates.set(i, Candidate { peer: p, state: CandState::Waiting });
                let ghost bb = batch@;
                batch.push(p);
                proof {
                    assert(batch@[batch@.len() - 1] == p);
                    assert forall|x: PeerId| bb.contains(x) implies #[trigger] batch@.contains(
                        x,
                    ) by {
                        let jx = choose|jx: int| 0 <= jx < bb.len() && bb[jx] == x;
                        assert(batch@[jx] == x);
                    }
                    assert forall|x: PeerId| #[trigger] batch@.contains(x) implies exists|j: int|
                        0 <= j < n && (#[trigger] old(self).candidates@[j]).peer == x && old(self).candidates@[j].state == CandState::Fresh by {
                        let jx = choose|jx: int| 0 <= jx < batch@.len() && batch@[jx] == x;
                        if jx < bb.len() {
                            assert(bb.contains(x));
                        } else {
                            assert(old(self).candidates@[i as int].peer == x);
                        }
                    }
                    assert forall|a: int, b: int|
                        0 <= a < b < batch@.len() implies batch@[a] != batch@[b] by {
                        if b == batch@.len() - 1 {
                            let j = choose|j: int|
                                0 <= j < i && #[trigger] batch@[a] == old(
                                    self,
                                ).candidates@[j].peer && old(self).candidates@[j].state
                                    == CandState::Fresh;
                            assert((old(self).candidates@[j]).peer != (old(
                                self,
                            ).candidates@[i as int]).peer);
                        } else {
                            assert(batch@[a] == bb[a] && batch@[b] == bb[b]);
                        }
                    }
                    assert forall|a: int| 0 <= a < batch@.len() implies exists|j: int|
                        0 <= j < i + 1 && (#[trigger] batch@[a]) == old(self).candidates@[j].peer
                            && old(self).candidates@[j].state == CandState::Fresh by {
                        if a < batch@.len() - 1 {
                            let j = choose|j: int|
                                0 <= j < i && #[trigger] bb[a] == old(self).candidates@[j].peer
                                    && old(self).candidates@[j].state == CandState::Fresh;
                            assert(batch@[a] == old(self).candidates@[j].peer);
                        } else {
                            assert(batch@[a] == old(self).candidates@[i as int].peer);
                        }
                    }
                }
            }
            i = i + 1;
        }
        proof {
            assert(old(self).candidates@.take(n as int) =~= old(self).candidates@);
            if batch@.len() == 0 {
                lemma_count_state_none(old(self).candidates@, CandState::Fresh);
            }
        }
        batch
    }

    /// Mark `from`'s answer: its waiting candidate is done.
    pub fn on_response(&mut self, from: PeerId)
        requires
            old(self).wf(),
        ensures
            final(self).wf(),
            final(self).id == old(self).id && final(self).kind == old(self).kind && final(self).target == old(self).target && final(self).quorum == old(self).quorum && final(self).acks == old(self).acks && final(self).providers@ == old(self).providers@,
            final(self).candidates@.len() == old(self).candidates@.len(),
            forall|j: int| 0 <= j < old(self).candidates@.len() ==> final(self).candidates@[j] == (
            if old(self).candidates@[j].peer == from && old(self).candidates@[j].state
                == CandState::Waiting {
                Candidate { peer: from, state: CandState::Done }
            } else {
                #[trigger] old(self).candidates@[j]
            }),
    {
        self.set_state(from, CandState::Waiting, CandState::Done);
    }

    /// Mark `from` unreachable: its waiting candidate has failed and is
    /// dropped from further consideration.
    pub fn on_failure(&mut self, from: PeerId)
        requires
            old(self).wf(),
        ensures
            final(self).wf(),
            final(self).id == old(self).id && final(self).kind == old(self).kind && final(self).target == old(self).target && final(self).quorum == old(self).quorum && final(self).acks == old(self).acks && final(self).providers@ == old(self).providers@,
            final(self).candidates@.len() == old(self).candidates@.len(),
            forall|j: int| 0 <= j < old(self).candidates@.len() ==> final(self).candidates@[j] == (
            if old(self).candidates@[j].peer == from && old(self).candidates@[j].state
                == CandState::Waiting {
                Candidate { peer: from, state: CandState::Failed }
            } else {
                #[trigger] old(self).candidates@[j]
            }),
    {
        self.set_state(from, CandState::Waiting, CandState::Failed);
    }

    /// Move `from` out of `was` into `to`, when it stands in `was`.
    fn set_state(&mut self, from: PeerId, was: CandState, to: CandState)
        requires
            old(self).wf(),
        ensures
            final(self).wf(),
            final(self).id == old(self).id && final(self).kind == old(self).kind && final(self).target == old(self).target && final(self).quorum == old(self).quorum && final(self).acks == old(self).acks && final(self).providers@ == old(self).providers@,
            final(self).candidates@.len() == old(self).candidates@.len(),
            forall|j: int| 0 <= j < old(self).candidates@.len() ==> final(self).candidates@[j] == (
            if old(self).candidates@[j].peer == from && old(self).candidates@[j].state == was {
                Candidate { peer: from, state: to }
            } else {
                #[trigger] old(self).candidates@[j]
            }),
    {
        let n: usize = self.candidates.len();
        let mut i: usize = 0;
        while i < n
            invariant
                n == self.candidates@.len(),
                i <= n,
                self.wf(),
                self == old(self),
                forall|j: int| 0 <= j < i ==> !((#[trigger] self.candidates@[j]).peer == from
                    && self.candidates@[j].state == was),
            decreases n - i,
        {
            if self.candidates[i].peer == from && self.candidates[i].state == was {
                let ghost sold = self.candidates@;
                self.candidates.set(i, Candidate { peer: from, state: to });
                proof {
                    assert forall|a: int, b: int|
                        0 <= a < b < self.candidates@.len() implies distance(
                        self.target,
                        (#[trigger] self.candidates@[a]).peer,
                    ) <= distance(self.target, (#[trigger] self.candidates@[b]).peer) && (
                    self.candidates@[a]).peer != (self.candidates@[b]).peer by {
                        assert(sold[a].peer == self.candidates@[a].peer);
                        assert(sold[b].peer == self.candidates@[b].peer);
                    }
                }
                return ;
            }
            i = i + 1;
        }
    }

    /// Count one acknowledgement of a store or add-provider request.
    pub fn record_ack(&mut self)
        requires
            old(self).acks < usize::MAX,
        ensures
            final(self).acks == old(self).acks + 1,
            final(self).candidates@ == old(self).candidates@,
            final(self).id == old(self).id && final(self).kind == old(self).kind && final(self).target == old(self).target && final(self).quorum == old(self).quorum && final(self).providers@ == old(self).providers@,
    {
        self.acks = self.acks + 1;
    }

    /// Exhausted: nothing fresh and nothing in flight.
    pub fn exhausted(&self) -> (r: bool)
        ensures
            r == (count_state(self.candidates@, CandState::Fresh) == 0 && count_state(
                self.candidates@,
                CandState::Waiting,
            ) == 0),
    {
        let f = self.count_in(CandState::Fresh);
        let w = self.count_in(CandState::Waiting);
        f == 0 && w == 0
    }
}

/// A query seeded from an empty routing table is exhausted at once: with no
/// candidates, nothing is fresh and nothing waits, so the first poll ends it.
pub proof fn lemma_empty_query_exhausted(q: Query)
    requires
        q.candidates@.len() == 0,
    ensures
        count_state(q.candidates@, CandState::Fresh) == 0,
        count_state(q.candidates@, CandState::Waiting) == 0,
{
}

} // verus!
