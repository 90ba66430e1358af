use vstd::prelude::*;

use crate::context::{has_channel, NetworkContext};
use crate::message::{
    encode_block_proposal, ids_view, is_request_frame, request_ids, response_bytes, txs_view,
    GetBlockProposal, Transaction,
};
use crate::pending::{add_waiter, without_peer, PendingProposalsRequest};
use crate::short_id::ProposalShortId;
use crate::tx_pool::TxPool;
use crate::PeerIndex;

verus! {

/// The peers waiting for `k`; empty when nobody waits.
pub open spec fn waiters_of(m: Map<Seq<u8>, Set<PeerIndex>>, k: Seq<u8>) -> Set<PeerIndex> {
    if m.contains_key(k) {
        m[k]
    } else {
        Set::empty()
    }
}

/// Whether `k` was asked for in `ids` and is not in the pool.
pub open spec fn is_miss(pool: Map<Seq<u8>, Seq<u8>>, ids: Seq<Seq<u8>>, k: Seq<u8>) -> bool {
    ids.contains(k) && !pool.contains_key(k)
}

/// The pending table after `peer` asked for `ids`: `peer` joins the waiter set
/// of every asked identifier that the pool lacks; nothing else changes.
pub open spec fn record_misses(
    pending: Map<Seq<u8>, Set<PeerIndex>>,
    pool: Map<Seq<u8>, Seq<u8>>,
    ids: Seq<Seq<u8>>,
    peer: PeerIndex,
) -> Map<Seq<u8>, Set<PeerIndex>> {
    Map::new(
        |k: Seq<u8>| pending.contains_key(k) || is_miss(pool, ids, k),
        |k: Seq<u8>|
            if is_miss(pool, ids, k) {
                waiters_of(pending, k).insert(peer)
            } else {
                pending[k]
            },
    )
}

/// The transactions of the pool that `ids` names, in the order asked.
pub open spec fn hits(pool: Map<Seq<u8>, Seq<u8>>, ids: Seq<Seq<u8>>) -> Seq<Seq<u8>>
    decreases ids.len(),
{
    if ids.len() == 0 {
        Seq::empty()
    } else if pool.contains_key(ids.last()) {
        hits(pool, ids.drop_last()).push(pool[ids.last()])
    } else {
        hits(pool, ids.drop_last())
    }
}

proof fn lemma_take_contains(s: Seq<Seq<u8>>, i: int)
    requires
        0 <= i < s.len(),
    ensures
        forall|k: Seq<u8>| s.take(i + 1).contains(k) <==> (s.take(i).contains(k) || k == s[i]),
{
    assert forall|k: Seq<u8>| s.take(i + 1).contains(k) <==> (s.take(i).contains(k) || k == s[i]) by {
        if s.take(i).contains(k) {
            let t = s.take(i);
            let j = choose|j: int| 0 <= j < t.len() && t[j] == k;
            assert(s.take(i + 1)[j] == k);
        }
        if k == s[i] {
            assert(s.take(i + 1)[i] == k);
        }
        if s.take(i + 1).contains(k) {
            let t = s.take(i + 1);
            let j = choose|j: int| 0 <= j < t.len() && t[j] == k;
            if j < i {
                assert(s.take(i)[j] == k);
            }
        }
    }
}

/// The pending table after each request of `reqs`, a peer and the
/// identifiers it asked for, has been answered in turn.
pub open spec fn after_requests(
    pending: Map<Seq<u8>, Set<PeerIndex>>,
    pool: Map<Seq<u8>, Seq<u8>>,
    reqs: Seq<(PeerIndex, Seq<Seq<u8>>)>,
) -> Map<Seq<u8>, Set<PeerIndex>>
    decreases reqs.len(),
{
    if reqs.len() == 0 {
        pending
    } else {
        record_misses(after_requests(pending, pool, reqs.drop_last()), pool, reqs.last().1, reqs.last().0)
    }
}

/// The peers that sent the requests of `reqs`.
pub open spec fn requesters(reqs: Seq<(PeerIndex, Seq<Seq<u8>>)>) -> Set<PeerIndex> {
    reqs.map_values(|q: (PeerIndex, Seq<Seq<u8>>)| q.0).to_set()
}

/// When a transaction is missing from the pool, any number of requests that
/// name it, from any peers and in any order, leave a single waiter set for it:
/// the peers that waited before together with every requester. Since this set
/// does not depend on the order of the requests, no order loses an update.
pub proof fn lemma_deduplication(
    pending: Map<Seq<u8>, Set<PeerIndex>>,
    pool: Map<Seq<u8>, Seq<u8>>,
    id: Seq<u8>,
    reqs: Seq<(PeerIndex, Seq<Seq<u8>>)>,
)
    requires
        !pool.contains_key(id),
        forall|i: int| 0 <= i < reqs.len() ==> (#[trigger] reqs[i]).1.contains(id),
    ensures
        after_requests(pending, pool, reqs).contains_key(id) <==> (pending.contains_key(id)
            || reqs.len() > 0),
        waiters_of(after_requests(pending, pool, reqs), id) == waiters_of(pending, id).union(
            requesters(reqs),
        ),
    decreases reqs.len(),
{
    let who = reqs.map_values(|q: (PeerIndex, Seq<Seq<u8>>)| q.0);
    if reqs.len() == 0 {
        assert(waiters_of(pending, id).union(requesters(reqs)) =~= waiters_of(pending, id));
    } else {
        let rest = reqs.drop_last();
        assert forall|i: int| 0 <= i < rest.len() implies (#[trigger] rest[i]).1.contains(id) by {
            assert(rest[i] == reqs[i]);
        }
        lemma_deduplication(pending, pool, id, rest);
        let last = reqs.last();
        assert(reqs[reqs.len() - 1] == last);
        let rwho = rest.map_values(|q: (PeerIndex, Seq<Seq<u8>>)| q.0);
        assert(who.drop_last() =~= rwho);
        assert forall|x: PeerIndex| who.to_set().contains(x) <==> (rwho.to_set().contains(x)
            || x == last.0) by {
            if rwho.contains(x) {
                let j = choose|j: int| 0 <= j < rwho.len() && rwho[j] == x;
                assert(who[j] == x);
            }
            if who.contains(x) {
                let j = choose|j: int| 0 <= j < who.len() && who[j] == x;
                if j < rwho.len() {
                    assert(rwho[j] == x);
                }
            }
            assert(who[who.len() - 1] == last.0);
        }
        assert(waiters_of(after_requests(pending, pool, reqs), id) =~= waiters_of(pending, id).union(
            requesters(reqs),
        ));
    }
}

/// Asking twice for the same identifiers from the same peer changes the pending
/// table no more than asking once; in particular a peer that asks twice for a
/// missing transaction nobody else waited for is its only waiter, once.
pub proof fn lemma_repeat_request(
    pending: Map<Seq<u8>, Set<PeerIndex>>,
    pool: Map<Seq<u8>, Seq<u8>>,
    ids: Seq<Seq<u8>>,
    peer: PeerIndex,
)
    ensures
        record_misses(record_misses(pending, pool, ids, peer), pool, ids, peer) == record_misses(
            pending,
            pool,
            ids,
            peer,
        ),
        forall|id: Seq<u8>|
            ids.contains(id) && !pool.contains_key(id) && !pending.contains_key(id) ==> {
                &&& record_misses(record_misses(pending, pool, ids, peer), pool, ids, peer)[id]
                    == set![peer]
                &&& (#[trigger] record_misses(
                    record_misses(pending, pool, ids, peer),
                    pool,
                    ids,
                    peer,
                )[id]).len() == 1
            },
{
    let once = record_misses(pending, pool, ids, peer);
    let twice = record_misses(once, pool, ids, peer);
    assert forall|k: Seq<u8>| #[trigger] twice.contains_key(k) implies twice[k] == once[k] by {
        if is_miss(pool, ids, k) {
            assert(twice[k] =~= once[k]);
        }
    }
    assert(twice =~= once);
    assert forall|id: Seq<u8>|
        ids.contains(id) && !pool.contains_key(id) && !pending.contains_key(id) implies (#[trigger] twice[id]).len() == 1 && twice[id] == set![peer] by {
        assert(once[id] =~= set![peer]);
        assert(set![peer].len() == 1) by {
            assert(set![peer] =~= Set::<PeerIndex>::empty().insert(peer));
        }
    }
}

/// A transaction the pool holds is always served when asked for, and asking
/// for it never touches its entry in the pending table.
pub proof fn lemma_hit_served(
    pending: Map<Seq<u8>, Set<PeerIndex>>,
    pool: Map<Seq<u8>, Seq<u8>>,
    ids: Seq<Seq<u8>>,
    peer: PeerIndex,
    id: Seq<u8>,
)
    requires
        pool.contains_key(id),
        ids.contains(id),
    ensures
        hits(pool, ids).contains(pool[id]),
        record_misses(pending, pool, ids, peer).contains_key(id) <==> pending.contains_key(id),
        pending.contains_key(id) ==> record_misses(pending, pool, ids, peer)[id] == pending[id],
    decreases ids.len(),
{
    let rest = ids.drop_last();
    if ids.last() == id {
        let h = hits(pool, rest).push(pool[id]);
        assert(h[h.len() - 1] == pool[id]);
    } else {
        let j = choose|j: int| 0 <= j < ids.len() && ids[j] == id;
        assert(j < rest.len());
        assert(rest[j] == id);
        lemma_hit_served(pending, pool, rest, peer, id);
        let h = hits(pool, rest);
        let i = choose|i: int| 0 <= i < h.len() && h[i] == pool[id];
        if pool.contains_key(ids.last()) {
            assert(h.push(pool[ids.last()])[i] == pool[id]);
        }
    }
}

/// A request that names no identifier is answered with no transaction and
/// leaves the pending table as it was.
pub proof fn lemma_empty_request(
    pending: Map<Seq<u8>, Set<PeerIndex>>,
    pool: Map<Seq<u8>, Seq<u8>>,
    peer: PeerIndex,
)
    ensures
        hits(pool, Seq::empty()) == Seq::<Seq<u8>>::empty(),
        record_misses(pending, pool, Seq::empty(), peer) == pending,
{
    assert(record_misses(pending, pool, Seq::empty(), peer) =~= pending);
}

/// The relay protocol's state: the transaction pool it answers from and the
/// table of peers waiting for transactions it lacks.
pub struct Relayer {
    pending_proposals_request: PendingProposalsRequest,
    tx_pool: TxPool,
}

impl Relayer {
    pub closed spec fn pending(&self) -> Map<Seq<u8>, Set<PeerIndex>> {
        self.pending_proposals_request@
    }

    pub closed spec fn pool(&self) -> Map<Seq<u8>, Seq<u8>> {
        self.tx_pool@
    }

    /// A relayer over `tx_pool` with no peer waiting.
    pub fn new(tx_pool: TxPool) -> (r: Relayer)
        requires
            tx_pool.wf(),
        ensures
            r.valid(),
            r.pool() == tx_pool@,
            r.pending() == Map::<Seq<u8>, Set<PeerIndex>>::empty(),
    {
        Relayer { pending_proposals_request: PendingProposalsRequest::new(), tx_pool }
    }

    /// Both tables are well formed.
    pub closed spec fn valid(&self) -> bool {
        self.pending_proposals_request.wf() && self.tx_pool.wf()
    }

    pub fn pending_proposals_request(&self) -> (r: &PendingProposalsRequest)
        requires
            self.valid(),
        ensures
            r.wf(),
            r@ == self.pending(),
    {
        &self.pending_proposals_request
    }

    pub fn tx_pool(&self) -> (r: &TxPool)
        requires
            self.valid(),
        ensures
            r.wf(),
            r@ == self.pool(),
    {
        &self.tx_pool
    }

    /// Forgets `peer` in the pending table once its session has ended.
    pub fn disconnected(&mut self, peer: PeerIndex)
        requires
            old(self).valid(),
        ensures
            final(self).valid(),
            final(self).pool() == old(self).pool(),
            final(self).pending() == without_peer(old(self).pending(), peer),
    {
        self.pending_proposals_request.remove_peer(peer);
    }

    /// Answers `peer`'s request for `ids`: returns the transactions the pool
    /// holds, in the order asked, and records `peer` as waiting for each of the others.
    pub fn resolve_proposals(&mut self, peer: PeerIndex, ids: &Vec<ProposalShortId>) -> (r: Vec<
        Transaction,
    >)
        requires
            old(self).valid(),
        ensures
            final(self).valid(),
            final(self).pool() == old(self).pool(),
            final(self).pending() == record_misses(
                old(self).pending(),
                old(self).pool(),
                ids_view(ids@),
                peer,
            ),
            txs_view(r@) == hits(old(self).pool(), ids_view(ids@)),
    {
        let ghost initial = self.pending();
        let ghost pool = self.pool();
        let mut out: Vec<Transaction> = Vec::new();
        let mut i: usize = 0;
        assert(record_misses(initial, pool, ids_view(ids@.take(0)), peer) =~= initial);
        while i < ids.len()
            invariant
                self.valid(),
                self.pool() == pool,
                i <= ids@.len(),
                self.pending() == record_misses(initial, pool, ids_view(ids@.take(i as int)), peer),
                txs_view(out@) == hits(pool, ids_view(ids@.take(i as int))),
            decreases ids@.len() - i,
        {
            let ghost before = self.pending();
            let ghost prev_out = out@;
            let ghost asked = ids_view(ids@.take(i as int));
            let ghost next = ids_view(ids@.take(i + 1));
            proof {
                assert(next =~= ids_view(ids@).take(i + 1));
                assert(asked =~= ids_view(ids@).take(i as int));
                lemma_take_contains(ids_view(ids@), i as int);
                assert(next.drop_last() =~= asked);
            }
            match self.tx_pool.get_tx(&ids[i]) {
                Some(tx) => {
                    assert(ids_view(ids@)[i as int] == ids@[i as int]@);
                    out.push(tx);
                    assert(txs_view(out@) =~= txs_view(prev_out).push(tx@));
                    assert(record_misses(initial, pool, next, peer) =~= before);
                },
                None => {
                    self.pending_proposals_request.insert(&ids[i], peer);
                    let ghost kid = ids@[i as int]@;
                    proof {
                        assert(ids_view(ids@)[i as int] == kid);
                        assert(is_miss(pool, next, kid));
                        if before.contains_key(kid) {
                            assert(before[kid].insert(peer) =~= waiters_of(initial, kid).insert(peer));
                        } else {
                            assert(set![peer] =~= waiters_of(initial, kid).insert(peer));
                        }
                    }
                    assert(record_misses(initial, pool, next, peer) =~= add_waiter(before, kid, peer));
                },
            }
            i = i + 1;
        }
        assert(ids@.take(ids@.len() as int) =~= ids@);
        out
    }
}

/// Why an inbound relay message was dropped.
#[derive(Debug, PartialEq, Eq, Structural, Clone, Copy)]
pub enum RelayError {
    /// The frame is not a well-formed request.
    MalformedMessage,
}

/// The frames in `nc`'s outbox once the response `data` has been offered to `peer`.
pub open spec fn sent_after_reply(nc: NetworkContext, peer: PeerIndex, data: Seq<u8>) -> Seq<
    (usize, PeerIndex, Seq<u8>),
> {
    if has_channel(nc.channels@, nc.protocol, peer) {
        nc.sent().push((nc.protocol, peer, data))
    } else {
        nc.sent()
    }
}

/// One inbound request from `peer` for proposal transactions.
pub struct GetBlockProposalProcess<'a> {
    message: &'a [u8],
    peer: PeerIndex,
}

impl<'a> GetBlockProposalProcess<'a> {
    pub closed spec fn message(&self) -> Seq<u8> {
        self.message@
    }

    pub closed spec fn peer(&self) -> PeerIndex {
        self.peer
    }

    pub fn new(message: &'a [u8], peer: PeerIndex) -> (r: GetBlockProposalProcess<'a>)
        ensures
            r.message() == message@,
            r.peer() == peer,
    {
        GetBlockProposalProcess { message, peer }
    }

    /// Answers the request: a malformed frame is dropped with nothing changed;
    /// otherwise the transactions the pool holds are sent back to the peer in
    /// one response, and the peer waits for the others. A failed send is ignored.
    pub fn execute(self, relayer: &mut Relayer, nc: &mut NetworkContext) -> (r: Result<
        (),
        RelayError,
    >)
        requires
            old(relayer).valid(),
        ensures
            final(relayer).valid(),
            final(relayer).pool() == old(relayer).pool(),
            r.is_ok() <==> is_request_frame(self.message()),
            r.is_err() ==> r == Err::<(), RelayError>(RelayError::MalformedMessage),
            r.is_err() ==> final(relayer).pending() == old(relayer).pending() && *final(nc)
                == *old(nc),
            r.is_ok() ==> final(relayer).pending() == record_misses(
                old(relayer).pending(),
                old(relayer).pool(),
                request_ids(self.message()),
                self.peer(),
            ),
            r.is_ok() ==> final(nc).same_but_outbox(old(nc)),
            r.is_ok() ==> final(nc).sent() == sent_after_reply(
                *old(nc),
                self.peer(),
                response_bytes(hits(old(relayer).pool(), request_ids(self.message()))),
            ),
    {
        let request = match GetBlockProposal::decode(self.message) {
            Some(m) => m,
            None => return Err(RelayError::MalformedMessage),
        };
        let transactions = relayer.resolve_proposals(self.peer, &request.proposal_transactions);
        let data = encode_block_proposal(&transactions);
        let _ = nc.send(self.peer, data);
        Ok(())
    }
}

} // verus!
