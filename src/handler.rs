use vstd::prelude::*;

use crate::context::NetworkContext;
use crate::message::{is_request_frame, request_ids, response_bytes, TAG_BLOCK_PROPOSAL};
use crate::pending::without_peer;
use crate::relay::{hits, record_misses, sent_after_reply, GetBlockProposalProcess, Relayer, RelayError};
use crate::PeerIndex;

verus! {

/// Whether `data` is a response carrying proposal transactions, which the
/// relay handler leaves to the path that takes in new transactions.
pub open spec fn is_response_frame(data: Seq<u8>) -> bool {
    data.len() > 0 && data[0] == TAG_BLOCK_PROPOSAL
}

/// What the relay handler does with frame `data` from `peer`: a request is
/// answered as `GetBlockProposalProcess::execute` says; anything else changes nothing.
pub open spec fn relay_received(
    a: Relayer,
    b: Relayer,
    nc0: NetworkContext,
    nc1: NetworkContext,
    peer: PeerIndex,
    data: Seq<u8>,
) -> bool {
    &&& b.pool() == a.pool()
    &&& if !is_response_frame(data) && is_request_frame(data) {
        &&& b.pending() == record_misses(a.pending(), a.pool(), request_ids(data), peer)
        &&& nc1.same_but_outbox(&nc0)
        &&& nc1.sent() == sent_after_reply(
            nc0,
            peer,
            response_bytes(hits(a.pool(), request_ids(data))),
        )
    } else {
        b.pending() == a.pending() && nc1 == nc0
    }
}

/// A protocol's handler, one variant per protocol this node speaks.
pub enum Handler {
    /// Relays block proposals by short identifier.
    Relay(Relayer),
    /// Only probes that a peer is reachable: it closes each session it sees open.
    Feeler,
}

impl Handler {
    pub open spec fn valid(&self) -> bool {
        match self {
            Handler::Relay(r) => r.valid(),
            Handler::Feeler => true,
        }
    }

    /// Called once, before any other callback.
    pub fn initialize(&mut self, nc: &mut NetworkContext)
        requires
            old(self).valid(),
        ensures
            *final(self) == *old(self),
            *final(nc) == *old(nc),
    {
    }

    /// Called once for each peer session that opens on this protocol.
    pub fn connected(&mut self, nc: &mut NetworkContext, peer: PeerIndex)
        requires
            old(self).valid(),
        ensures
            *final(self) == *old(self),
            match *old(self) {
                Handler::Feeler => {
                    &&& final(nc).disconnects@ == old(nc).disconnects@.push(peer)
                    &&& final(nc).same_but_disconnects(old(nc))
                },
                Handler::Relay(_) => *final(nc) == *old(nc),
            },
    {
        match self {
            Handler::Feeler => nc.disconnect(peer),
            Handler::Relay(_) => {},
        }
    }

    /// Called once for each inbound frame from `peer` on this protocol.
    pub fn received(&mut self, nc: &mut NetworkContext, peer: PeerIndex, data: &[u8]) -> (r: Result<
        (),
        RelayError,
    >)
        requires
            old(self).valid(),
        ensures
            final(self).valid(),
            match (*old(self), *final(self)) {
                (Handler::Relay(a), Handler::Relay(b)) => relay_received(a, b, *old(nc), *final(nc), peer, data@)
                    && (r.is_ok() <==> (is_response_frame(data@) || is_request_frame(data@))),
                (Handler::Feeler, Handler::Feeler) => *final(nc) == *old(nc) && r.is_ok(),
                _ => false,
            },
    {
        match self {
            Handler::Relay(relayer) => {
                if data.len() > 0 && data[0] == TAG_BLOCK_PROPOSAL {
                    Ok(())
                } else {
                    GetBlockProposalProcess::new(data, peer).execute(relayer, nc)
                }
            },
            Handler::Feeler => Ok(()),
        }
    }

    /// Called on every tick of a timer this protocol registered.
    pub fn timer_triggered(&mut self, nc: &mut NetworkContext, token: u64)
        requires
            old(self).valid(),
        ensures
            *final(self) == *old(self),
            *final(nc) == *old(nc),
    {
    }

    /// Called when the session with `peer` ends: what the handler kept for
    /// `peer` is released.
    pub fn disconnected(&mut self, peer: PeerIndex)
        requires
            old(self).valid(),
        ensures
            final(self).valid(),
            match (*old(self), *final(self)) {
                (Handler::Relay(a), Handler::Relay(b)) => b.pool() == a.pool() && b.pending()
                    == without_peer(a.pending(), peer),
                (Handler::Feeler, Handler::Feeler) => true,
                _ => false,
            },
    {
        match self {
            Handler::Relay(relayer) => relayer.disconnected(peer),
            Handler::Feeler => {},
        }
    }
}

} // verus!
