use vstd::prelude::*;

use crate::{PeerIndex, ProtocolId};

verus! {

/// Why a send did not go out.
#[derive(Debug, PartialEq, Eq, Structural, Clone, Copy)]
pub enum NetworkError {
    /// No channel leads to that peer on that protocol.
    PeerNotFound,
}

/// A reputation signal about a peer.
#[derive(Debug, PartialEq, Eq, Structural, Clone, Copy)]
pub enum Behaviour {
    UnexpectedMessage,
    MalformedMessage,
}

/// A frame that a handler handed to the transport.
#[derive(Debug)]
pub struct Outgoing {
    pub protocol: ProtocolId,
    pub peer: PeerIndex,
    pub data: Vec<u8>,
}

/// A recurring timer that a handler asked for.
#[derive(Debug, PartialEq, Eq, Structural, Clone, Copy)]
pub struct TimerRequest {
    pub interval_ms: u64,
    pub token: u64,
}

/// Whether `chans` holds the channel `(protocol, peer)`.
pub open spec fn has_channel(chans: Seq<(ProtocolId, PeerIndex)>, protocol: ProtocolId, peer: PeerIndex) -> bool {
    chans.contains((protocol, peer))
}

/// What one protocol instance may ask of the transport. Its requests are
/// collected here; the node that made the context carries them out.
pub struct NetworkContext {
    /// The protocol that owns this context.
    pub protocol: ProtocolId,
    /// The node's outbound channels, by protocol and peer.
    pub channels: Vec<(ProtocolId, PeerIndex)>,
    /// The node's declared timer channels, by protocol and token.
    pub timer_channels: Vec<(ProtocolId, u64)>,
    /// Frames to send, in order.
    pub outbox: Vec<Outgoing>,
    /// Timers to start.
    pub timers: Vec<TimerRequest>,
    /// Reputation signals.
    pub reports: Vec<(PeerIndex, Behaviour)>,
    /// Bans, with their duration in milliseconds.
    pub bans: Vec<(PeerIndex, u64)>,
    /// Peers to disconnect.
    pub disconnects: Vec<PeerIndex>,
}

/// The protocol, peer and bytes of each frame of an outbox.
pub open spec fn outbox_view(o: Seq<Outgoing>) -> Seq<(ProtocolId, PeerIndex, Seq<u8>)> {
    o.map_values(|m: Outgoing| (m.protocol, m.peer, m.data@))
}

impl NetworkContext {
    /// A context for `protocol` over the given channels, with nothing requested yet.
    pub fn new(
        protocol: ProtocolId,
        channels: Vec<(ProtocolId, PeerIndex)>,
        timer_channels: Vec<(ProtocolId, u64)>,
    ) -> (r: NetworkContext)
        ensures
            r.protocol == protocol,
            r.channels@ == channels@,
            r.timer_channels@ == timer_channels@,
            r.is_fresh(),
    {
        NetworkContext {
            protocol,
            channels,
            timer_channels,
            outbox: Vec::new(),
            timers: Vec::new(),
            reports: Vec::new(),
            bans: Vec::new(),
            disconnects: Vec::new(),
        }
    }

    /// Nothing has been requested through this context.
    pub open spec fn is_fresh(&self) -> bool {
        &&& self.outbox@.len() == 0
        &&& self.timers@.len() == 0
        &&& self.reports@.len() == 0
        &&& self.bans@.len() == 0
        &&& self.disconnects@.len() == 0
    }

    /// `other` differs from `self` in its outbox alone.
    pub open spec fn same_but_outbox(&self, other: &NetworkContext) -> bool {
        &&& self.protocol == other.protocol
        &&& self.channels@ == other.channels@
        &&& self.timer_channels@ == other.timer_channels@
        &&& self.timers@ == other.timers@
        &&& self.reports@ == other.reports@
        &&& self.bans@ == other.bans@
        &&& self.disconnects@ == other.disconnects@
    }

    /// `other` differs from `self` in its disconnect requests alone.
    pub open spec fn same_but_disconnects(&self, other: &NetworkContext) -> bool {
        &&& self.protocol == other.protocol
        &&& self.channels@ == other.channels@
        &&& self.timer_channels@ == other.timer_channels@
        &&& self.outbox@ == other.outbox@
        &&& self.timers@ == other.timers@
        &&& self.reports@ == other.reports@
        &&& self.bans@ == other.bans@
    }

    /// The frames of the outbox.
    pub open spec fn sent(&self) -> Seq<(ProtocolId, PeerIndex, Seq<u8>)> {
        outbox_view(self.outbox@)
    }

    fn has_channel_to(&self, protocol: ProtocolId, peer: PeerIndex) -> (r: bool)
        ensures
            r <==> has_channel(self.channels@, protocol, peer),
    {
        let mut i: usize = 0;
        while i < self.channels.len()
            invariant
                i <= self.channels@.len(),
                forall|j: int| 0 <= j < i ==> self.channels@[j] != (protocol, peer),
            decreases self.channels@.len() - i,
        {
            let (p, q) = self.channels[i];
            if p == protocol && q == peer {
                assert(self.channels@[i as int] == (protocol, peer));
                return true;
            }
            i = i + 1;
        }
        false
    }

    /// Sends `data` to `peer` on `protocol`; fails, queueing nothing, when no
    /// channel leads there.
    pub fn send_protocol(&mut self, peer: PeerIndex, protocol: ProtocolId, data: Vec<u8>) -> (r: Result<
        (),
        NetworkError,
    >)
        ensures
            final(self).same_but_outbox(old(self)),
            r.is_ok() <==> has_channel(old(self).channels@, protocol, peer),
            r.is_ok() ==> final(self).sent() == old(self).sent().push((protocol, peer, data@)),
            r.is_err() ==> r == Err::<(), NetworkError>(NetworkError::PeerNotFound) && final(self).sent() == old(self).sent(),
    {
        if self.has_channel_to(protocol, peer) {
            let ghost before = self.outbox@;
            self.outbox.push(Outgoing { protocol, peer, data });
            assert(outbox_view(self.outbox@) =~= outbox_view(before).push((protocol, peer, data@)));
            Ok(())
        } else {
            Err(NetworkError::PeerNotFound)
        }
    }

    /// Sends `data` to `peer` on the protocol that owns this context.
    pub fn send(&mut self, peer: PeerIndex, data: Vec<u8>) -> (r: Result<(), NetworkError>)
        ensures
            final(self).same_but_outbox(old(self)),
            r.is_ok() <==> has_channel(old(self).channels@, old(self).protocol, peer),
            r.is_ok() ==> final(self).sent() == old(self).sent().push(
                (old(self).protocol, peer, data@),
            ),
            r.is_err() ==> r == Err::<(), NetworkError>(NetworkError::PeerNotFound) && final(self).sent() == old(self).sent(),
    {
        let protocol = self.protocol;
        self.send_protocol(peer, protocol, data)
    }

    /// Records a reputation signal; it does not disconnect the peer.
    pub fn report_peer(&mut self, peer: PeerIndex, behaviour: Behaviour) -> (r: Result<(), NetworkError>)
        ensures
            r.is_ok(),
            final(self).reports@ == old(self).reports@.push((peer, behaviour)),
            final(self).outbox@ == old(self).outbox@,
            final(self).timers@ == old(self).timers@,
            final(self).bans@ == old(self).bans@,
            final(self).disconnects@ == old(self).disconnects@,
            final(self).protocol == old(self).protocol,
            final(self).channels@ == old(self).channels@,
            final(self).timer_channels@ == old(self).timer_channels@,
    {
        self.reports.push((peer, behaviour));
        Ok(())
    }

    /// Asks for a recurring timer `token` every `interval_ms` milliseconds; only
    /// a timer the protocol declared is started.
    pub fn register_timer(&mut self, interval_ms: u64, token: u64) -> (r: bool)
        ensures
            r <==> old(self).timer_channels@.contains((old(self).protocol, token)),
            r ==> final(self).timers@ == old(self).timers@.push((TimerRequest { interval_ms, token })),
            !r ==> final(self).timers@ == old(self).timers@,
            final(self).outbox@ == old(self).outbox@,
            final(self).reports@ == old(self).reports@,
            final(self).bans@ == old(self).bans@,
            final(self).disconnects@ == old(self).disconnects@,
            final(self).protocol == old(self).protocol,
            final(self).channels@ == old(self).channels@,
            final(self).timer_channels@ == old(self).timer_channels@,
    {
        if self.has_timer_channel(token) {
            self.timers.push(TimerRequest { interval_ms, token });
            true
        } else {
            false
        }
    }

    fn has_timer_channel(&self, token: u64) -> (r: bool)
        ensures
            r <==> self.timer_channels@.contains((self.protocol, token)),
    {
        let mut i: usize = 0;
        while i < self.timer_channels.len()
            invariant
                i <= self.timer_channels@.len(),
                forall|j: int| 0 <= j < i ==> self.timer_channels@[j] != (self.protocol, token),
            decreases self.timer_channels@.len() - i,
        {
            let (p, t) = self.timer_channels[i];
            if p == self.protocol && t == token {
                assert(self.timer_channels@[i as int] == (self.protocol, token));
                return true;
            }
            i = i + 1;
        }
        false
    }

    /// Asks the transport to ban `peer` for `duration_ms` milliseconds.
    pub fn ban_peer(&mut self, peer: PeerIndex, duration_ms: u64)
        ensures
            final(self).bans@ == old(self).bans@.push((peer, duration_ms)),
            final(self).outbox@ == old(self).outbox@,
            final(self).timers@ == old(self).timers@,
            final(self).reports@ == old(self).reports@,
            final(self).disconnects@ == old(self).disconnects@,
            final(self).protocol == old(self).protocol,
            final(self).channels@ == old(self).channels@,
            final(self).timer_channels@ == old(self).timer_channels@,
    {
        self.bans.push((peer, duration_ms));
    }

    /// Asks the transport to close the session with `peer`.
    pub fn disconnect(&mut self, peer: PeerIndex)
        ensures
            final(self).disconnects@ == old(self).disconnects@.push(peer),
            final(self).outbox@ == old(self).outbox@,
            final(self).timers@ == old(self).timers@,
            final(self).reports@ == old(self).reports@,
            final(self).bans@ == old(self).bans@,
            final(self).protocol == old(self).protocol,
            final(self).channels@ == old(self).channels@,
            final(self).timer_channels@ == old(self).timer_channels@,
    {
        self.disconnects.push(peer);
    }

    /// The protocol that owns this context.
    pub fn protocol_id(&self) -> (r: ProtocolId)
        ensures
            r == self.protocol,
    {
        self.protocol
    }

    /// The peers with a channel on this context's protocol, in channel order.
    pub fn connected_peers(&self) -> (r: Vec<PeerIndex>)
        ensures
            forall|p: PeerIndex| r@.contains(p) <==> has_channel(self.channels@, self.protocol, p),
    {
        let mut out: Vec<PeerIndex> = Vec::new();
        let mut i: usize = 0;
        while i < self.channels.len()
            invariant
                i <= self.channels@.len(),
                forall|p: PeerIndex| out@.contains(p) <==> self.channels@.take(i as int).contains(
                    (self.protocol, p),
                ),
            decreases self.channels@.len() - i,
        {
            let ghost prev = out@;
            let (p, q) = self.channels[i];
            if p == self.protocol {
                out.push(q);
            }
            assert forall|x: PeerIndex| out@.contains(x) <==> self.channels@.take(i + 1).contains(
                (self.protocol, x),
            ) by {
                let t0 = self.channels@.take(i as int);
                let t1 = self.channels@.take(i + 1);
                assert(t1[i as int] == (p, q));
                if t0.contains((self.protocol, x)) {
                    let j = choose|j: int| 0 <= j < t0.len() && t0[j] == (self.protocol, x);
                    assert(t1[j] == (self.protocol, x));
                }
                if t1.contains((self.protocol, x)) {
                    let j = choose|j: int| 0 <= j < t1.len() && t1[j] == (self.protocol, x);
                    if j < i {
                        assert(t0[j] == (self.protocol, x));
                    }
                }
                if prev.contains(x) {
                    let j = choose|j: int| 0 <= j < prev.len() && prev[j] == x;
                    assert(out@[j] == x);
                }
                if out@.contains(x) && !prev.contains(x) {
                    let j = choose|j: int| 0 <= j < out@.len() && out@[j] == x;
                    if j < prev.len() {
                        assert(prev[j] == x);
                    }
                }
                if p == self.protocol && x == q {
                    assert(out@[prev.len() as int] == x);
                }
            }
            i = i + 1;
        }
        assert(self.channels@.take(self.channels@.len() as int) =~= self.channels@);
        out
    }
}

} // verus!
