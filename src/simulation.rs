use vstd::prelude::*;

use crate::context::{NetworkContext, TimerRequest};
use crate::handler::Handler;
use crate::{PeerIndex, ProtocolId};

verus! {

/// A callback as a handler observed it.
#[derive(Debug, PartialEq, Eq, Structural, Clone, Copy)]
pub enum Event {
    Initialize,
    Connected(PeerIndex),
    Received(PeerIndex),
    Timer(u64),
}

/// A trace starts with the single `Initialize`, and every `Received` or
/// `Timer` comes after some `Connected`.
pub open spec fn lifecycle_ordered(t: Seq<Event>) -> bool {
    &&& t.len() > 0
    &&& t[0] == Event::Initialize
    &&& forall|i: int| 0 < i < t.len() ==> #[trigger] t[i] != Event::Initialize
    &&& forall|i: int|
        0 <= i < t.len() && (#[trigger] t[i] is Received || t[i] is Timer) ==> exists|j: int|
            0 <= j < i && #[trigger] t[j] is Connected
}

proof fn lemma_push_ordered(t: Seq<Event>, e: Event)
    requires
        lifecycle_ordered(t),
        e != Event::Initialize,
        (e is Received || e is Timer) ==> exists|j: int| 0 <= j < t.len() && #[trigger] t[j] is Connected,
    ensures
        lifecycle_ordered(t.push(e)),
{
    let u = t.push(e);
    assert forall|i: int| 0 <= i < u.len() && (#[trigger] u[i] is Received || u[i] is Timer) implies exists|j: int|
        0 <= j < i && #[trigger] u[j] is Connected by {
        if i < t.len() {
            assert(t[i] == u[i]);
            let j = choose|j: int| 0 <= j < i && #[trigger] t[j] is Connected;
            assert(u[j] == t[j]);
        } else {
            let j = choose|j: int| 0 <= j < t.len() && #[trigger] t[j] is Connected;
            assert(u[j] == t[j]);
        }
    }
    assert forall|i: int| 0 < i < u.len() implies #[trigger] u[i] != Event::Initialize by {
        if i < t.len() {
            assert(t[i] == u[i]);
        }
    }
}

/// A protocol bound on one node, with the callbacks its handler has seen.
pub struct Binding {
    pub node: usize,
    pub protocol: ProtocolId,
    pub handler: Handler,
    pub trace: Vec<Event>,
    pub has_connected: bool,
}

impl Binding {
    pub open spec fn wf(&self) -> bool {
        &&& lifecycle_ordered(self.trace@)
        &&& self.handler.valid()
        &&& self.has_connected ==> exists|j: int|
            0 <= j < self.trace@.len() && #[trigger] self.trace@[j] is Connected
    }
}

/// One direction of a session: frames sent by `from_node` to its peer
/// `from_peer` on `protocol` arrive at `to_node` from its peer `to_peer`.
pub struct Link {
    pub protocol: ProtocolId,
    pub from_node: usize,
    pub from_peer: PeerIndex,
    pub to_node: usize,
    pub to_peer: PeerIndex,
    pub queue: Vec<Vec<u8>>,
}

/// Pending ticks of one declared timer.
pub struct TimerChannel {
    pub node: usize,
    pub protocol: ProtocolId,
    pub token: u64,
    pub ticks: u64,
}

/// A frame taken off a link during a poll.
pub struct Delivery {
    pub node: usize,
    pub protocol: ProtocolId,
    pub peer: PeerIndex,
    pub data: Vec<u8>,
}

/// The protocol, sender and receiving endpoint of a link, and its queued frames.
pub open spec fn link_view(l: Link) -> (ProtocolId, usize, PeerIndex, usize, PeerIndex, Seq<Seq<u8>>) {
    (l.protocol, l.from_node, l.from_peer, l.to_node, l.to_peer, l.queue@.map_values(|d: Vec<u8>| d@))
}

/// `b` holds the links of `a`, in order, with the same endpoints.
pub open spec fn endpoints_kept(a: Seq<Link>, b: Seq<Link>) -> bool {
    &&& a.len() == b.len()
    &&& forall|i: int|
        0 <= i < a.len() ==> {
            &&& (#[trigger] b[i]).protocol == a[i].protocol
            &&& b[i].from_node == a[i].from_node
            &&& b[i].from_peer == a[i].from_peer
            &&& b[i].to_node == a[i].to_node
            &&& b[i].to_peer == a[i].to_peer
        }
}

/// The frames queued on a link.
pub open spec fn queue_view(l: Link) -> Seq<Seq<u8>> {
    l.queue@.map_values(|d: Vec<u8>| d@)
}

/// Every link of `a` is still in `b` with its queue kept as a prefix: frames
/// were only added at the back.
pub open spec fn queues_grow(a: Seq<Link>, b: Seq<Link>) -> bool {
    &&& a.len() <= b.len()
    &&& forall|i: int|
        0 <= i < a.len() ==> queue_view(a[i]).len() <= queue_view(#[trigger] b[i]).len()
            && queue_view(b[i]).take(queue_view(a[i]).len() as int) == queue_view(a[i])
}

proof fn lemma_queues_grow_trans(a: Seq<Link>, b: Seq<Link>, c: Seq<Link>)
    requires
        queues_grow(a, b),
        queues_grow(b, c),
    ensures
        queues_grow(a, c),
{
    assert forall|i: int| 0 <= i < a.len() implies queue_view(a[i]).len() <= queue_view(#[trigger] c[i]).len()
        && queue_view(c[i]).take(queue_view(a[i]).len() as int) == queue_view(a[i]) by {
        let qa = queue_view(a[i]);
        let qb = queue_view(b[i]);
        let qc = queue_view(c[i]);
        assert(qc.take(qa.len() as int) =~= qc.take(qb.len() as int).take(qa.len() as int));
    }
}

proof fn lemma_queues_grow_refl(a: Seq<Link>)
    ensures
        queues_grow(a, a),
{
    assert forall|i: int| 0 <= i < a.len() implies queue_view(a[i]).len() <= queue_view(#[trigger] a[i]).len()
        && queue_view(a[i]).take(queue_view(a[i]).len() as int) == queue_view(a[i]) by {
        assert(queue_view(a[i]).take(queue_view(a[i]).len() as int) =~= queue_view(a[i]));
    }
}

/// The protocol-level content of a delivery: receiving node, protocol, peer and bytes.
pub open spec fn delivery_view(d: Delivery) -> (usize, ProtocolId, PeerIndex, Seq<u8>) {
    (d.node, d.protocol, d.peer, d.data@)
}

/// The first frame of every link that has one, in link order, with where it arrives.
pub open spec fn heads(links: Seq<Link>) -> Seq<(usize, ProtocolId, PeerIndex, Seq<u8>)>
    decreases links.len(),
{
    if links.len() == 0 {
        Seq::empty()
    } else {
        let l = links.last();
        if queue_view(l).len() > 0 {
            heads(links.drop_last()).push((l.to_node, l.protocol, l.to_peer, queue_view(l)[0]))
        } else {
            heads(links.drop_last())
        }
    }
}

/// A link's queue once its first frame, if any, has been taken.
pub open spec fn after_take(l: Link) -> Seq<Seq<u8>> {
    if queue_view(l).len() > 0 {
        queue_view(l).drop_first()
    } else {
        queue_view(l)
    }
}

/// The `Received` events that binding `b` sees when the frames `ds` arrive in
/// order: those for its node and protocol, once it has seen a peer connect.
pub open spec fn received_events(b: Binding, ds: Seq<(usize, ProtocolId, PeerIndex, Seq<u8>)>) -> Seq<Event>
    decreases ds.len(),
{
    if ds.len() == 0 {
        Seq::empty()
    } else {
        let d = ds.last();
        if b.has_connected && d.0 == b.node && d.1 == b.protocol {
            received_events(b, ds.drop_last()).push(Event::Received(d.2))
        } else {
            received_events(b, ds.drop_last())
        }
    }
}

/// Whether timer `t` has a pending tick and a binding that has seen a peer connect.
pub open spec fn tick_fires(bindings: Seq<Binding>, t: TimerChannel) -> bool {
    t.ticks > 0 && exists|k: int|
        0 <= k < bindings.len() && #[trigger] bindings[k].node == t.node && bindings[k].protocol
            == t.protocol && bindings[k].has_connected
}

/// Timer `t` after a round: one tick fewer when it fires.
pub open spec fn after_tick(bindings: Seq<Binding>, t: TimerChannel) -> TimerChannel {
    if tick_fires(bindings, t) {
        TimerChannel { node: t.node, protocol: t.protocol, token: t.token, ticks: (t.ticks - 1) as u64 }
    } else {
        t
    }
}

/// The `Timer` events that binding `b` sees in a round over `timers`, in timer order.
pub open spec fn timer_events(b: Binding, timers: Seq<TimerChannel>) -> Seq<Event>
    decreases timers.len(),
{
    if timers.len() == 0 {
        Seq::empty()
    } else {
        let t = timers.last();
        if t.ticks > 0 && b.has_connected && t.node == b.node && t.protocol == b.protocol {
            timer_events(b, timers.drop_last()).push(Event::Timer(t.token))
        } else {
            timer_events(b, timers.drop_last())
        }
    }
}

/// Binding `y` is binding `x` after one `connected` callback for `peer`.
pub open spec fn connected_once(x: Binding, y: Binding, peer: PeerIndex) -> bool {
    &&& y.node == x.node
    &&& y.protocol == x.protocol
    &&& y.handler == x.handler
    &&& y.has_connected
    &&& y.trace@ == x.trace@.push(Event::Connected(peer))
}

/// The `Connected` events for the sessions that `node` has on `protocol`, in link order.
pub open spec fn session_events(links: Seq<Link>, node: usize, protocol: ProtocolId) -> Seq<Event>
    decreases links.len(),
{
    if links.len() == 0 {
        Seq::empty()
    } else {
        let l = links.last();
        if l.from_node == node && l.protocol == protocol {
            session_events(links.drop_last(), node, protocol).push(Event::Connected(l.from_peer))
        } else {
            session_events(links.drop_last(), node, protocol)
        }
    }
}

/// Several logical nodes in one process, wired by in-memory links.
pub struct TestNetwork {
    /// For each node, how many peer indices it has handed out.
    pub peer_counts: Vec<usize>,
    pub bindings: Vec<Binding>,
    pub links: Vec<Link>,
    pub timers: Vec<TimerChannel>,
    /// Timers that handlers asked to start: node, protocol and request.
    pub timer_requests: Vec<(usize, ProtocolId, TimerRequest)>,
}

impl TestNetwork {
    /// Each binding is well formed, and no node binds a protocol twice.
    pub open spec fn wf(&self) -> bool {
        &&& forall|k: int| 0 <= k < self.bindings@.len() ==> (#[trigger] self.bindings@[k]).wf()
        &&& forall|i: int, j: int|
            #![trigger self.bindings@[i], self.bindings@[j]]
            0 <= i < j < self.bindings@.len() ==> !(self.bindings@[i].node == self.bindings@[j].node
                && self.bindings@[i].protocol == self.bindings@[j].protocol)
    }

    pub fn new() -> (r: TestNetwork)
        ensures
            r.wf(),
            r.peer_counts@.len() == 0,
            r.bindings@.len() == 0,
            r.links@.len() == 0,
            r.timers@.len() == 0,
            r.timer_requests@.len() == 0,
    {
        TestNetwork {
            peer_counts: Vec::new(),
            bindings: Vec::new(),
            links: Vec::new(),
            timers: Vec::new(),
            timer_requests: Vec::new(),
        }
    }

    /// Adds a node with no protocol and no peer; returns its index.
    pub fn add_node(&mut self) -> (r: usize)
        requires
            old(self).wf(),
        ensures
            final(self).wf(),
            r == old(self).peer_counts@.len(),
            final(self).peer_counts@ == old(self).peer_counts@.push(0),
            final(self).bindings@ == old(self).bindings@,
            final(self).links@ == old(self).links@,
            final(self).timers@ == old(self).timers@,
            final(self).timer_requests@ == old(self).timer_requests@,
    {
        let r = self.peer_counts.len();
        self.peer_counts.push(0);
        r
    }

    /// The binding of `protocol` on `node`, if any.
    pub fn find_binding(&self, node: usize, protocol: ProtocolId) -> (r: Option<usize>)
        ensures
            r.is_some() ==> r.unwrap() < self.bindings@.len() && self.bindings@[r.unwrap() as int].node
                == node && self.bindings@[r.unwrap() as int].protocol == protocol,
            r.is_none() ==> forall|k: int|
                0 <= k < self.bindings@.len() ==> !(#[trigger] self.bindings@[k].node == node
                    && self.bindings@[k].protocol == protocol),
    {
        let mut k: usize = 0;
        while k < self.bindings.len()
            invariant
                k <= self.bindings@.len(),
                forall|j: int|
                    0 <= j < k ==> !(#[trigger] self.bindings@[j].node == node
                        && self.bindings@[j].protocol == protocol),
            decreases self.bindings@.len() - k,
        {
            if self.bindings[k].node == node && self.bindings[k].protocol == protocol {
                return Some(k);
            }
            k = k + 1;
        }
        None
    }

    /// The outbound channels of `node`, as protocol and peer.
    fn channels_of(&self, node: usize) -> (r: Vec<(ProtocolId, PeerIndex)>)
        ensures
            forall|c: (ProtocolId, PeerIndex)|
                r@.contains(c) ==> exists|l: int|
                    0 <= l < self.links@.len() && #[trigger] self.links@[l].from_node == node && c == (
                        self.links@[l].protocol,
                        self.links@[l].from_peer,
                    ),
    {
        let mut out: Vec<(ProtocolId, PeerIndex)> = Vec::new();
        let mut l: usize = 0;
        while l < self.links.len()
            invariant
                l <= self.links@.len(),
                forall|c: (ProtocolId, PeerIndex)|
                    out@.contains(c) ==> exists|m: int|
                        0 <= m < l && #[trigger] self.links@[m].from_node == node && c == (
                            self.links@[m].protocol,
                            self.links@[m].from_peer,
                        ),
            decreases self.links@.len() - l,
        {
            if self.links[l].from_node == node {
                let ghost prev = out@;
                out.push((self.links[l].protocol, self.links[l].from_peer));
                assert forall|c: (ProtocolId, PeerIndex)| out@.contains(c) implies exists|m: int|
                    0 <= m < l + 1 && #[trigger] self.links@[m].from_node == node && c == (
                        self.links@[m].protocol,
                        self.links@[m].from_peer,
                    ) by {
                    let i = choose|i: int| 0 <= i < out@.len() && out@[i] == c;
                    if i < prev.len() {
                        assert(prev[i] == c);
                        assert(prev.contains(c));
                    } else {
                        assert(self.links@[l as int].from_node == node);
                    }
                }
            }
            l = l + 1;
        }
        out
    }

    /// The declared timer channels of `node`, as protocol and token.
    fn timer_channels_of(&self, node: usize) -> (r: Vec<(ProtocolId, u64)>)
        ensures
            forall|c: (ProtocolId, u64)|
                r@.contains(c) ==> exists|t: int|
                    0 <= t < self.timers@.len() && #[trigger] self.timers@[t].node == node && c == (
                        self.timers@[t].protocol,
                        self.timers@[t].token,
                    ),
    {
        let mut out: Vec<(ProtocolId, u64)> = Vec::new();
        let mut t: usize = 0;
        while t < self.timers.len()
            invariant
                t <= self.timers@.len(),
                forall|c: (ProtocolId, u64)|
                    out@.contains(c) ==> exists|m: int|
                        0 <= m < t && #[trigger] self.timers@[m].node == node && c == (
                            self.timers@[m].protocol,
                            self.timers@[m].token,
                        ),
            decreases self.timers@.len() - t,
        {
            if self.timers[t].node == node {
                let ghost prev = out@;
                out.push((self.timers[t].protocol, self.timers[t].token));
                assert forall|c: (ProtocolId, u64)| out@.contains(c) implies exists|m: int|
                    0 <= m < t + 1 && #[trigger] self.timers@[m].node == node && c == (
                        self.timers@[m].protocol,
                        self.timers@[m].token,
                    ) by {
                    let i = choose|i: int| 0 <= i < out@.len() && out@[i] == c;
                    if i < prev.len() {
                        assert(prev[i] == c);
                        assert(prev.contains(c));
                    } else {
                        assert(self.timers@[t as int].node == node);
                    }
                }
            }
            t = t + 1;
        }
        out
    }

    fn context(&self, node: usize, protocol: ProtocolId) -> (r: NetworkContext)
        ensures
            r.protocol == protocol,
            r.is_fresh(),
    {
        NetworkContext::new(protocol, self.channels_of(node), self.timer_channels_of(node))
    }

    /// Queues `data` on the first link from `node` to its peer `peer` on
    /// `protocol`; returns that link's index, or `None`, changing nothing, when
    /// there is no such link.
    pub fn send(&mut self, node: usize, protocol: ProtocolId, peer: PeerIndex, data: Vec<u8>) -> (r: Option<usize>)
        requires
            old(self).wf(),
        ensures
            final(self).wf(),
            final(self).bindings@ == old(self).bindings@,
            final(self).peer_counts@ == old(self).peer_counts@,
            final(self).timers@ == old(self).timers@,
            final(self).timer_requests@ == old(self).timer_requests@,
            endpoints_kept(old(self).links@, final(self).links@),
            queues_grow(old(self).links@, final(self).links@),
            r.is_none() ==> final(self).links@ == old(self).links@,
            r.is_none() ==> forall|l: int|
                0 <= l < old(self).links@.len() ==> !(#[trigger] old(self).links@[l].from_node == node
                    && old(self).links@[l].protocol == protocol && old(self).links@[l].from_peer == peer),
            r.is_some() ==> {
                let l = r.unwrap() as int;
                &&& 0 <= l < old(self).links@.len()
                &&& old(self).links@[l].from_node == node
                &&& old(self).links@[l].protocol == protocol
                &&& old(self).links@[l].from_peer == peer
                &&& forall|i: int|
                    0 <= i < old(self).links@.len() && i != l ==> #[trigger] final(self).links@[i]
                        == old(self).links@[i]
                &&& link_view(final(self).links@[l]) == ({
                    let (p, a, b, c, d, q) = link_view(old(self).links@[l]);
                    (p, a, b, c, d, q.push(data@))
                })
            },
    {
        match self.find_link(node, protocol, peer) {
            Some(l) => {
                let ghost before = self.links@[l as int].queue@;
                let ghost dv = data@;
                let ghost old_links = self.links@;
                self.links[l].queue.push(data);
                assert(self.links@[l as int].queue@.map_values(|d: Vec<u8>| d@) =~= before.map_values(
                    |d: Vec<u8>| d@,
                ).push(dv));
                proof {
                    assert forall|i: int| 0 <= i < old_links.len() implies queue_view(old_links[i]).len()
                        <= queue_view(#[trigger] self.links@[i]).len() && queue_view(self.links@[i]).take(
                        queue_view(old_links[i]).len() as int,
                    ) == queue_view(old_links[i]) by {
                        if i == l {
                            assert(queue_view(self.links@[i]).take(queue_view(old_links[i]).len() as int)
                                =~= queue_view(old_links[i]));
                        } else {
                            assert(self.links@[i] == old_links[i]);
                            assert(queue_view(old_links[i]).take(queue_view(old_links[i]).len() as int)
                                =~= queue_view(old_links[i]));
                        }
                    }
                }
                Some(l)
            },
            None => {
                proof {
                    lemma_queues_grow_refl(self.links@);
                }
                None
            },
        }
    }

    fn find_link(&self, node: usize, protocol: ProtocolId, peer: PeerIndex) -> (r: Option<usize>)
        ensures
            r.is_none() ==> forall|l: int|
                0 <= l < self.links@.len() ==> !(#[trigger] self.links@[l].from_node == node
                    && self.links@[l].protocol == protocol && self.links@[l].from_peer == peer),
            r.is_some() ==> r.unwrap() < self.links@.len() && self.links@[r.unwrap() as int].from_node
                == node && self.links@[r.unwrap() as int].protocol == protocol
                && self.links@[r.unwrap() as int].from_peer == peer,
    {
        let mut l: usize = 0;
        while l < self.links.len()
            invariant
                l <= self.links@.len(),
                forall|j: int|
                    0 <= j < l ==> !(#[trigger] self.links@[j].from_node == node
                        && self.links@[j].protocol == protocol && self.links@[j].from_peer == peer),
            decreases self.links@.len() - l,
        {
            if self.links[l].from_node == node && self.links[l].protocol == protocol
                && self.links[l].from_peer == peer {
                return Some(l);
            }
            l = l + 1;
        }
        None
    }

    /// Carries out what a handler of `protocol` on `node` asked through `ctx`.
    fn flush(&mut self, node: usize, ctx: NetworkContext)
        requires
            old(self).wf(),
        ensures
            final(self).wf(),
            final(self).bindings@ == old(self).bindings@,
            final(self).peer_counts@ == old(self).peer_counts@,
            final(self).timers@ == old(self).timers@,
            endpoints_kept(old(self).links@, final(self).links@),
            queues_grow(old(self).links@, final(self).links@),
    {
        let ghost start = *self;
        proof {
            lemma_queues_grow_refl(self.links@);
        }
        let mut i: usize = 0;
        while i < ctx.outbox.len()
            invariant
                self.wf(),
                self.bindings@ == start.bindings@,
                self.peer_counts@ == start.peer_counts@,
                self.timers@ == start.timers@,
                endpoints_kept(start.links@, self.links@),
                queues_grow(start.links@, self.links@),
                i <= ctx.outbox@.len(),
            decreases ctx.outbox@.len() - i,
        {
            let o = &ctx.outbox[i];
            let data = o.data.clone();
            let ghost mid = self.links@;
            let _ = self.send(node, o.protocol, o.peer, data);
            proof {
                lemma_queues_grow_trans(start.links@, mid, self.links@);
            }
            i = i + 1;
        }
        let mut t: usize = 0;
        while t < ctx.timers.len()
            invariant
                self.wf(),
                self.bindings@ == start.bindings@,
                self.peer_counts@ == start.peer_counts@,
                self.timers@ == start.timers@,
                endpoints_kept(start.links@, self.links@),
                queues_grow(start.links@, self.links@),
                t <= ctx.timers@.len(),
            decreases ctx.timers@.len() - t,
        {
            self.timer_requests.push((node, ctx.protocol, ctx.timers[t]));
            t = t + 1;
        }
    }

    /// Tells binding `k` that `peer` connected.
    fn dispatch_connected(&mut self, k: usize, peer: PeerIndex)
        requires
            old(self).wf(),
            k < old(self).bindings@.len(),
        ensures
            final(self).wf(),
            final(self).bindings@.len() == old(self).bindings@.len(),
            forall|j: int|
                0 <= j < old(self).bindings@.len() ==> (#[trigger] final(self).bindings@[j]).node
                    == old(self).bindings@[j].node && final(self).bindings@[j].protocol
                    == old(self).bindings@[j].protocol,
            final(self).bindings@[k as int].has_connected,
            final(self).bindings@[k as int].handler == old(self).bindings@[k as int].handler,
            final(self).peer_counts@ == old(self).peer_counts@,
            final(self).timers@ == old(self).timers@,
            endpoints_kept(old(self).links@, final(self).links@),
            queues_grow(old(self).links@, final(self).links@),
            forall|j: int|
                0 <= j < old(self).bindings@.len() && j != k ==> #[trigger] final(self).bindings@[j]
                    == old(self).bindings@[j],
            final(self).bindings@[k as int].trace@ == old(self).bindings@[k as int].trace@.push(Event::Connected(peer)),
    {
        let node = self.bindings[k].node;
        let protocol = self.bindings[k].protocol;
        let mut ctx = self.context(node, protocol);
        assert(self.bindings@[k as int].wf());
        let ghost t0 = self.bindings@[k as int].trace@;
        self.bindings[k].handler.connected(&mut ctx, peer);
        self.bindings[k].trace.push(Event::Connected(peer));
        self.bindings[k].has_connected = true;
        proof {
            lemma_push_ordered(t0, Event::Connected(peer));
            let t1 = self.bindings@[k as int].trace@;
            assert(t1 == t0.push(Event::Connected(peer)));
            assert(t1[t0.len() as int] is Connected);
        }
        self.flush(node, ctx);
    }

    /// Hands frame `data` from `peer` to binding `k`.
    fn dispatch_received(&mut self, k: usize, peer: PeerIndex, data: &[u8])
        requires
            old(self).wf(),
            k < old(self).bindings@.len(),
            old(self).bindings@[k as int].has_connected,
        ensures
            final(self).wf(),
            final(self).bindings@.len() == old(self).bindings@.len(),
            forall|j: int|
                0 <= j < old(self).bindings@.len() ==> (#[trigger] final(self).bindings@[j]).node
                    == old(self).bindings@[j].node && final(self).bindings@[j].protocol
                    == old(self).bindings@[j].protocol && final(self).bindings@[j].has_connected
                    == old(self).bindings@[j].has_connected,
            final(self).peer_counts@ == old(self).peer_counts@,
            final(self).timers@ == old(self).timers@,
            endpoints_kept(old(self).links@, final(self).links@),
            queues_grow(old(self).links@, final(self).links@),
            forall|j: int|
                0 <= j < old(self).bindings@.len() && j != k ==> #[trigger] final(self).bindings@[j]
                    == old(self).bindings@[j],
            final(self).bindings@[k as int].trace@ == old(self).bindings@[k as int].trace@.push(Event::Received(peer)),
    {
        let node = self.bindings[k].node;
        let protocol = self.bindings[k].protocol;
        let mut ctx = self.context(node, protocol);
        assert(self.bindings@[k as int].wf());
        let ghost t0 = self.bindings@[k as int].trace@;
        let _ = self.bindings[k].handler.received(&mut ctx, peer, data);
        self.bindings[k].trace.push(Event::Received(peer));
        proof {
            lemma_push_ordered(t0, Event::Received(peer));
            let j = choose|j: int| 0 <= j < t0.len() && #[trigger] t0[j] is Connected;
            assert(self.bindings@[k as int].trace@[j] == t0[j]);
            assert forall|i: int| 0 <= i < self.bindings@.len() implies (#[trigger] self.bindings@[i]).wf() by {
                if i != k {
                    assert(old(self).bindings@[i].wf());
                }
            }
        }
        self.flush(node, ctx);
    }

    /// Hands a tick of timer `token` to binding `k`.
    fn dispatch_timer(&mut self, k: usize, token: u64)
        requires
            old(self).wf(),
            k < old(self).bindings@.len(),
            old(self).bindings@[k as int].has_connected,
        ensures
            final(self).wf(),
            final(self).bindings@.len() == old(self).bindings@.len(),
            forall|j: int|
                0 <= j < old(self).bindings@.len() ==> (#[trigger] final(self).bindings@[j]).node
                    == old(self).bindings@[j].node && final(self).bindings@[j].protocol
                    == old(self).bindings@[j].protocol && final(self).bindings@[j].has_connected
                    == old(self).bindings@[j].has_connected,
            final(self).peer_counts@ == old(self).peer_counts@,
            final(self).timers@ == old(self).timers@,
            endpoints_kept(old(self).links@, final(self).links@),
            queues_grow(old(self).links@, final(self).links@),
            forall|j: int|
                0 <= j < old(self).bindings@.len() && j != k ==> #[trigger] final(self).bindings@[j]
                    == old(self).bindings@[j],
            final(self).bindings@[k as int].trace@ == old(self).bindings@[k as int].trace@.push(Event::Timer(token)),
    {
        let node = self.bindings[k].node;
        let protocol = self.bindings[k].protocol;
        let mut ctx = self.context(node, protocol);
        assert(self.bindings@[k as int].wf());
        let ghost t0 = self.bindings@[k as int].trace@;
        self.bindings[k].handler.timer_triggered(&mut ctx, token);
        self.bindings[k].trace.push(Event::Timer(token));
        proof {
            lemma_push_ordered(t0, Event::Timer(token));
            let j = choose|j: int| 0 <= j < t0.len() && #[trigger] t0[j] is Connected;
            assert(self.bindings@[k as int].trace@[j] == t0[j]);
            assert forall|i: int| 0 <= i < self.bindings@.len() implies (#[trigger] self.bindings@[i]).wf() by {
                if i != k {
                    assert(old(self).bindings@[i].wf());
                }
            }
        }
        self.flush(node, ctx);
    }

    /// Binds `handler` to `protocol` on `node`, with a timer channel for each
    /// of `timer_tokens`, and initializes it; then tells it of every session
    /// `node` already has on `protocol`. Refused, changing nothing, when
    /// `node` does not exist or already speaks `protocol`.
    pub fn add_protocol(&mut self, node: usize, protocol: ProtocolId, handler: Handler, timer_tokens: &Vec<u64>) -> (r: bool)
        requires
            old(self).wf(),
            handler.valid(),
        ensures
            final(self).wf(),
            r <==> node < old(self).peer_counts@.len() && forall|k: int|
                0 <= k < old(self).bindings@.len() ==> !(#[trigger] old(self).bindings@[k].node == node
                    && old(self).bindings@[k].protocol == protocol),
            !r ==> *final(self) == *old(self),
            r ==> final(self).bindings@.len() == old(self).bindings@.len() + 1,
            r ==> final(self).bindings@[old(self).bindings@.len() as int].node == node,
            r ==> final(self).bindings@[old(self).bindings@.len() as int].protocol == protocol,
            r ==> final(self).bindings@[old(self).bindings@.len() as int].handler == handler,
            r ==> final(self).bindings@[old(self).bindings@.len() as int].trace@ == seq![
                Event::Initialize,
            ] + session_events(old(self).links@, node, protocol),
            r ==> forall|j: int|
                0 <= j < old(self).bindings@.len() ==> #[trigger] final(self).bindings@[j]
                    == old(self).bindings@[j],
            r ==> final(self).timers@ == old(self).timers@ + timer_tokens@.map_values(
                |t: u64| (TimerChannel { node, protocol, token: t, ticks: 0 }),
            ),
            final(self).peer_counts@ == old(self).peer_counts@,
            endpoints_kept(old(self).links@, final(self).links@),
            queues_grow(old(self).links@, final(self).links@),
    {
        proof {
            lemma_queues_grow_refl(self.links@);
        }
        if node >= self.peer_counts.len() {
            return false;
        }
        if self.find_binding(node, protocol).is_some() {
            return false;
        }
        let mut i: usize = 0;
        let ghost start = *self;
        while i < timer_tokens.len()
            invariant
                self.wf(),
                self.bindings@ == start.bindings@,
                self.links@ == start.links@,
                self.peer_counts@ == start.peer_counts@,
                i <= timer_tokens@.len(),
                self.timers@ == start.timers@ + timer_tokens@.take(i as int).map_values(
                    |t: u64| (TimerChannel { node, protocol, token: t, ticks: 0 }),
                ),
            decreases timer_tokens@.len() - i,
        {
            self.timers.push(TimerChannel { node, protocol, token: timer_tokens[i], ticks: 0 });
            assert(timer_tokens@.take(i + 1) =~= timer_tokens@.take(i as int).push(timer_tokens@[i as int]));
            assert(self.timers@ =~= start.timers@ + timer_tokens@.take(i + 1).map_values(
                |t: u64| (TimerChannel { node, protocol, token: t, ticks: 0 }),
            ));
            i = i + 1;
        }
        assert(timer_tokens@.take(timer_tokens@.len() as int) =~= timer_tokens@);
        let ghost h0 = handler;
        let ghost timers_done = self.timers@;
        let mut handler = handler;
        let mut ctx = self.context(node, protocol);
        handler.initialize(&mut ctx);
        let k = self.bindings.len();
        self.bindings.push(
            Binding { node, protocol, handler, trace: vec![Event::Initialize], has_connected: false },
        );
        proof {
            lemma_queues_grow_refl(self.links@);
            let b = self.bindings@[k as int];
            assert(b.trace@ =~= seq![Event::Initialize]);
            assert forall|j: int| 0 <= j < self.bindings@.len() implies (#[trigger] self.bindings@[j]).wf() by {
                if j < k {
                    assert(start.bindings@[j].wf());
                }
            }
        }
        self.flush(node, ctx);
        let n = self.links.len();
        let mut l: usize = 0;
        proof {
            assert(seq![Event::Initialize] + session_events(start.links@.take(0), node, protocol) =~= seq![
                Event::Initialize,
            ]);
        }
        while l < n
            invariant
                self.wf(),
                n == self.links@.len(),
                endpoints_kept(start.links@, self.links@),
                queues_grow(start.links@, self.links@),
                self.bindings@.len() == k + 1,
                k == start.bindings@.len(),
                self.bindings@[k as int].node == node,
                self.bindings@[k as int].protocol == protocol,
                self.bindings@[k as int].handler == h0,
                self.bindings@[k as int].trace@ == seq![Event::Initialize] + session_events(
                    start.links@.take(l as int),
                    node,
                    protocol,
                ),
                forall|j: int| 0 <= j < k ==> #[trigger] self.bindings@[j] == start.bindings@[j],
                self.timers@ == timers_done,
                self.peer_counts@ == start.peer_counts@,
                l <= n,
            decreases n - l,
        {
            let ghost before = *self;
            proof {
                assert(start.links@.take(l + 1).drop_last() =~= start.links@.take(l as int));
                assert(start.links@.take(l + 1).last() == start.links@[l as int]);
            }
            if self.links[l].from_node == node && self.links[l].protocol == protocol {
                let peer = self.links[l].from_peer;
                self.dispatch_connected(k, peer);
                proof {
                    lemma_queues_grow_trans(start.links@, before.links@, self.links@);
                    assert(self.bindings@[k as int].trace@ =~= seq![Event::Initialize] + session_events(
                        start.links@.take(l + 1),
                        node,
                        protocol,
                    ));
                }
            }
            l = l + 1;
        }
        assert(start.links@.take(n as int) =~= start.links@);
        true
    }

    /// Opens a session between nodes `a` and `b` on `protocol`: each side gets
    /// a fresh peer index for the other and a link towards it, and each side's
    /// handler of `protocol`, if any, is told of the new peer. Returns the peer
    /// index of `b` at `a` and of `a` at `b`; refused, changing nothing, when a
    /// node does not exist, `a == b`, or a node has no peer index left.
    pub fn connect(&mut self, a: usize, b: usize, protocol: ProtocolId) -> (r: Option<(PeerIndex, PeerIndex)>)
        requires
            old(self).wf(),
        ensures
            final(self).wf(),
            r.is_some() <==> (a < old(self).peer_counts@.len() && b < old(self).peer_counts@.len() && a
                != b && old(self).peer_counts@[a as int] < usize::MAX && old(self).peer_counts@[b as int]
                < usize::MAX),
            r.is_none() ==> *final(self) == *old(self),
            r.is_some() ==> {
                let (pa, pb) = r.unwrap();
                let n = old(self).links@.len() as int;
                &&& pa == old(self).peer_counts@[a as int]
                &&& pb == old(self).peer_counts@[b as int]
                &&& final(self).peer_counts@ == old(self).peer_counts@.update(a as int, (pa + 1) as usize).update(
                    b as int,
                    (pb + 1) as usize,
                )
                &&& final(self).links@.len() == n + 2
                &&& final(self).links@[n].protocol == protocol
                &&& final(self).links@[n].from_node == a
                &&& final(self).links@[n].from_peer == pa
                &&& final(self).links@[n].to_node == b
                &&& final(self).links@[n].to_peer == pb
                &&& final(self).links@[n + 1].protocol == protocol
                &&& final(self).links@[n + 1].from_node == b
                &&& final(self).links@[n + 1].from_peer == pb
                &&& final(self).links@[n + 1].to_node == a
                &&& final(self).links@[n + 1].to_peer == pa
                &&& endpoints_kept(old(self).links@, final(self).links@.take(n))
                &&& queues_grow(old(self).links@, final(self).links@)
                &&& final(self).bindings@.len() == old(self).bindings@.len()
                &&& forall|k: int|
                    #![trigger final(self).bindings@[k]]
                    0 <= k < old(self).bindings@.len() ==> if old(self).bindings@[k].node == a
                        && old(self).bindings@[k].protocol == protocol {
                        connected_once(old(self).bindings@[k], final(self).bindings@[k], pa)
                    } else if old(self).bindings@[k].node == b && old(self).bindings@[k].protocol
                        == protocol {
                        connected_once(old(self).bindings@[k], final(self).bindings@[k], pb)
                    } else {
                        final(self).bindings@[k] == old(self).bindings@[k]
                    }
            },
    {
        if a >= self.peer_counts.len() || b >= self.peer_counts.len() || a == b {
            return None;
        }
        let pa = self.peer_counts[a];
        let pb = self.peer_counts[b];
        if pa == usize::MAX || pb == usize::MAX {
            return None;
        }
        let ghost start = *self;
        self.peer_counts.set(a, pa + 1);
        self.peer_counts.set(b, pb + 1);
        self.links.push(
            Link { protocol, from_node: a, from_peer: pa, to_node: b, to_peer: pb, queue: Vec::new() },
        );
        self.links.push(
            Link { protocol, from_node: b, from_peer: pb, to_node: a, to_peer: pa, queue: Vec::new() },
        );
        let ghost added = *self;
        proof {
            lemma_queues_grow_refl(start.links@);
            assert forall|i: int| 0 <= i < start.links@.len() implies queue_view(start.links@[i]).len()
                <= queue_view(#[trigger] added.links@[i]).len() && queue_view(added.links@[i]).take(
                queue_view(start.links@[i]).len() as int,
            ) == queue_view(start.links@[i]) by {
                assert(added.links@[i] == start.links@[i]);
                assert(queue_view(start.links@[i]).take(queue_view(start.links@[i]).len() as int)
                    =~= queue_view(start.links@[i]));
            }
        }
        let fa = self.find_binding(a, protocol);
        match fa {
            Some(k) => self.dispatch_connected(k, pa),
            None => {},
        }
        let ghost s1 = *self;
        proof {
            lemma_queues_grow_refl(s1.links@);
            lemma_queues_grow_trans(start.links@, added.links@, s1.links@);
        }
        let fb = self.find_binding(b, protocol);
        match fb {
            Some(k) => self.dispatch_connected(k, pb),
            None => {},
        }
        proof {
            lemma_queues_grow_trans(start.links@, s1.links@, self.links@);
            assert(self.links@.take(start.links@.len() as int).len() == start.links@.len());
            assert forall|k: int|
                #![trigger self.bindings@[k]]
                0 <= k < start.bindings@.len() implies if start.bindings@[k].node == a
                    && start.bindings@[k].protocol == protocol {
                    connected_once(start.bindings@[k], self.bindings@[k], pa)
                } else if start.bindings@[k].node == b && start.bindings@[k].protocol == protocol {
                    connected_once(start.bindings@[k], self.bindings@[k], pb)
                } else {
                    self.bindings@[k] == start.bindings@[k]
                } by {
                let x = start.bindings@[k];
                if x.node == a && x.protocol == protocol {
                    match fa {
                        Some(ka) => {
                            if ka as int != k {
                                if (ka as int) < k {
                                    assert(!(start.bindings@[ka as int].node == start.bindings@[k].node
                                        && start.bindings@[ka as int].protocol == start.bindings@[k].protocol));
                                } else {
                                    assert(!(start.bindings@[k].node == start.bindings@[ka as int].node
                                        && start.bindings@[k].protocol == start.bindings@[ka as int].protocol));
                                }
                            }
                            assert(connected_once(x, s1.bindings@[k], pa));
                            match fb {
                                Some(kb) => {
                                    assert(s1.bindings@[kb as int].node == b);
                                    assert(kb as int != k);
                                },
                                None => {},
                            }
                        },
                        None => {
                            assert(!(added.bindings@[k].node == a && added.bindings@[k].protocol == protocol));
                        },
                    }
                } else if x.node == b && x.protocol == protocol {
                    match fa {
                        Some(ka) => {
                            assert(added.bindings@[ka as int].node == a);
                            assert(s1.bindings@[k] == x);
                        },
                        None => {},
                    }
                    match fb {
                        Some(kb) => {
                            if kb as int != k {
                                if (kb as int) < k {
                                    assert(!(s1.bindings@[kb as int].node == s1.bindings@[k].node
                                        && s1.bindings@[kb as int].protocol == s1.bindings@[k].protocol));
                                } else {
                                    assert(!(s1.bindings@[k].node == s1.bindings@[kb as int].node
                                        && s1.bindings@[k].protocol == s1.bindings@[kb as int].protocol));
                                }
                            }
                        },
                        None => {
                            assert(!(s1.bindings@[k].node == b && s1.bindings@[k].protocol == protocol));
                        },
                    }
                } else {
                    match fa {
                        Some(ka) => {
                            assert(added.bindings@[ka as int].node == a);
                        },
                        None => {},
                    }
                    assert(s1.bindings@[k] == x);
                    match fb {
                        Some(kb) => {
                            assert(s1.bindings@[kb as int].node == b);
                        },
                        None => {},
                    }
                }
            }
            let n = start.links@.len() as int;
            assert(added.links@[n].from_node == a);
            assert(added.links@[n + 1].from_node == b);
            assert(self.links@[n].protocol == added.links@[n].protocol);
            assert(self.links@[n + 1].protocol == added.links@[n + 1].protocol);
        }
        Some((pa, pb))
    }

    /// Queues `payload` on every link that leaves `node` on `protocol`, and on
    /// no other link.
    pub fn broadcast(&mut self, node: usize, protocol: ProtocolId, payload: &Vec<u8>)
        requires
            old(self).wf(),
        ensures
            final(self).wf(),
            final(self).bindings@ == old(self).bindings@,
            final(self).peer_counts@ == old(self).peer_counts@,
            final(self).timers@ == old(self).timers@,
            final(self).links@.len() == old(self).links@.len(),
            forall|i: int|
                0 <= i < old(self).links@.len() ==> #[trigger] link_view(final(self).links@[i]) == ({
                    let (p, a, b, c, d, q) = link_view(old(self).links@[i]);
                    if a == node && p == protocol {
                        (p, a, b, c, d, q.push(payload@))
                    } else {
                        (p, a, b, c, d, q)
                    }
                }),
    {
        let ghost start = *self;
        let mut l: usize = 0;
        while l < self.links.len()
            invariant
                self.wf(),
                self.bindings@ == start.bindings@,
                self.peer_counts@ == start.peer_counts@,
                self.timers@ == start.timers@,
                self.links@.len() == start.links@.len(),
                l <= self.links@.len(),
                forall|i: int|
                    0 <= i < l ==> #[trigger] link_view(self.links@[i]) == ({
                        let (p, a, b, c, d, q) = link_view(start.links@[i]);
                        if a == node && p == protocol {
                            (p, a, b, c, d, q.push(payload@))
                        } else {
                            (p, a, b, c, d, q)
                        }
                    }),
                forall|i: int| l <= i < self.links@.len() ==> #[trigger] self.links@[i] == start.links@[i],
            decreases self.links@.len() - l,
        {
            if self.links[l].from_node == node && self.links[l].protocol == protocol {
                let data = payload.clone();
                assert(data@ =~= payload@);
                let ghost before = self.links@[l as int].queue@;
                self.links[l].queue.push(data);
                assert(self.links@[l as int].queue@.map_values(|d: Vec<u8>| d@) =~= before.map_values(
                    |d: Vec<u8>| d@,
                ).push(payload@));
            }
            l = l + 1;
        }
    }

    /// Records one tick of timer `token` of `protocol` on `node`; false, with
    /// nothing changed, when no such timer was declared or its count is full.
    pub fn fire_timer(&mut self, node: usize, protocol: ProtocolId, token: u64) -> (r: bool)
        requires
            old(self).wf(),
        ensures
            final(self).wf(),
            final(self).bindings@ == old(self).bindings@,
            final(self).links@ == old(self).links@,
            final(self).timers@.len() == old(self).timers@.len(),
            !r ==> final(self).timers@ == old(self).timers@,
            !r ==> forall|t: int|
                0 <= t < old(self).timers@.len() ==> !(#[trigger] old(self).timers@[t].node == node
                    && old(self).timers@[t].protocol == protocol && old(self).timers@[t].token == token
                    && old(self).timers@[t].ticks < u64::MAX),
            r ==> exists|t: int|
                0 <= t < old(self).timers@.len() && #[trigger] old(self).timers@[t].node == node
                    && old(self).timers@[t].protocol == protocol && old(self).timers@[t].token == token
                    && final(self).timers@ == old(self).timers@.update(
                    t,
                    (TimerChannel { node, protocol, token, ticks: (old(self).timers@[t].ticks + 1) as u64 }),
                ),
    {
        match self.find_timer(node, protocol, token) {
            Some(t) => {
                let ticks = self.timers[t].ticks + 1;
                self.timers.set(t, TimerChannel { node, protocol, token, ticks });
                true
            },
            None => false,
        }
    }

    /// One round of delivery. First the head frame of every link that has one
    /// is taken off; these frames are returned in link order. Then each is
    /// handed, in that order, to the receiving node's handler of its protocol,
    /// once that handler has seen a peer connect; a frame for a protocol the
    /// node does not speak is dropped. Last, every timer with a pending tick
    /// whose handler has seen a peer connect loses one tick, and the handler
    /// gets it. Frames that handlers send meanwhile go to the back of queues.
    pub fn poll(&mut self) -> (r: Vec<Delivery>)
        requires
            old(self).wf(),
        ensures
            final(self).wf(),
            r@.map_values(|d: Delivery| delivery_view(d)) == heads(old(self).links@),
            final(self).peer_counts@ == old(self).peer_counts@,
            endpoints_kept(old(self).links@, final(self).links@),
            forall|l: int|
                0 <= l < old(self).links@.len() ==> after_take(old(self).links@[l]).len() <= queue_view(
                    #[trigger] final(self).links@[l],
                ).len() && queue_view(final(self).links@[l]).take(
                    after_take(old(self).links@[l]).len() as int,
                ) == after_take(old(self).links@[l]),
            final(self).bindings@.len() == old(self).bindings@.len(),
            forall|k: int|
                0 <= k < old(self).bindings@.len() ==> {
                    let b = old(self).bindings@[k];
                    &&& (#[trigger] final(self).bindings@[k]).node == b.node
                    &&& final(self).bindings@[k].protocol == b.protocol
                    &&& final(self).bindings@[k].has_connected == b.has_connected
                    &&& final(self).bindings@[k].trace@ == b.trace@ + received_events(
                        b,
                        heads(old(self).links@),
                    ) + timer_events(b, old(self).timers@)
                    &&& received_events(b, heads(old(self).links@)).len() == 0 && timer_events(
                        b,
                        old(self).timers@,
                    ).len() == 0 ==> final(self).bindings@[k] == b
                },
            final(self).timers@ == old(self).timers@.map_values(
                |t: TimerChannel| after_tick(old(self).bindings@, t),
            ),
    {
        let ghost start = *self;
        let mut out: Vec<Delivery> = Vec::new();
        let n = self.links.len();
        let mut l: usize = 0;
        while l < n
            invariant
                self.wf(),
                self.bindings@ == start.bindings@,
                self.peer_counts@ == start.peer_counts@,
                self.timers@ == start.timers@,
                n == start.links@.len(),
                self.links@.len() == n,
                l <= n,
                forall|j: int|
                    0 <= j < l ==> (#[trigger] self.links@[j]).protocol == start.links@[j].protocol
                        && self.links@[j].from_node == start.links@[j].from_node
                        && self.links@[j].from_peer == start.links@[j].from_peer
                        && self.links@[j].to_node == start.links@[j].to_node
                        && self.links@[j].to_peer == start.links@[j].to_peer
                        && queue_view(self.links@[j]) == after_take(start.links@[j]),
                forall|j: int| l <= j < n ==> #[trigger] self.links@[j] == start.links@[j],
                out@.map_values(|d: Delivery| delivery_view(d)) == heads(start.links@.take(l as int)),
            decreases n - l,
        {
            let ghost prev = out@;
            let ghost before = self.links@[l as int];
            proof {
                assert(start.links@.take(l + 1).drop_last() =~= start.links@.take(l as int));
                assert(start.links@.take(l + 1).last() == start.links@[l as int]);
            }
            if self.links[l].queue.len() > 0 {
                let data = self.links[l].queue.remove(0);
                let node = self.links[l].to_node;
                let protocol = self.links[l].protocol;
                let peer = self.links[l].to_peer;
                out.push(Delivery { node, protocol, peer, data });
                proof {
                    assert(queue_view(self.links@[l as int]) =~= after_take(before));
                    assert(out@.map_values(|d: Delivery| delivery_view(d)) =~= prev.map_values(
                        |d: Delivery| delivery_view(d),
                    ).push((node, protocol, peer, queue_view(before)[0])));
                }
            }
            l = l + 1;
        }
        proof {
            assert(start.links@.take(n as int) =~= start.links@);
        }
        let ghost ds = heads(start.links@);
        let ghost mid = self.links@;
        proof {
            lemma_queues_grow_refl(mid);
            assert forall|k: int| 0 <= k < start.bindings@.len() implies self.bindings@[k].trace@ =~= (
            #[trigger] start.bindings@[k]).trace@ + received_events(start.bindings@[k], ds.take(0)) by {}
        }
        let mut i: usize = 0;
        while i < out.len()
            invariant
                self.wf(),
                out@.map_values(|d: Delivery| delivery_view(d)) == ds,
                self.bindings@.len() == start.bindings@.len(),
                forall|k: int|
                    0 <= k < start.bindings@.len() ==> {
                        let b = start.bindings@[k];
                        &&& (#[trigger] self.bindings@[k]).node == b.node
                        &&& self.bindings@[k].protocol == b.protocol
                        &&& self.bindings@[k].has_connected == b.has_connected
                        &&& self.bindings@[k].trace@ == b.trace@ + received_events(b, ds.take(i as int))
                        &&& received_events(b, ds.take(i as int)).len() == 0 ==> self.bindings@[k] == b
                    },
                self.peer_counts@ == start.peer_counts@,
                self.timers@ == start.timers@,
                endpoints_kept(start.links@, self.links@),
                queues_grow(mid, self.links@),
                i <= out@.len(),
            decreases out@.len() - i,
        {
            let node = out[i].node;
            let protocol = out[i].protocol;
            let peer = out[i].peer;
            let ghost d = ds[i as int];
            let ghost before = *self;
            proof {
                assert(out@.map_values(|d: Delivery| delivery_view(d))[i as int] == delivery_view(out@[i as int]));
                assert(ds.take(i + 1).drop_last() =~= ds.take(i as int));
                assert(ds.take(i + 1).last() == d);
            }
            let found = self.find_binding(node, protocol);
            let mut dispatched = false;
            match found {
                Some(k) => {
                    if self.bindings[k].has_connected {
                        self.dispatch_received(k, peer, out[i].data.as_slice());
                        dispatched = true;
                        proof {
                            lemma_queues_grow_trans(mid, before.links@, self.links@);
                        }
                    }
                },
                None => {},
            }
            proof {
                assert forall|k: int| 0 <= k < start.bindings@.len() implies {
                    let b = start.bindings@[k];
                    &&& (#[trigger] self.bindings@[k]).node == b.node
                    &&& self.bindings@[k].protocol == b.protocol
                    &&& self.bindings@[k].has_connected == b.has_connected
                    &&& self.bindings@[k].trace@ == b.trace@ + received_events(b, ds.take(i + 1))
                    &&& received_events(b, ds.take(i + 1)).len() == 0 ==> self.bindings@[k] == b
                } by {
                    let b = start.bindings@[k];
                    let hit = b.has_connected && d.0 == b.node && d.1 == b.protocol;
                    if dispatched && k == found.unwrap() {
                        assert(hit);
                        assert(self.bindings@[k].trace@ =~= b.trace@ + received_events(b, ds.take(i + 1)));
                    } else {
                        assert(self.bindings@[k] == before.bindings@[k]);
                        if hit {
                            match found {
                                Some(fu) => {
                                    let f = fu as int;
                                    if f != k {
                                        assert(before.bindings@[f].node == before.bindings@[k].node);
                                        if f < k {
                                            assert(!(before.bindings@[f].node == before.bindings@[k].node
                                                && before.bindings@[f].protocol == before.bindings@[k].protocol));
                                        } else {
                                            assert(!(before.bindings@[k].node == before.bindings@[f].node
                                                && before.bindings@[k].protocol == before.bindings@[f].protocol));
                                        }
                                    }
                                },
                                None => {
                                    assert(!(before.bindings@[k].node == node && before.bindings@[k].protocol == protocol));
                                },
                            }
                        }
                        assert(!hit);
                    }
                }
            }
            i = i + 1;
        }
        proof {
            assert(ds.take(ds.len() as int) =~= ds);
            assert forall|k: int| 0 <= k < start.bindings@.len() implies self.bindings@[k].trace@ =~= (
            #[trigger] start.bindings@[k]).trace@ + received_events(start.bindings@[k], ds) + timer_events(
                start.bindings@[k],
                start.timers@.take(0),
            ) by {}
        }
        let m = self.timers.len();
        let mut t: usize = 0;
        while t < m
            invariant
                self.wf(),
                self.bindings@.len() == start.bindings@.len(),
                forall|k: int|
                    0 <= k < start.bindings@.len() ==> {
                        let b = start.bindings@[k];
                        &&& (#[trigger] self.bindings@[k]).node == b.node
                        &&& self.bindings@[k].protocol == b.protocol
                        &&& self.bindings@[k].has_connected == b.has_connected
                        &&& self.bindings@[k].trace@ == b.trace@ + received_events(b, ds) + timer_events(
                            b,
                            start.timers@.take(t as int),
                        )
                        &&& received_events(b, ds).len() == 0 && timer_events(
                            b,
                            start.timers@.take(t as int),
                        ).len() == 0 ==> self.bindings@[k] == b
                    },
                self.peer_counts@ == start.peer_counts@,
                m == start.timers@.len(),
                self.timers@.len() == m,
                t <= m,
                forall|j: int|
                    0 <= j < t ==> #[trigger] self.timers@[j] == after_tick(start.bindings@, start.timers@[j]),
                forall|j: int| t <= j < m ==> #[trigger] self.timers@[j] == start.timers@[j],
                endpoints_kept(start.links@, self.links@),
                queues_grow(mid, self.links@),
            decreases m - t,
        {
            let c = &self.timers[t];
            let node = c.node;
            let protocol = c.protocol;
            let token = c.token;
            let ticks = c.ticks;
            let ghost tc = start.timers@[t as int];
            let ghost before = *self;
            proof {
                assert(start.timers@.take(t + 1).drop_last() =~= start.timers@.take(t as int));
                assert(start.timers@.take(t + 1).last() == tc);
            }
            let mut fired = false;
            let mut which: usize = 0;
            if ticks > 0 {
                match self.find_binding(node, protocol) {
                    Some(k) => {
                        if self.bindings[k].has_connected {
                            self.timers.set(t, TimerChannel { node, protocol, token, ticks: ticks - 1 });
                            self.dispatch_timer(k, token);
                            fired = true;
                            which = k;
                            proof {
                                lemma_queues_grow_trans(mid, before.links@, self.links@);
                                assert(start.bindings@[k as int].node == node);
                            }
                        } else {
                            proof {
                                assert forall|j: int| 0 <= j < start.bindings@.len() implies !(
                                #[trigger] start.bindings@[j].node == node && start.bindings@[j].protocol
                                    == protocol && start.bindings@[j].has_connected) by {
                                    assert(before.bindings@[j].node == start.bindings@[j].node);
                                    if j != k && start.bindings@[j].node == node && start.bindings@[j].protocol == protocol {
                                        if j < k {
                                            assert(!(before.bindings@[j].node == before.bindings@[k as int].node
                                                && before.bindings@[j].protocol == before.bindings@[k as int].protocol));
                                        } else {
                                            assert(!(before.bindings@[k as int].node == before.bindings@[j].node
                                                && before.bindings@[k as int].protocol == before.bindings@[j].protocol));
                                        }
                                    }
                                }
                            }
                        }
                    },
                    None => {
                        proof {
                            assert forall|j: int| 0 <= j < start.bindings@.len() implies !(
                            #[trigger] start.bindings@[j].node == node && start.bindings@[j].protocol
                                == protocol && start.bindings@[j].has_connected) by {
                                assert(before.bindings@[j].node == start.bindings@[j].node);
                            }
                        }
                    },
                }
            }
            proof {
                assert(self.timers@[t as int] == after_tick(start.bindings@, tc));
                assert forall|k: int| 0 <= k < start.bindings@.len() implies {
                    let b = start.bindings@[k];
                    &&& (#[trigger] self.bindings@[k]).node == b.node
                    &&& self.bindings@[k].protocol == b.protocol
                    &&& self.bindings@[k].has_connected == b.has_connected
                    &&& self.bindings@[k].trace@ == b.trace@ + received_events(b, ds) + timer_events(
                        b,
                        start.timers@.take(t + 1),
                    )
                    &&& received_events(b, ds).len() == 0 && timer_events(b, start.timers@.take(t + 1)).len()
                        == 0 ==> self.bindings@[k] == b
                } by {
                    let b = start.bindings@[k];
                    let hit = tc.ticks > 0 && b.has_connected && tc.node == b.node && tc.protocol == b.protocol;
                    if fired && k == which {
                        assert(hit);
                        assert(self.bindings@[k].trace@ =~= b.trace@ + received_events(b, ds) + timer_events(
                            b,
                            start.timers@.take(t + 1),
                        ));
                    } else {
                        assert(self.bindings@[k] == before.bindings@[k]);
                        if hit && fired {
                            if which < k {
                                assert(!(before.bindings@[which as int].node == before.bindings@[k].node
                                    && before.bindings@[which as int].protocol == before.bindings@[k].protocol));
                            } else {
                                assert(!(before.bindings@[k].node == before.bindings@[which as int].node
                                    && before.bindings@[k].protocol == before.bindings@[which as int].protocol));
                            }
                        }
                        if hit && !fired {
                            assert(tick_fires(start.bindings@, tc) ==> false);
                            assert(start.bindings@[k].node == tc.node);
                        }
                        assert(!hit);
                    }
                }
            }
            t = t + 1;
        }
        proof {
            assert(start.timers@.take(m as int) =~= start.timers@);
            assert(self.timers@ =~= start.timers@.map_values(|tc: TimerChannel| after_tick(start.bindings@, tc)));
            assert forall|l: int|
                0 <= l < start.links@.len() implies after_take(start.links@[l]).len() <= queue_view(
                    #[trigger] self.links@[l],
                ).len() && queue_view(self.links@[l]).take(after_take(start.links@[l]).len() as int)
                    == after_take(start.links@[l]) by {
                assert(queue_view(mid[l]) == after_take(start.links@[l]));
            }
        }
        out
    }

    fn find_timer(&self, node: usize, protocol: ProtocolId, token: u64) -> (r: Option<usize>)
        ensures
            r.is_none() ==> forall|t: int|
                0 <= t < self.timers@.len() ==> !(#[trigger] self.timers@[t].node == node
                    && self.timers@[t].protocol == protocol && self.timers@[t].token == token
                    && self.timers@[t].ticks < u64::MAX),
            r.is_some() ==> {
                let t = r.unwrap() as int;
                &&& 0 <= t < self.timers@.len()
                &&& self.timers@[t].node == node
                &&& self.timers@[t].protocol == protocol
                &&& self.timers@[t].token == token
                &&& self.timers@[t].ticks < u64::MAX
            },
    {
        let mut t: usize = 0;
        while t < self.timers.len()
            invariant
                t <= self.timers@.len(),
                forall|j: int|
                    0 <= j < t ==> !(#[trigger] self.timers@[j].node == node
                        && self.timers@[j].protocol == protocol && self.timers@[j].token == token
                        && self.timers@[j].ticks < u64::MAX),
            decreases self.timers@.len() - t,
        {
            let c = &self.timers[t];
            if c.node == node && c.protocol == protocol && c.token == token && c.ticks < u64::MAX {
                return Some(t);
            }
            t = t + 1;
        }
        None
    }
}

/// Every handler bound on a network saw `initialize` first and only once, and
/// saw some peer connect before any frame or timer tick reached it.
pub proof fn lemma_lifecycle_order(net: &TestNetwork, k: int)
    requires
        net.wf(),
        0 <= k < net.bindings@.len(),
    ensures
        net.bindings@[k].trace@.len() > 0,
        net.bindings@[k].trace@[0] == Event::Initialize,
        forall|i: int|
            0 < i < net.bindings@[k].trace@.len() ==> #[trigger] net.bindings@[k].trace@[i]
                != Event::Initialize,
        forall|i: int|
            0 <= i < net.bindings@[k].trace@.len() && (#[trigger] net.bindings@[k].trace@[i] is Received
                || net.bindings@[k].trace@[i] is Timer) ==> exists|j: int|
                0 <= j < i && #[trigger] net.bindings@[k].trace@[j] is Connected,
{
    assert(net.bindings@[k].wf());
}

} // verus!
