use relay_net::error::SharedError;
use relay_net::context::{Behaviour, NetworkContext, NetworkError, TimerRequest};
use relay_net::handler::Handler;
use relay_net::message::{encode_block_proposal, GetBlockProposal, Transaction};
use relay_net::pending::PendingProposalsRequest;
use relay_net::relay::{GetBlockProposalProcess, RelayError, Relayer};
use relay_net::short_id::ProposalShortId;
use relay_net::simulation::{Event, TestNetwork};
use relay_net::tx_pool::TxPool;

const RELAY: usize = 1;
const SYNC: usize = 0;

fn id(n: u8) -> ProposalShortId {
    ProposalShortId::new([n; 10])
}

fn tx(bytes: &[u8]) -> Transaction {
    Transaction::new(bytes.to_vec())
}

fn request_frame(ids: &[ProposalShortId]) -> Vec<u8> {
    GetBlockProposal { proposal_transactions: ids.to_vec() }.encode()
}

fn pool_with(entries: &[(u8, &[u8])]) -> TxPool {
    let mut pool = TxPool::new();
    for (n, body) in entries {
        assert!(pool.add(id(*n), tx(body)));
    }
    pool
}

fn relay_context(peers: &[usize]) -> NetworkContext {
    NetworkContext::new(RELAY, peers.iter().map(|p| (RELAY, *p)).collect(), Vec::new())
}

fn sent_bytes(nc: &NetworkContext) -> Vec<(usize, usize, Vec<u8>)> {
    nc.outbox.iter().map(|o| (o.protocol, o.peer, o.data.clone())).collect()
}

fn sorted(mut v: Vec<usize>) -> Vec<usize> {
    v.sort();
    v
}

#[test]
fn short_id_from_slice() {
    let bytes = [1u8, 2, 3, 4, 5, 6, 7, 8, 9, 10];
    let got = ProposalShortId::from_slice(&bytes).unwrap();
    assert_eq!(got.bytes, bytes);
    assert!(ProposalShortId::from_slice(&bytes[..9]).is_none());
    assert!(ProposalShortId::from_slice(&[0u8; 11]).is_none());
    assert!(got.same_as(&ProposalShortId::new(bytes)));
    assert!(!got.same_as(&id(1)));
}

#[test]
fn request_frame_layout() {
    let frame = request_frame(&[id(3), id(4)]);
    let mut expected = vec![0u8];
    expected.extend_from_slice(&[3u8; 10]);
    expected.extend_from_slice(&[4u8; 10]);
    assert_eq!(frame, expected);
    let back = GetBlockProposal::decode(&frame).unwrap();
    assert_eq!(back.proposal_transactions.len(), 2);
    assert!(back.proposal_transactions[0].same_as(&id(3)));
    assert!(back.proposal_transactions[1].same_as(&id(4)));
    assert_eq!(request_frame(&[]), vec![0u8]);
}

#[test]
fn malformed_request_frames() {
    assert!(GetBlockProposal::decode(&[]).is_none());
    assert!(GetBlockProposal::decode(&[1u8]).is_none());
    assert!(GetBlockProposal::decode(&[0u8, 1, 2]).is_none());
    let mut long = vec![0u8];
    long.extend_from_slice(&[5u8; 11]);
    assert!(GetBlockProposal::decode(&long).is_none());
    assert_eq!(GetBlockProposal::decode(&[0u8]).unwrap().proposal_transactions.len(), 0);
}

#[test]
fn response_frame_layout() {
    let frame = encode_block_proposal(&vec![tx(&[7, 8]), tx(&[])]);
    assert_eq!(frame, vec![1u8, 2, 0, 0, 0, 0, 0, 0, 0, 7, 8, 0, 0, 0, 0, 0, 0, 0, 0]);
    assert_eq!(encode_block_proposal(&Vec::new()), vec![1u8]);
    let big = vec![9u8; 300];
    let frame = encode_block_proposal(&vec![Transaction::new(big.clone())]);
    assert_eq!(&frame[..9], &[1u8, 44, 1, 0, 0, 0, 0, 0, 0]);
    assert_eq!(&frame[9..], &big[..]);
}

#[test]
fn tx_pool_lookup() {
    let mut pool = pool_with(&[(1, &[11, 12])]);
    assert_eq!(pool.get_tx(&id(1)).unwrap().data, vec![11u8, 12]);
    assert!(pool.get_tx(&id(2)).is_none());
    assert!(!pool.add(id(1), tx(&[99])));
    assert_eq!(pool.get_tx(&id(1)).unwrap().data, vec![11u8, 12]);
}

#[test]
fn pending_table_sets() {
    let mut table = PendingProposalsRequest::new();
    assert!(!table.contains(&id(1)));
    table.insert(&id(1), 4);
    table.insert(&id(1), 2);
    table.insert(&id(1), 4);
    table.insert(&id(2), 4);
    assert_eq!(sorted(table.waiters(&id(1))), vec![2, 4]);
    assert_eq!(table.waiters(&id(2)), vec![4]);
    assert!(table.waiters(&id(3)).is_empty());
    table.remove_peer(4);
    assert_eq!(table.waiters(&id(1)), vec![2]);
    assert!(!table.contains(&id(2)));
}

#[test]
fn deduplication_across_peers() {
    let mut relayer = Relayer::new(pool_with(&[]));
    for peer in [5usize, 1, 3] {
        let txs = relayer.resolve_proposals(peer, &vec![id(9)]);
        assert!(txs.is_empty());
    }
    assert_eq!(sorted(relayer.pending_proposals_request().waiters(&id(9))), vec![1, 3, 5]);
}

#[test]
fn repeated_request_is_idempotent() {
    let mut relayer = Relayer::new(pool_with(&[]));
    relayer.resolve_proposals(2, &vec![id(9)]);
    relayer.resolve_proposals(2, &vec![id(9)]);
    assert_eq!(relayer.pending_proposals_request().waiters(&id(9)), vec![2]);
}

#[test]
fn hits_are_served_and_not_recorded() {
    let mut relayer = Relayer::new(pool_with(&[(1, &[10]), (2, &[20, 21])]));
    let txs = relayer.resolve_proposals(7, &vec![id(2), id(3), id(1)]);
    let bodies: Vec<Vec<u8>> = txs.iter().map(|t| t.data.clone()).collect();
    assert_eq!(bodies, vec![vec![20u8, 21], vec![10u8]]);
    assert!(!relayer.pending_proposals_request().contains(&id(1)));
    assert!(!relayer.pending_proposals_request().contains(&id(2)));
    assert_eq!(relayer.pending_proposals_request().waiters(&id(3)), vec![7]);
}

#[test]
fn empty_request_gets_empty_response() {
    let mut relayer = Relayer::new(pool_with(&[(1, &[10])]));
    let mut nc = relay_context(&[0]);
    let frame = request_frame(&[]);
    let r = GetBlockProposalProcess::new(&frame, 0).execute(&mut relayer, &mut nc);
    assert_eq!(r, Ok(()));
    assert_eq!(sent_bytes(&nc), vec![(RELAY, 0, vec![1u8])]);
    assert!(relayer.pending_proposals_request().waiters(&id(1)).is_empty());
}

#[test]
fn malformed_request_is_dropped() {
    let mut relayer = Relayer::new(pool_with(&[]));
    let mut nc = relay_context(&[0]);
    let r = GetBlockProposalProcess::new(&[0u8, 1, 2], 0).execute(&mut relayer, &mut nc);
    assert_eq!(r, Err(RelayError::MalformedMessage));
    assert!(nc.outbox.is_empty());
}

#[test]
fn reply_to_gone_peer_is_ignored() {
    let mut relayer = Relayer::new(pool_with(&[(1, &[10])]));
    let mut nc = relay_context(&[]);
    let frame = request_frame(&[id(1), id(2)]);
    let r = GetBlockProposalProcess::new(&frame, 3).execute(&mut relayer, &mut nc);
    assert_eq!(r, Ok(()));
    assert!(nc.outbox.is_empty());
    assert_eq!(relayer.pending_proposals_request().waiters(&id(2)), vec![3]);
}

#[test]
fn context_send_and_queries() {
    let mut nc = NetworkContext::new(RELAY, vec![(RELAY, 0), (SYNC, 1), (RELAY, 2)], vec![(RELAY, 7)]);
    assert_eq!(nc.send(0, vec![1]), Ok(()));
    assert_eq!(nc.send(1, vec![2]), Err(NetworkError::PeerNotFound));
    assert_eq!(nc.send_protocol(1, SYNC, vec![3]), Ok(()));
    assert_eq!(sent_bytes(&nc), vec![(RELAY, 0, vec![1u8]), (SYNC, 1, vec![3u8])]);
    assert!(nc.register_timer(100, 7));
    assert!(!nc.register_timer(100, 8));
    assert_eq!(nc.timers, vec![TimerRequest { interval_ms: 100, token: 7 }]);
    assert_eq!(nc.report_peer(2, Behaviour::MalformedMessage), Ok(()));
    nc.ban_peer(2, 5000);
    nc.disconnect(2);
    assert_eq!(nc.reports, vec![(2, Behaviour::MalformedMessage)]);
    assert_eq!(nc.bans, vec![(2, 5000)]);
    assert_eq!(nc.disconnects, vec![2]);
    assert_eq!(nc.protocol_id(), RELAY);
    assert_eq!(sorted(nc.connected_peers()), vec![0, 2]);
}

#[test]
fn relay_handler_forgets_disconnected_peer() {
    let mut handler = Handler::Relay(Relayer::new(pool_with(&[])));
    let mut nc = relay_context(&[0, 1]);
    let frame = request_frame(&[id(4)]);
    assert_eq!(handler.received(&mut nc, 0, &frame), Ok(()));
    assert_eq!(handler.received(&mut nc, 1, &frame), Ok(()));
    handler.disconnected(0);
    match &handler {
        Handler::Relay(r) => assert_eq!(r.pending_proposals_request().waiters(&id(4)), vec![1]),
        Handler::Feeler => panic!("relay handler expected"),
    }
}

#[test]
fn feeler_closes_sessions() {
    let mut handler = Handler::Feeler;
    let mut nc = relay_context(&[0]);
    handler.connected(&mut nc, 0);
    assert_eq!(nc.disconnects, vec![0]);
}

fn two_relay_nodes(b_pool: TxPool) -> (TestNetwork, usize, usize, usize) {
    let mut net = TestNetwork::new();
    let a = net.add_node();
    let b = net.add_node();
    assert!(net.add_protocol(a, RELAY, Handler::Relay(Relayer::new(TxPool::new())), &vec![]));
    assert!(net.add_protocol(b, RELAY, Handler::Relay(Relayer::new(b_pool)), &vec![]));
    let (b_at_a, a_at_b) = net.connect(a, b, RELAY).unwrap();
    (net, a, b_at_a, a_at_b)
}

fn waiters_at(net: &TestNetwork, node: usize, which: &ProposalShortId) -> Vec<usize> {
    let k = net.find_binding(node, RELAY).unwrap();
    match &net.bindings[k].handler {
        Handler::Relay(r) => r.pending_proposals_request().waiters(which),
        Handler::Feeler => panic!("relay handler expected"),
    }
}

#[test]
fn two_nodes_relay_proposals() {
    let (mut net, a, b_at_a, a_at_b) = two_relay_nodes(pool_with(&[(1, &[0xaa, 0xbb])]));
    let b = 1;
    let request = request_frame(&[id(1), id(2)]);
    assert!(net.send(a, RELAY, b_at_a, request.clone()).is_some());

    let first = net.poll();
    assert_eq!(first.len(), 1);
    assert_eq!((first[0].node, first[0].peer), (b, a_at_b));
    assert_eq!(first[0].data, request);

    let second = net.poll();
    assert_eq!(second.len(), 1);
    assert_eq!((second[0].node, second[0].peer), (a, b_at_a));
    assert_eq!(second[0].data, encode_block_proposal(&vec![tx(&[0xaa, 0xbb])]));
    assert!(net.poll().is_empty());
    assert_eq!(waiters_at(&net, b, &id(2)), vec![a_at_b]);
    assert!(waiters_at(&net, b, &id(1)).is_empty());

    assert!(net.send(a, RELAY, b_at_a, request).is_some());
    assert_eq!(net.poll().len(), 1);
    assert_eq!(net.poll().len(), 1);
    assert_eq!(waiters_at(&net, b, &id(2)), vec![a_at_b]);
}

#[test]
fn lifecycle_is_observed_in_order() {
    let mut net = TestNetwork::new();
    let a = net.add_node();
    let b = net.add_node();
    assert!(net.add_protocol(a, RELAY, Handler::Relay(Relayer::new(TxPool::new())), &vec![7]));
    assert!(net.fire_timer(a, RELAY, 7));
    net.poll();
    let k = net.find_binding(a, RELAY).unwrap();
    assert_eq!(net.bindings[k].trace, vec![Event::Initialize]);

    let (b_at_a, _) = net.connect(a, b, RELAY).unwrap();
    assert!(net.add_protocol(b, RELAY, Handler::Relay(Relayer::new(TxPool::new())), &vec![]));
    assert!(net.send(b, RELAY, 0, request_frame(&[])).is_some());
    net.poll();
    assert_eq!(
        net.bindings[k].trace,
        vec![Event::Initialize, Event::Connected(b_at_a), Event::Received(b_at_a), Event::Timer(7)]
    );
    let kb = net.find_binding(b, RELAY).unwrap();
    assert_eq!(net.bindings[kb].trace, vec![Event::Initialize, Event::Connected(0)]);
    assert!(!net.add_protocol(b, RELAY, Handler::Feeler, &vec![]));
    assert!(!net.add_protocol(9, SYNC, Handler::Feeler, &vec![]));
}

#[test]
fn broadcast_reaches_only_its_protocol() {
    let mut net = TestNetwork::new();
    let a = net.add_node();
    let b = net.add_node();
    let c = net.add_node();
    net.connect(a, b, RELAY).unwrap();
    net.connect(a, c, RELAY).unwrap();
    net.connect(a, b, SYNC).unwrap();
    net.broadcast(a, RELAY, &vec![42u8]);
    let queued: Vec<(usize, usize, usize)> = net
        .links
        .iter()
        .filter(|l| !l.queue.is_empty())
        .map(|l| (l.protocol, l.from_node, l.to_node))
        .collect();
    assert_eq!(queued, vec![(RELAY, a, b), (RELAY, a, c)]);
    let delivered = net.poll();
    assert_eq!(delivered.len(), 2);
    assert!(delivered.iter().all(|d| d.protocol == RELAY && d.data == vec![42u8]));
}

#[test]
fn connect_hands_out_fresh_indices() {
    let mut net = TestNetwork::new();
    let a = net.add_node();
    let b = net.add_node();
    let c = net.add_node();
    assert_eq!(net.connect(a, b, RELAY), Some((0, 0)));
    assert_eq!(net.connect(a, c, RELAY), Some((1, 0)));
    assert_eq!(net.connect(c, b, SYNC), Some((1, 1)));
    assert_eq!(net.connect(a, a, RELAY), None);
    assert_eq!(net.connect(a, 5, RELAY), None);
    assert_eq!(net.peer_counts, vec![2, 2, 2]);
}

#[test]
fn frames_for_unknown_protocol_are_dropped() {
    let mut net = TestNetwork::new();
    let a = net.add_node();
    let b = net.add_node();
    let (b_at_a, _) = net.connect(a, b, SYNC).unwrap();
    assert!(net.send(a, SYNC, b_at_a, vec![5]).is_some());
    assert!(net.send(a, RELAY, b_at_a, vec![5]).is_none());
    let delivered = net.poll();
    assert_eq!(delivered.len(), 1);
    assert!(net.links.iter().all(|l| l.queue.is_empty()));
}

#[test]
fn shared_error_kinds() {
    let e = SharedError::InvalidTransaction("bad".to_string());
    assert_eq!(e.clone(), e);
    assert_ne!(SharedError::DB("closed".to_string()), SharedError::DB("busy".to_string()));
    assert_eq!(SharedError::InvalidInput, SharedError::InvalidInput.clone());
}

#[test]
fn deduplication_through_mixed_requests() {
    let mut relayer = Relayer::new(pool_with(&[(1, &[10])]));
    let mut nc = relay_context(&[0, 1, 2]);
    let frames = [
        (2usize, request_frame(&[id(1), id(6)])),
        (0usize, request_frame(&[id(6)])),
        (1usize, request_frame(&[id(5), id(6), id(1)])),
    ];
    for (peer, frame) in frames.iter() {
        let r = GetBlockProposalProcess::new(frame, *peer).execute(&mut relayer, &mut nc);
        assert_eq!(r, Ok(()));
    }
    assert_eq!(sorted(relayer.pending_proposals_request().waiters(&id(6))), vec![0, 1, 2]);
    assert_eq!(relayer.pending_proposals_request().waiters(&id(5)), vec![1]);
    assert!(!relayer.pending_proposals_request().contains(&id(1)));
    assert_eq!(nc.outbox.len(), 3);
}
