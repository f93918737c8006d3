use chainsim::executor::{Executor, Rule, ScriptedExecutor};
use chainsim::network::Network;
use chainsim::types::{ChainSpec, Channel, Message, Outbound, SimError, DEFAULT_CEILING};

fn spec(id: u64, is_relay: bool) -> ChainSpec {
    ChainSpec { id, is_relay, genesis: Vec::new() }
}

fn net_with_ceiling(ceiling: u64) -> Network {
    Network::build(vec![spec(0, true), spec(1, false), spec(2, false)], ceiling).unwrap()
}

fn send(to: u64, channel: Channel, payload: &[u8]) -> Outbound {
    Outbound { to, channel, payload: payload.to_vec() }
}

#[test]
fn scripted_executor_fires_the_first_matching_rule() {
    let ex = ScriptedExecutor::new(vec![
        Rule { chain: 1, trigger: b"go".to_vec(), emit: vec![send(0, Channel::Upward, b"a")] },
        Rule { chain: 1, trigger: b"go".to_vec(), emit: vec![send(0, Channel::Upward, b"b")] },
        Rule { chain: 2, trigger: b"go".to_vec(), emit: vec![send(0, Channel::Upward, b"c")] },
    ]);
    let out = ex.respond_payload(1, &b"go".to_vec());
    assert_eq!(out.len(), 1);
    assert_eq!(out[0].payload, b"a".to_vec());
    let out = ex.respond_payload(2, &b"go".to_vec());
    assert_eq!(out[0].payload, b"c".to_vec());
    assert_eq!(ex.respond_payload(1, &b"other".to_vec()).len(), 0);
    assert_eq!(ex.respond_payload(9, &b"go".to_vec()).len(), 0);
}

#[test]
fn scripted_executor_answers_each_message_of_a_batch_in_order() {
    let ex = ScriptedExecutor::new(vec![
        Rule { chain: 0, trigger: b"x".to_vec(), emit: vec![send(1, Channel::Downward, b"rx")] },
        Rule { chain: 0, trigger: b"y".to_vec(), emit: vec![send(2, Channel::Downward, b"ry")] },
    ]);
    let batch = vec![
        Message { from: 1, to: 0, channel: Channel::Upward, payload: b"y".to_vec(), seq: 0 },
        Message { from: 2, to: 0, channel: Channel::Upward, payload: b"x".to_vec(), seq: 0 },
    ];
    let out = ex.respond_seq(0, &batch);
    assert_eq!(out.len(), 2);
    assert_eq!(out[0].payload, b"ry".to_vec());
    assert_eq!(out[1].payload, b"rx".to_vec());
}

// End-to-end scenario: a parachain reports an amount to
// the relay, and in the same drain the relay acknowledges back with a
// delivery notice, each absorbed on its own channel.  (The amount
// travels para-to-relay, which the topology names the upward channel;
// the acknowledgement travels relay-to-para on the downward channel.)
#[test]
fn amount_and_delivery_acknowledgement_round_trip() {
    let mut net = net_with_ceiling(DEFAULT_CEILING);
    let ex = ScriptedExecutor::new(vec![Rule {
        chain: 0,
        trigger: b"amount:10".to_vec(),
        emit: vec![send(1, Channel::Downward, b"delivered:10")],
    }]);
    net.execute_with(1, |st| (st, vec![send(0, Channel::Upward, b"amount:10")], ()), &ex)
        .unwrap();
    let relay_got = net.received(0, Channel::Upward).unwrap();
    assert_eq!(relay_got.len(), 1);
    assert_eq!(relay_got[0].payload, b"amount:10".to_vec());
    let para_got = net.received(1, Channel::Downward).unwrap();
    assert_eq!(para_got.len(), 1);
    assert_eq!(para_got[0].payload, b"delivered:10".to_vec());
    assert!(!net.has_pending());
}

// Convergence, the good half: a forwarding chain strictly shrinks the
// in-flight count every round and drains well within the ceiling.
#[test]
fn forwarding_chain_converges() {
    let mut net = net_with_ceiling(DEFAULT_CEILING);
    let ex = ScriptedExecutor::new(vec![
        Rule {
            chain: 1,
            trigger: b"hop".to_vec(),
            emit: vec![send(2, Channel::Horizontal, b"done")],
        },
    ]);
    net.execute_with(0, |st| (st, vec![send(1, Channel::Downward, b"hop")], ()), &ex).unwrap();
    assert_eq!(net.received(1, Channel::Downward).unwrap().len(), 1);
    assert_eq!(net.received(2, Channel::Horizontal).unwrap().len(), 1);
    assert!(!net.has_pending());
}

// Convergence, the bad half: two chains that bounce one message back
// and forth forever must fail with DeliveryDidNotConverge.
#[test]
fn endless_ping_pong_does_not_converge() {
    let mut net = net_with_ceiling(DEFAULT_CEILING);
    let ex = ScriptedExecutor::new(vec![
        Rule {
            chain: 1,
            trigger: b"ball".to_vec(),
            emit: vec![send(2, Channel::Horizontal, b"ball")],
        },
        Rule {
            chain: 2,
            trigger: b"ball".to_vec(),
            emit: vec![send(1, Channel::Horizontal, b"ball")],
        },
    ]);
    let r = net.execute_with(1, |st| (st, vec![send(2, Channel::Horizontal, b"ball")], ()), &ex);
    assert_eq!(r.err(), Some(SimError::DeliveryDidNotConverge));
    // the unconsumed queue state stays inspectable
    assert!(net.has_pending());
}

#[test]
fn ceiling_zero_fails_as_soon_as_anything_is_pending() {
    let mut net = net_with_ceiling(0);
    let ex = ScriptedExecutor::new(Vec::new());
    let r = net.execute_with(1, |st| (st, vec![send(0, Channel::Upward, b"m")], ()), &ex);
    assert_eq!(r.err(), Some(SimError::DeliveryDidNotConverge));
    // the undelivered message stays pending for diagnosis
    assert!(net.has_pending());
    // a scope that sends nothing has nothing to drain and succeeds
    let mut quiet = net_with_ceiling(0);
    let r = quiet.execute_with(2, |st| (st, Vec::<Outbound>::new(), ()), &ex);
    assert!(r.is_ok());
}

#[test]
fn executor_emitting_an_invalid_route_aborts_the_drain() {
    let mut net = net_with_ceiling(DEFAULT_CEILING);
    let ex = ScriptedExecutor::new(vec![Rule {
        chain: 1,
        trigger: b"bad".to_vec(),
        emit: vec![send(0, Channel::Horizontal, b"oops")],
    }]);
    let r = net.execute_with(0, |st| (st, vec![send(1, Channel::Downward, b"bad")], ()), &ex);
    assert_eq!(r.err(), Some(SimError::InvalidRoute));
}

#[test]
fn relay_only_network_works() {
    let mut net = Network::build(vec![spec(0, true)], DEFAULT_CEILING).unwrap();
    let ex = ScriptedExecutor::new(Vec::new());
    let r = net.execute_with(0, |st| (st, Vec::<Outbound>::new(), 7u32), &ex);
    assert_eq!(r.unwrap(), 7u32);
    assert!(!net.has_pending());
}

#[test]
fn enqueue_then_drain_delivers() {
    let mut net = net_with_ceiling(DEFAULT_CEILING);
    let ex = ScriptedExecutor::new(Vec::new());
    net.enqueue(1, send(0, Channel::Upward, b"queued")).unwrap();
    assert!(net.has_pending());
    assert_eq!(net.received(0, Channel::Upward).unwrap().len(), 0);
    net.drain(&ex).unwrap();
    assert!(!net.has_pending());
    assert_eq!(net.received(0, Channel::Upward).unwrap().len(), 1);
}

// An executor implemented outside the library, driven through the
// generic dispatch entry point.
struct Acknowledger {
    seen: usize,
}

impl Executor for Acknowledger {
    fn execute(
        &mut self,
        chain: u64,
        state: &mut Vec<u8>,
        _downward: &Vec<Message>,
        upward: &Vec<Message>,
        _horizontal: &Vec<Message>,
    ) -> Vec<Outbound> {
        let mut out = Vec::new();
        if chain == 0 {
            for m in upward {
                self.seen += 1;
                state.push(1);
                out.push(Outbound {
                    to: m.from,
                    channel: Channel::Downward,
                    payload: b"ack".to_vec(),
                });
            }
        }
        out
    }
}

#[test]
fn a_custom_executor_can_drive_the_generic_drain() {
    let mut net = net_with_ceiling(DEFAULT_CEILING);
    let mut ex = Acknowledger { seen: 0 };
    net.enqueue(1, send(0, Channel::Upward, b"one")).unwrap();
    net.enqueue(2, send(0, Channel::Upward, b"two")).unwrap();
    net.drain_with(&mut ex).unwrap();
    assert_eq!(ex.seen, 2);
    assert_eq!(net.received(0, Channel::Upward).unwrap().len(), 2);
    assert_eq!(net.received(1, Channel::Downward).unwrap().len(), 1);
    assert_eq!(net.received(1, Channel::Downward).unwrap()[0].payload, b"ack".to_vec());
    assert_eq!(net.received(2, Channel::Downward).unwrap().len(), 1);
    assert!(!net.has_pending());
}

#[test]
fn execute_sends_delivers_without_a_closure() {
    let mut net = net_with_ceiling(DEFAULT_CEILING);
    let ex = ScriptedExecutor::new(vec![Rule {
        chain: 0,
        trigger: b"amount:10".to_vec(),
        emit: vec![send(1, Channel::Downward, b"delivered:10")],
    }]);
    net.execute_sends(1, vec![send(0, Channel::Upward, b"amount:10")], &ex).unwrap();
    assert_eq!(net.received(0, Channel::Upward).unwrap()[0].payload, b"amount:10".to_vec());
    assert_eq!(net.received(1, Channel::Downward).unwrap()[0].payload, b"delivered:10".to_vec());
    let r = net.execute_sends(9, Vec::new(), &ex);
    assert_eq!(r.err(), Some(SimError::UnknownChain));
}

#[test]
fn sequence_exhaustion_is_reported() {
    // force the sender's upward counter to its last value, then send twice
    let mut net = net_with_ceiling(DEFAULT_CEILING);
    net.chains[1].seq_up = u64::MAX - 1;
    net.enqueue(1, send(0, Channel::Upward, b"almost")).unwrap();
    let r = net.enqueue(1, send(0, Channel::Upward, b"over"));
    assert_eq!(r.err(), Some(SimError::SequenceExhausted));
}

#[test]
fn executor_emitting_to_an_unregistered_chain_aborts_the_drain() {
    let mut net = net_with_ceiling(DEFAULT_CEILING);
    let ex = ScriptedExecutor::new(vec![Rule {
        chain: 1,
        trigger: b"spray".to_vec(),
        emit: vec![send(9, Channel::Horizontal, b"oops")],
    }]);
    let r = net.execute_with(0, |st| (st, vec![send(1, Channel::Downward, b"spray")], ()), &ex);
    assert_eq!(r.err(), Some(SimError::UnknownChain));
}

#[test]
fn a_quiet_network_drains_without_change() {
    let mut net = net_with_ceiling(0);
    let mut ex = Acknowledger { seen: 0 };
    net.drain_with(&mut ex).unwrap();
    assert_eq!(ex.seen, 0);
    assert!(!net.has_pending());
    assert_eq!(net.received_count(0, Channel::Upward).unwrap(), 0);
}
