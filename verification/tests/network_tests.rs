use chainsim::executor::{Rule, ScriptedExecutor};
use chainsim::network::Network;
use chainsim::types::{ChainSpec, Channel, Outbound, SimError, DEFAULT_CEILING};

fn spec(id: u64, is_relay: bool, genesis: &[u8]) -> ChainSpec {
    ChainSpec { id, is_relay, genesis: genesis.to_vec() }
}

fn three_chain_net() -> Network {
    Network::build(
        vec![spec(0, true, b"relay-genesis"), spec(1, false, b"one"), spec(2, false, b"two")],
        DEFAULT_CEILING,
    )
    .unwrap()
}

fn no_rules() -> ScriptedExecutor {
    ScriptedExecutor::new(Vec::new())
}

fn send(to: u64, channel: Channel, payload: &[u8]) -> Outbound {
    Outbound { to, channel, payload: payload.to_vec() }
}

#[test]
fn build_validates_the_entry_list() {
    let r = Network::build(vec![spec(1, false, b"")], DEFAULT_CEILING);
    assert_eq!(r.err(), Some(SimError::InvalidTopology));
    let r = Network::build(vec![spec(0, true, b""), spec(0, true, b"")], DEFAULT_CEILING);
    assert_eq!(r.err(), Some(SimError::InvalidTopology));
}

#[test]
fn fresh_network_is_quiet() {
    let net = three_chain_net();
    assert!(!net.has_pending());
    assert_eq!(net.received(0, Channel::Upward).unwrap().len(), 0);
    assert_eq!(net.received(1, Channel::Downward).unwrap().len(), 0);
    assert_eq!(net.received_count(2, Channel::Horizontal).unwrap(), 0);
}

#[test]
fn received_rejects_an_unknown_chain() {
    let net = three_chain_net();
    assert_eq!(net.received(9, Channel::Upward).err(), Some(SimError::UnknownChain));
    assert_eq!(net.received_count(9, Channel::Upward).err(), Some(SimError::UnknownChain));
}

#[test]
fn execute_with_rejects_an_unknown_chain() {
    let mut net = three_chain_net();
    let ex = no_rules();
    let r = net.execute_with(9, |st| (st, Vec::<Outbound>::new(), ()), &ex);
    assert_eq!(r.err(), Some(SimError::UnknownChain));
}

#[test]
fn closure_sees_the_genesis_state_and_may_rewrite_it() {
    let mut net = three_chain_net();
    let ex = no_rules();
    let seen = net
        .execute_with(1, |st| (b"rewritten".to_vec(), Vec::<Outbound>::new(), st), &ex)
        .unwrap();
    assert_eq!(seen, b"one".to_vec());
    let seen = net
        .execute_with(1, |st| (st.clone(), Vec::<Outbound>::new(), st), &ex)
        .unwrap();
    assert_eq!(seen, b"rewritten".to_vec());
}

#[test]
fn upward_message_is_absorbed_by_the_relay() {
    let mut net = three_chain_net();
    let ex = no_rules();
    net.execute_with(1, |st| (st, vec![send(0, Channel::Upward, b"ping")], ()), &ex).unwrap();
    let got = net.received(0, Channel::Upward).unwrap();
    assert_eq!(got.len(), 1);
    assert_eq!(got[0].from, 1);
    assert_eq!(got[0].to, 0);
    assert_eq!(got[0].channel, Channel::Upward);
    assert_eq!(got[0].payload, b"ping".to_vec());
    assert_eq!(got[0].seq, 0);
    assert!(!net.has_pending());
}

#[test]
fn downward_message_is_absorbed_by_the_parachain() {
    let mut net = three_chain_net();
    let ex = no_rules();
    net.execute_with(0, |st| (st, vec![send(2, Channel::Downward, b"hello")], ()), &ex).unwrap();
    let got = net.received(2, Channel::Downward).unwrap();
    assert_eq!(got.len(), 1);
    assert_eq!(got[0].payload, b"hello".to_vec());
    assert_eq!(net.received(1, Channel::Downward).unwrap().len(), 0);
}

#[test]
fn horizontal_message_crosses_between_parachains() {
    let mut net = three_chain_net();
    let ex = no_rules();
    net.execute_with(1, |st| (st, vec![send(2, Channel::Horizontal, b"sideways")], ()), &ex)
        .unwrap();
    let got = net.received(2, Channel::Horizontal).unwrap();
    assert_eq!(got.len(), 1);
    assert_eq!(got[0].from, 1);
    assert_eq!(got[0].payload, b"sideways".to_vec());
}

// Routing invariant: a horizontal enqueue touching the relay on either
// end fails with InvalidRoute.
#[test]
fn horizontal_to_the_relay_is_an_invalid_route() {
    let mut net = three_chain_net();
    let ex = no_rules();
    let r = net.execute_with(1, |st| (st, vec![send(0, Channel::Horizontal, b"x")], ()), &ex);
    assert_eq!(r.err(), Some(SimError::InvalidRoute));
}

#[test]
fn horizontal_from_the_relay_is_an_invalid_route() {
    let mut net = three_chain_net();
    let r = net.enqueue(0, send(1, Channel::Horizontal, b"x"));
    assert_eq!(r.err(), Some(SimError::InvalidRoute));
}

// A horizontal self-route fails with InvalidRoute.
#[test]
fn horizontal_self_route_is_an_invalid_route() {
    let mut net = three_chain_net();
    let ex = no_rules();
    let r = net.execute_with(1, |st| (st, vec![send(1, Channel::Horizontal, b"loop")], ()), &ex);
    assert_eq!(r.err(), Some(SimError::InvalidRoute));
}

#[test]
fn upward_from_the_relay_is_an_invalid_route() {
    let mut net = three_chain_net();
    let r = net.enqueue(0, send(1, Channel::Upward, b"x"));
    assert_eq!(r.err(), Some(SimError::InvalidRoute));
}

// Ordering: two messages sent in one scope arrive in send order with
// strictly increasing sequence numbers.
#[test]
fn two_sends_in_one_scope_arrive_in_order() {
    let mut net = three_chain_net();
    let ex = no_rules();
    net.execute_with(
        1,
        |st| {
            (
                st,
                vec![send(0, Channel::Upward, b"first"), send(0, Channel::Upward, b"second")],
                (),
            )
        },
        &ex,
    )
    .unwrap();
    let got = net.received(0, Channel::Upward).unwrap();
    assert_eq!(got.len(), 2);
    assert_eq!(got[0].payload, b"first".to_vec());
    assert_eq!(got[1].payload, b"second".to_vec());
    assert!(got[0].seq < got[1].seq);
}

#[test]
fn sequence_numbers_grow_across_scopes() {
    let mut net = three_chain_net();
    let ex = no_rules();
    for _ in 0..3 {
        net.execute_with(1, |st| (st, vec![send(0, Channel::Upward, b"tick")], ()), &ex).unwrap();
    }
    let got = net.received(0, Channel::Upward).unwrap();
    assert_eq!(got.len(), 3);
    assert_eq!(got[0].seq, 0);
    assert_eq!(got[1].seq, 1);
    assert_eq!(got[2].seq, 2);
}

// Idempotence: resetting twice leaves the same observable state as
// resetting once.
#[test]
fn reset_is_idempotent() {
    let mut net = three_chain_net();
    let ex = no_rules();
    net.execute_with(1, |st| (b"dirty".to_vec(), vec![send(0, Channel::Upward, b"m")], ()), &ex)
        .unwrap();
    net.reset();
    let once_recv = net.received(0, Channel::Upward).unwrap().clone();
    let once_pending = net.has_pending();
    let once_state = net
        .execute_with(1, |st| (st.clone(), Vec::<Outbound>::new(), st), &no_rules())
        .unwrap();
    net.reset();
    net.reset();
    let twice_recv = net.received(0, Channel::Upward).unwrap().clone();
    let twice_pending = net.has_pending();
    let twice_state = net
        .execute_with(1, |st| (st.clone(), Vec::<Outbound>::new(), st), &no_rules())
        .unwrap();
    assert_eq!(once_recv, twice_recv);
    assert_eq!(once_recv.len(), 0);
    assert_eq!(once_pending, twice_pending);
    assert_eq!(once_state, twice_state);
    assert_eq!(once_state, b"one".to_vec());
}

// Determinism: two independently built identical networks, fed the
// same calls, report identical received sequences.
#[test]
fn identical_runs_are_deterministic() {
    let rules = vec![Rule {
        chain: 0,
        trigger: b"ask".to_vec(),
        emit: vec![send(1, Channel::Downward, b"answer")],
    }];
    let mut outcomes = Vec::new();
    for _ in 0..2 {
        let mut net = three_chain_net();
        let ex = ScriptedExecutor::new(
            rules
                .iter()
                .map(|r| Rule {
                    chain: r.chain,
                    trigger: r.trigger.clone(),
                    emit: r.emit.clone(),
                })
                .collect(),
        );
        net.execute_with(1, |st| (st, vec![send(0, Channel::Upward, b"ask")], ()), &ex).unwrap();
        net.execute_with(2, |st| (st, vec![send(1, Channel::Horizontal, b"hi")], ()), &ex)
            .unwrap();
        outcomes.push((
            net.received(0, Channel::Upward).unwrap().clone(),
            net.received(1, Channel::Downward).unwrap().clone(),
            net.received(1, Channel::Horizontal).unwrap().clone(),
        ));
    }
    assert_eq!(outcomes[0], outcomes[1]);
}

// Routing that references an id absent from the topology fails with
// UnknownChain, not InvalidRoute.
#[test]
fn send_to_an_unregistered_chain_is_unknown() {
    let mut net = three_chain_net();
    let r = net.enqueue(1, send(9, Channel::Horizontal, b"x"));
    assert_eq!(r.err(), Some(SimError::UnknownChain));
    let r = net.enqueue(0, send(9, Channel::Downward, b"x"));
    assert_eq!(r.err(), Some(SimError::UnknownChain));
}

#[test]
fn send_from_an_unregistered_chain_is_unknown() {
    let mut net = three_chain_net();
    let r = net.enqueue(9, send(0, Channel::Upward, b"x"));
    assert_eq!(r.err(), Some(SimError::UnknownChain));
    let ex = no_rules();
    let r = net.execute_with(1, |st| (st, vec![send(9, Channel::Upward, b"x")], ()), &ex);
    assert_eq!(r.err(), Some(SimError::UnknownChain));
}
