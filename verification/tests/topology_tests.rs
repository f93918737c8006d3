use chainsim::topology::Topology;
use chainsim::types::{ChainSpec, Channel, SimError};

fn spec(id: u64, is_relay: bool) -> ChainSpec {
    ChainSpec { id, is_relay, genesis: Vec::new() }
}

#[test]
fn builds_relay_and_two_paras() {
    let t = Topology::build(&vec![spec(0, true), spec(1, false), spec(2, false)]).unwrap();
    assert_eq!(t.chain_ids(), vec![0, 1, 2]);
    assert!(t.contains(0));
    assert!(t.contains(1));
    assert!(t.contains(2));
    assert!(!t.contains(3));
    assert!(t.contains_para(1));
    assert!(!t.contains_para(0));
}

#[test]
fn para_ids_are_sorted_whatever_the_entry_order() {
    let t = Topology::build(&vec![spec(7, false), spec(0, true), spec(2, false), spec(5, false)])
        .unwrap();
    assert_eq!(t.chain_ids(), vec![0, 2, 5, 7]);
}

#[test]
fn duplicate_id_is_refused() {
    let r = Topology::build(&vec![spec(0, true), spec(1, false), spec(1, false)]);
    assert_eq!(r.unwrap_err(), SimError::InvalidTopology);
}

#[test]
fn empty_entry_list_is_refused() {
    let r = Topology::build(&Vec::new());
    assert_eq!(r.unwrap_err(), SimError::InvalidTopology);
}

#[test]
fn missing_relay_is_refused() {
    let r = Topology::build(&vec![spec(1, false), spec(2, false)]);
    assert_eq!(r.unwrap_err(), SimError::InvalidTopology);
}

#[test]
fn second_relay_is_refused() {
    let r = Topology::build(&vec![spec(0, true), spec(0, true), spec(1, false)]);
    assert_eq!(r.unwrap_err(), SimError::InvalidTopology);
}

#[test]
fn relay_with_nonzero_id_is_refused() {
    let r = Topology::build(&vec![spec(3, true), spec(1, false)]);
    assert_eq!(r.unwrap_err(), SimError::InvalidTopology);
}

#[test]
fn para_with_reserved_id_is_refused() {
    let r = Topology::build(&vec![spec(0, true), spec(0, false)]);
    assert_eq!(r.unwrap_err(), SimError::InvalidTopology);
}

#[test]
fn route_rules_follow_the_channel_kinds() {
    let t = Topology::build(&vec![spec(0, true), spec(1, false), spec(2, false)]).unwrap();
    // downward: relay to para only
    assert!(t.is_valid_route(0, 1, Channel::Downward));
    assert!(t.is_valid_route(0, 2, Channel::Downward));
    assert!(!t.is_valid_route(1, 2, Channel::Downward));
    assert!(!t.is_valid_route(0, 0, Channel::Downward));
    assert!(!t.is_valid_route(0, 3, Channel::Downward));
    // upward: para to relay only
    assert!(t.is_valid_route(1, 0, Channel::Upward));
    assert!(!t.is_valid_route(0, 1, Channel::Upward));
    assert!(!t.is_valid_route(1, 2, Channel::Upward));
    // horizontal: between two distinct registered paras only
    assert!(t.is_valid_route(1, 2, Channel::Horizontal));
    assert!(t.is_valid_route(2, 1, Channel::Horizontal));
    assert!(!t.is_valid_route(0, 1, Channel::Horizontal));
    assert!(!t.is_valid_route(1, 0, Channel::Horizontal));
    assert!(!t.is_valid_route(1, 1, Channel::Horizontal));
    assert!(!t.is_valid_route(1, 3, Channel::Horizontal));
}
