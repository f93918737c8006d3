//! Plain data carried by the simulator: channel kinds, messages, outbound
//! send requests, per-chain construction entries, and the error taxonomy.
//!
//! Each executable type has a mathematical view (`...View`) over `int` and
//! `Seq`, which is what every contract in the crate speaks about.

use vstd::prelude::*;

verus! {

/// The three channel kinds, disambiguated by direction relative to the
/// relay chain: downward is relay-to-parachain, upward is
/// parachain-to-relay, horizontal is parachain-to-parachain.
#[derive(Clone, Copy, Debug, PartialEq, Eq, Structural)]
pub enum Channel {
    Downward,
    Upward,
    Horizontal,
}

/// Everything that can go wrong inside the simulator core.  All of these
/// abort the current harness call; none is silently swallowed.
#[derive(Clone, Copy, Debug, PartialEq, Eq, Structural)]
pub enum SimError {
    /// A message's channel and direction break the routing rules,
    /// though both endpoints are members of the topology.
    InvalidRoute,
    /// The drain loop hit its iteration ceiling before the queues emptied.
    DeliveryDidNotConverge,
    /// An activation or a route referenced a chain id absent from the
    /// topology.
    UnknownChain,
    /// The construction entry list designates no relay chain, designates
    /// two, misuses the reserved relay id, or repeats an id.
    InvalidTopology,
    /// A sender exhausted the sequence-number space of one channel.
    SequenceExhausted,
}

/// One in-flight (or already delivered) cross-chain message.  Immutable
/// once stamped; `seq` is assigned by the network from the sender's
/// per-channel counter and strictly increases per `(from, channel)`.
#[derive(Clone, Debug, PartialEq, Eq)]
pub struct Message {
    pub from: u64,
    pub to: u64,
    pub channel: Channel,
    pub payload: Vec<u8>,
    pub seq: u64,
}

/// Mathematical view of a [`Message`].
#[verifier::ext_equal]
pub struct MessageView {
    pub from: int,
    pub to: int,
    pub channel: Channel,
    pub payload: Seq<u8>,
    pub seq: int,
}

impl View for Message {
    type V = MessageView;

    open spec fn view(&self) -> MessageView {
        MessageView {
            from: self.from as int,
            to: self.to as int,
            channel: self.channel,
            payload: self.payload@,
            seq: self.seq as int,
        }
    }
}

/// A send request: what an executor (or test code inside an
/// `execute_with` scope) emits.  The network stamps the sender id and the
/// sequence number when the request is enqueued.
#[derive(Clone, Debug, PartialEq, Eq)]
pub struct Outbound {
    pub to: u64,
    pub channel: Channel,
    pub payload: Vec<u8>,
}

/// Mathematical view of an [`Outbound`].
#[verifier::ext_equal]
pub struct OutboundView {
    pub to: int,
    pub channel: Channel,
    pub payload: Seq<u8>,
}

impl View for Outbound {
    type V = OutboundView;

    open spec fn view(&self) -> OutboundView {
        OutboundView { to: self.to as int, channel: self.channel, payload: self.payload@ }
    }
}

/// One entry of the construction list: a chain id, whether this entry
/// designates the relay chain, and the genesis value of the chain's
/// opaque state handle.
#[derive(Clone, Debug)]
pub struct ChainSpec {
    pub id: u64,
    pub is_relay: bool,
    pub genesis: Vec<u8>,
}

/// Mathematical view of a [`ChainSpec`].
#[verifier::ext_equal]
pub struct ChainSpecView {
    pub id: int,
    pub is_relay: bool,
    pub genesis: Seq<u8>,
}

impl View for ChainSpec {
    type V = ChainSpecView;

    open spec fn view(&self) -> ChainSpecView {
        ChainSpecView { id: self.id as int, is_relay: self.is_relay, genesis: self.genesis@ }
    }
}

/// Copies a byte vector; the copy has the same view.
pub fn copy_bytes(v: &Vec<u8>) -> (r: Vec<u8>)
    ensures
        r@ == v@,
{
    let r = v.clone();
    proof {
        assert forall|i: int| 0 <= i < v@.len() implies r@[i] == v@[i] by {
            assert(cloned::<u8>(v[i], r[i]));
        }
        assert(v@ =~= r@);
    }
    r
}

/// Copies one send request; the copy has the same view.
pub fn copy_outbound(o: &Outbound) -> (r: Outbound)
    ensures
        r@ == o@,
{
    Outbound { to: o.to, channel: o.channel, payload: copy_bytes(&o.payload) }
}

/// The chain id reserved for the relay chain.
pub const RELAY_ID: u64 = 0;

/// The default ceiling on drain rounds before the dispatcher gives up
/// with [`SimError::DeliveryDidNotConverge`].
pub const DEFAULT_CEILING: u64 = 64;

} // verus!
