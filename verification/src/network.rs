//! The network object: one chain context per member chain, the topology,
//! and the queue operations (enqueue with route validation and sequence
//! stamping, reset to genesis, read-only access to absorbed messages).
//!
//! Every operation is specified as a function of the network's
//! mathematical view ([`NetworkView`]), which is what the dispatcher and
//! the proved laws build on.

use crate::seq_util::{lemma_map_values_push, lemma_map_values_update};
use crate::topology::{specs_valid, Topology, TopologyView};
use crate::types::{copy_bytes, ChainSpec, Channel, Message, MessageView, Outbound, OutboundView, SimError};
use vstd::pervasive::VecAdditionalExecFns;
use vstd::prelude::*;

verus! {

/// One isolated execution environment: a chain id, the genesis value of
/// the opaque state handle, the current handle, one inbox per channel,
/// the log of absorbed messages per channel, and one sequence counter
/// per channel for the messages this chain sends.
pub struct ChainContext {
    pub id: u64,
    pub genesis: Vec<u8>,
    pub state: Vec<u8>,
    pub inbox_down: Vec<Message>,
    pub inbox_up: Vec<Message>,
    pub inbox_horiz: Vec<Message>,
    pub recv_down: Vec<Message>,
    pub recv_up: Vec<Message>,
    pub recv_horiz: Vec<Message>,
    pub seq_down: u64,
    pub seq_up: u64,
    pub seq_horiz: u64,
}

/// Mathematical view of a [`ChainContext`].
#[verifier::ext_equal]
pub struct ChainView {
    pub id: int,
    pub genesis: Seq<u8>,
    pub state: Seq<u8>,
    pub inbox_down: Seq<MessageView>,
    pub inbox_up: Seq<MessageView>,
    pub inbox_horiz: Seq<MessageView>,
    pub recv_down: Seq<MessageView>,
    pub recv_up: Seq<MessageView>,
    pub recv_horiz: Seq<MessageView>,
    pub seq_down: int,
    pub seq_up: int,
    pub seq_horiz: int,
}

impl View for ChainContext {
    type V = ChainView;

    open spec fn view(&self) -> ChainView {
        ChainView {
            id: self.id as int,
            genesis: self.genesis@,
            state: self.state@,
            inbox_down: self.inbox_down@.map_values(|m: Message| m@),
            inbox_up: self.inbox_up@.map_values(|m: Message| m@),
            inbox_horiz: self.inbox_horiz@.map_values(|m: Message| m@),
            recv_down: self.recv_down@.map_values(|m: Message| m@),
            recv_up: self.recv_up@.map_values(|m: Message| m@),
            recv_horiz: self.recv_horiz@.map_values(|m: Message| m@),
            seq_down: self.seq_down as int,
            seq_up: self.seq_up as int,
            seq_horiz: self.seq_horiz as int,
        }
    }
}

/// Is `m` a message this chain may hold on channel `ch`: addressed to
/// this chain, tagged with that channel, and admitted by the topology?
pub open spec fn msg_ok(t: TopologyView, to: int, ch: Channel, m: MessageView) -> bool {
    &&& m.to == to
    &&& m.channel == ch
    &&& t.route_ok(m.from, m.to, ch)
}

impl ChainView {
    /// The inbox of one channel.
    pub open spec fn inbox(self, ch: Channel) -> Seq<MessageView> {
        match ch {
            Channel::Downward => self.inbox_down,
            Channel::Upward => self.inbox_up,
            Channel::Horizontal => self.inbox_horiz,
        }
    }

    /// The absorbed-message log of one channel.
    pub open spec fn recv(self, ch: Channel) -> Seq<MessageView> {
        match ch {
            Channel::Downward => self.recv_down,
            Channel::Upward => self.recv_up,
            Channel::Horizontal => self.recv_horiz,
        }
    }

    /// The sequence counter this chain stamps its next send on `ch` with.
    pub open spec fn seq_no(self, ch: Channel) -> int {
        match ch {
            Channel::Downward => self.seq_down,
            Channel::Upward => self.seq_up,
            Channel::Horizontal => self.seq_horiz,
        }
    }

    /// How many messages are waiting in this chain's inboxes.
    pub open spec fn pending(self) -> nat {
        self.inbox_down.len() + self.inbox_up.len() + self.inbox_horiz.len()
    }

    /// This chain with one message appended to the inbox of `ch`.
    pub open spec fn with_inbox_push(self, ch: Channel, m: MessageView) -> ChainView {
        match ch {
            Channel::Downward => ChainView { inbox_down: self.inbox_down.push(m), ..self },
            Channel::Upward => ChainView { inbox_up: self.inbox_up.push(m), ..self },
            Channel::Horizontal => ChainView { inbox_horiz: self.inbox_horiz.push(m), ..self },
        }
    }

    /// This chain with the sequence counter of `ch` advanced by one.
    pub open spec fn with_seq_bump(self, ch: Channel) -> ChainView {
        match ch {
            Channel::Downward => ChainView { seq_down: self.seq_down + 1, ..self },
            Channel::Upward => ChainView { seq_up: self.seq_up + 1, ..self },
            Channel::Horizontal => ChainView { seq_horiz: self.seq_horiz + 1, ..self },
        }
    }

    /// This chain after one delivery: every inbox emptied into the
    /// matching absorbed-message log.
    pub open spec fn delivered(self) -> ChainView {
        ChainView {
            inbox_down: Seq::empty(),
            inbox_up: Seq::empty(),
            inbox_horiz: Seq::empty(),
            recv_down: self.recv_down + self.inbox_down,
            recv_up: self.recv_up + self.inbox_up,
            recv_horiz: self.recv_horiz + self.inbox_horiz,
            ..self
        }
    }

    /// This chain restored to its genesis snapshot: state back to
    /// genesis, queues and logs cleared, counters zeroed.
    pub open spec fn reset(self) -> ChainView {
        ChainView {
            state: self.genesis,
            inbox_down: Seq::empty(),
            inbox_up: Seq::empty(),
            inbox_horiz: Seq::empty(),
            recv_down: Seq::empty(),
            recv_up: Seq::empty(),
            recv_horiz: Seq::empty(),
            seq_down: 0,
            seq_up: 0,
            seq_horiz: 0,
            ..self
        }
    }

    /// A chain as network construction creates it.
    pub open spec fn fresh(id: int, genesis: Seq<u8>) -> ChainView {
        ChainView {
            id: id,
            genesis: genesis,
            state: genesis,
            inbox_down: Seq::empty(),
            inbox_up: Seq::empty(),
            inbox_horiz: Seq::empty(),
            recv_down: Seq::empty(),
            recv_up: Seq::empty(),
            recv_horiz: Seq::empty(),
            seq_down: 0,
            seq_up: 0,
            seq_horiz: 0,
        }
    }

    /// Every message this chain holds respects the topology.
    pub open spec fn msgs_ok(self, t: TopologyView) -> bool {
        &&& forall|ch: Channel, k: int|
            0 <= k < self.inbox(ch).len() ==> msg_ok(t, self.id, ch, #[trigger] self.inbox(ch)[k])
        &&& forall|ch: Channel, k: int|
            0 <= k < self.recv(ch).len() ==> msg_ok(t, self.id, ch, #[trigger] self.recv(ch)[k])
    }
}

/// The network: the topology, one chain context per member chain in
/// dispatch order (relay first, then parachains by ascending id), and
/// the ceiling on drain rounds.
pub struct Network {
    pub topology: Topology,
    pub chains: Vec<ChainContext>,
    pub ceiling: u64,
}

/// Mathematical view of a [`Network`].
#[verifier::ext_equal]
pub struct NetworkView {
    pub topo: TopologyView,
    pub chains: Seq<ChainView>,
    pub ceiling: int,
}

impl View for Network {
    type V = NetworkView;

    open spec fn view(&self) -> NetworkView {
        NetworkView {
            topo: self.topology@,
            chains: self.chains@.map_values(|c: ChainContext| c@),
            ceiling: self.ceiling as int,
        }
    }
}

/// Total number of messages waiting in the inboxes of `chains`.
pub open spec fn pending_sum(chains: Seq<ChainView>) -> nat
    decreases chains.len(),
{
    if chains.len() == 0 {
        0
    } else {
        chains[0].pending() + pending_sum(chains.drop_first())
    }
}

impl NetworkView {
    /// Well-formedness: the topology is sound, the chain list mirrors it
    /// in dispatch order, and every queued or absorbed message respects
    /// the topology.
    pub open spec fn wf(self) -> bool {
        &&& self.topo.wf()
        &&& self.chains.len() == 1 + self.topo.paras.len()
        &&& self.chains[0].id == self.topo.relay
        &&& forall|i: int|
            0 <= i < self.topo.paras.len() ==> self.chains[i + 1].id == #[trigger] self.topo.paras[i]
        &&& forall|i: int|
            0 <= i < self.chains.len() ==> (#[trigger] self.chains[i]).msgs_ok(self.topo)
        &&& forall|i: int, ch: Channel|
            0 <= i < self.chains.len() ==> 0 <= (#[trigger] self.chains[i].seq_no(ch))
                <= u64::MAX as int
    }

    /// Is some chain of the network called `id`?
    pub open spec fn has_chain(self, id: int) -> bool {
        exists|i: int| 0 <= i < self.chains.len() && (#[trigger] self.chains[i]).id == id
    }

    /// The position of the chain called `id` in dispatch order.
    pub open spec fn idx_of(self, id: int) -> int {
        choose|i: int| 0 <= i < self.chains.len() && (#[trigger] self.chains[i]).id == id
    }

    /// Total number of in-flight messages.
    pub open spec fn pending_total(self) -> nat {
        pending_sum(self.chains)
    }

    /// The ordered log of messages chain `id` has absorbed on `ch`.
    pub open spec fn received_log(self, id: int, ch: Channel) -> Seq<MessageView> {
        self.chains[self.idx_of(id)].recv(ch)
    }

    /// The network with every chain restored to its genesis snapshot and
    /// every queue, log and counter cleared.
    pub open spec fn reset_spec(self) -> NetworkView {
        NetworkView {
            chains: Seq::new(self.chains.len(), |i: int| self.chains[i].reset()),
            ..self
        }
    }

    /// Why an enqueue of `o`, sent by `from`, would be refused; `None`
    /// if it is accepted.  An endpoint absent from the topology is
    /// `UnknownChain`; a channel or direction the topology refuses
    /// between two member chains is `InvalidRoute`.
    pub open spec fn enqueue_err(self, from: int, o: OutboundView) -> Option<SimError> {
        if !self.topo.is_member(from) || !self.topo.is_member(o.to) {
            Some(SimError::UnknownChain)
        } else if !self.topo.route_ok(from, o.to, o.channel) {
            Some(SimError::InvalidRoute)
        } else if self.chains[self.idx_of(from)].seq_no(o.channel) == u64::MAX as int {
            Some(SimError::SequenceExhausted)
        } else {
            None
        }
    }

    /// The network after an accepted enqueue: the message, stamped with
    /// the sender's counter, appended to the recipient's inbox, and the
    /// sender's counter advanced.
    pub open spec fn enqueue_ok(self, from: int, o: OutboundView) -> NetworkView {
        let fi = self.idx_of(from);
        let ti = self.idx_of(o.to);
        let m = MessageView {
            from: from,
            to: o.to,
            channel: o.channel,
            payload: o.payload,
            seq: self.chains[fi].seq_no(o.channel),
        };
        NetworkView {
            chains: self.chains.update(ti, self.chains[ti].with_inbox_push(o.channel, m)).update(
                fi,
                self.chains[fi].with_seq_bump(o.channel),
            ),
            ..self
        }
    }
}

/// Under well-formedness, chain ids are pairwise distinct.
pub proof fn lemma_wf_ids_distinct(n: NetworkView)
    requires
        n.wf(),
    ensures
        forall|i: int, j: int|
            0 <= i < n.chains.len() && 0 <= j < n.chains.len() && i != j ==> (
            #[trigger] n.chains[i]).id != (#[trigger] n.chains[j]).id,
{
    assert forall|i: int, j: int|
        0 <= i < n.chains.len() && 0 <= j < n.chains.len() && i != j implies (
    #[trigger] n.chains[i]).id != (#[trigger] n.chains[j]).id by {
        if i == 0 {
            assert(n.chains[j].id == n.topo.paras[j - 1]);
        } else if j == 0 {
            assert(n.chains[i].id == n.topo.paras[i - 1]);
        } else {
            assert(n.chains[i].id == n.topo.paras[i - 1]);
            assert(n.chains[j].id == n.topo.paras[j - 1]);
            if i < j {
                assert(n.topo.paras[i - 1] < n.topo.paras[j - 1]);
            } else {
                assert(n.topo.paras[j - 1] < n.topo.paras[i - 1]);
            }
        }
    }
}

/// Under well-formedness, the chain list and the topology agree on
/// membership.
pub proof fn lemma_member_has_chain(n: NetworkView, id: int)
    requires
        n.wf(),
    ensures
        n.has_chain(id) <==> n.topo.is_member(id),
{
    if n.topo.is_member(id) {
        if id == n.topo.relay {
            assert(n.chains[0].id == id);
        } else {
            let j = choose|j: int| 0 <= j < n.topo.paras.len() && n.topo.paras[j] == id;
            assert(n.chains[j + 1].id == id);
        }
    }
    if n.has_chain(id) {
        let i = choose|i: int|
            0 <= i < n.chains.len() && (#[trigger] n.chains[i]).id == id;
        if i == 0 {
            assert(id == n.topo.relay);
        } else {
            assert(n.chains[i].id == n.topo.paras[i - 1]);
            assert(n.topo.paras.contains(id));
        }
    }
}

/// Under well-formedness, `idx_of` is the one position of the chain
/// called `id`.
pub proof fn lemma_idx_of(n: NetworkView, id: int)
    requires
        n.wf(),
        n.has_chain(id),
    ensures
        0 <= n.idx_of(id) < n.chains.len(),
        n.chains[n.idx_of(id)].id == id,
        forall|i: int|
            0 <= i < n.chains.len() && (#[trigger] n.chains[i]).id == id ==> i == n.idx_of(id),
{
    lemma_wf_ids_distinct(n);
}

/// A pending-message total is zero exactly when every inbox is empty.
pub proof fn lemma_pending_sum_zero(chains: Seq<ChainView>)
    ensures
        pending_sum(chains) == 0 <==> forall|i: int|
            0 <= i < chains.len() ==> (#[trigger] chains[i]).pending() == 0,
    decreases chains.len(),
{
    if chains.len() > 0 {
        lemma_pending_sum_zero(chains.drop_first());
        assert forall|i: int|
            0 <= i < chains.len() && pending_sum(chains) == 0 implies (
        #[trigger] chains[i]).pending() == 0 by {
            if i > 0 {
                assert(chains.drop_first()[i - 1] == chains[i]);
            }
        }
        if forall|i: int| 0 <= i < chains.len() ==> (#[trigger] chains[i]).pending() == 0 {
            assert forall|i: int|
                0 <= i < chains.drop_first().len() implies (#[trigger] chains.drop_first()[i]).pending()
                == 0 by {
                assert(chains.drop_first()[i] == chains[i + 1]);
            }
        }
    }
}

impl Network {
    /// Builds a network from an explicit construction list: one entry
    /// per chain, exactly one of them designating the relay, plus the
    /// ceiling on drain rounds.  Every chain starts at its genesis
    /// snapshot with empty queues and zeroed counters.
    pub fn build(entries: Vec<ChainSpec>, ceiling: u64) -> (r: Result<Network, SimError>)
        ensures
            r is Ok <==> specs_valid(entries@),
            r is Err ==> r == Err::<Network, SimError>(SimError::InvalidTopology),
            r is Ok ==> (r->Ok_0)@.wf(),
            r is Ok ==> (r->Ok_0)@.ceiling == ceiling as int,
            r is Ok ==> forall|i: int|
                0 <= i < (r->Ok_0)@.chains.len() ==> exists|j: int|
                    0 <= j < entries@.len() && (#[trigger] (r->Ok_0)@.chains[i])
                        == ChainView::fresh(
                        (#[trigger] entries@[j]).id as int,
                        entries@[j].genesis@,
                    ),
            r is Ok ==> forall|j: int|
                0 <= j < entries@.len() ==> (r->Ok_0)@.has_chain((#[trigger] entries@[j]).id as int),
    {
        let topology = match Topology::build(&entries) {
            Ok(t) => t,
            Err(_) => {
                return Err(SimError::InvalidTopology);
            },
        };
        let ids = topology.chain_ids();
        let mut chains: Vec<ChainContext> = Vec::new();
        let n = ids.len();
        let mut i: usize = 0;
        while i < n
            invariant
                0 <= i <= n,
                n == ids@.len(),
                specs_valid(entries@),
                n == 1 + topology@.paras.len(),
                ids@[0] == topology.relay,
                topology@.wf(),
                forall|k: int|
                    0 <= k < topology@.paras.len() ==> ids@[k + 1] as int == #[trigger] topology@.paras[k],
                forall|x: u64|
                    topology@.is_para(x as int) <==> exists|j: int|
                        0 <= j < entries@.len() && !(#[trigger] entries@[j]).is_relay
                            && entries@[j].id == x,
                chains@.len() == i,
                forall|k: int| 0 <= k < i ==> ((#[trigger] chains@[k])@).id == ids@[k] as int,
                forall|k: int|
                    0 <= k < i ==> exists|j: int|
                        0 <= j < entries@.len() && (#[trigger] chains@[k])@ == ChainView::fresh(
                            (#[trigger] entries@[j]).id as int,
                            entries@[j].genesis@,
                        ),
            decreases n - i,
        {
            let id = ids[i];
            proof {
                if i == 0 {
                    assert(exists|j: int|
                        0 <= j < entries@.len() && (#[trigger] entries@[j]).is_relay);
                    let j = choose|j: int|
                        0 <= j < entries@.len() && (#[trigger] entries@[j]).is_relay;
                    assert(entries@[j].id == id);
                } else {
                    assert(ids@[i as int] as int == topology@.paras[i as int - 1]);
                    assert(topology@.paras.contains(id as int));
                    assert(topology@.is_para(id as int));
                }
                assert(exists|j: int|
                    0 <= j < entries@.len() && (#[trigger] entries@[j]).id == id);
            }
            let j = match find_entry(&entries, id) {
                Some(j) => j,
                None => {
                    proof {
                        let w = choose|j: int|
                            0 <= j < entries@.len() && (#[trigger] entries@[j]).id == id;
                        assert(false);
                    }
                    return Err(SimError::InvalidTopology);
                },
            };
            let genesis = copy_bytes(&entries[j].genesis);
            let state = copy_bytes(&entries[j].genesis);
            let ghost pre = chains@;
            chains.push(
                ChainContext {
                    id,
                    genesis,
                    state,
                    inbox_down: Vec::new(),
                    inbox_up: Vec::new(),
                    inbox_horiz: Vec::new(),
                    recv_down: Vec::new(),
                    recv_up: Vec::new(),
                    recv_horiz: Vec::new(),
                    seq_down: 0,
                    seq_up: 0,
                    seq_horiz: 0,
                },
            );
            proof {
                crate::seq_util::lemma_map_values_push(
                    pre,
                    chains@[chains@.len() - 1],
                    |c: ChainContext| c@,
                );
                assert(chains@.map_values(|c: ChainContext| c@)[i as int] == ChainView::fresh(
                    entries@[j as int].id as int,
                    entries@[j as int].genesis@,
                ));
            }
            i = i + 1;
        }
        let net = Network { topology, chains, ceiling };
        proof {
            assert forall|jj: int|
                0 <= jj < entries@.len() implies net@.has_chain(
                (#[trigger] entries@[jj]).id as int,
            ) by {
                if entries@[jj].is_relay {
                    assert(entries@[jj].id == crate::types::RELAY_ID);
                    assert(net@.chains[0].id == entries@[jj].id as int);
                } else {
                    assert(net@.topo.is_para(entries@[jj].id as int));
                    let p = choose|p: int|
                        0 <= p < net@.topo.paras.len() && net@.topo.paras[p] == entries@[jj].id as int;
                    assert(net@.chains[p + 1].id == entries@[jj].id as int);
                }
            }
        }
        Ok(net)
    }

    /// The position of the chain called `id` in dispatch order.
    pub fn index_of_chain(&self, id: u64) -> (i: usize)
        requires
            self@.wf(),
            self@.has_chain(id as int),
        ensures
            i < self@.chains.len(),
            i as int == self@.idx_of(id as int),
            self@.chains[i as int].id == id as int,
    {
        proof {
            lemma_idx_of(self@, id as int);
        }
        let n = self.chains.len();
        let mut i: usize = 0;
        while i < n
            invariant
                0 <= i <= n,
                n == self.chains@.len(),
                self@.wf(),
                self@.has_chain(id as int),
                forall|k: int|
                    0 <= k < i ==> (#[trigger] self@.chains[k]).id != id as int,
            decreases n - i,
        {
            if self.chains[i].id == id {
                proof {
                    assert(self@.chains[i as int].id == id as int);
                    lemma_idx_of(self@, id as int);
                }
                return i;
            }
            i = i + 1;
        }
        proof {
            let w = choose|k: int|
                0 <= k < self@.chains.len() && (#[trigger] self@.chains[k]).id == id as int;
            assert(false);
        }
        0
    }

    /// Does the network contain a chain called `id`?
    pub fn has_chain(&self, id: u64) -> (r: bool)
        ensures
            r == self@.has_chain(id as int),
    {
        let n = self.chains.len();
        let mut i: usize = 0;
        while i < n
            invariant
                0 <= i <= n,
                n == self.chains@.len(),
                forall|k: int|
                    0 <= k < i ==> (#[trigger] self@.chains[k]).id != id as int,
            decreases n - i,
        {
            if self.chains[i].id == id {
                proof {
                    assert(self@.chains[i as int].id == id as int);
                }
                return true;
            }
            i = i + 1;
        }
        false
    }

    /// Validates the route of a send request against the topology and,
    /// if the topology admits it, stamps the message with the sender's
    /// sequence counter and appends it to the recipient's inbox.
    /// Fails with `UnknownChain` exactly when either endpoint is absent
    /// from the topology, with `InvalidRoute` exactly when both
    /// endpoints are members but the channel or direction breaks the
    /// routing rules, and with `SequenceExhausted` exactly when the
    /// sender has used up the sequence space of that channel.  On any
    /// error the network is unchanged.
    pub fn enqueue(&mut self, from: u64, out: Outbound) -> (r: Result<(), SimError>)
        requires
            old(self)@.wf(),
        ensures
            final(self)@.wf(),
            match old(self)@.enqueue_err(from as int, out@) {
                Some(e) => r == Err::<(), SimError>(e) && final(self)@ == old(self)@,
                None => r == Ok::<(), SimError>(()) && final(self)@ == old(self)@.enqueue_ok(
                    from as int,
                    out@,
                ),
            },
    {
        let ghost n0 = self@;
        if !self.topology.contains(from) || !self.topology.contains(out.to) {
            return Err(SimError::UnknownChain);
        }
        if !self.topology.is_valid_route(from, out.to, out.channel) {
            return Err(SimError::InvalidRoute);
        }
        proof {
            crate::topology::lemma_route_endpoints(
                n0.topo,
                from as int,
                out.to as int,
                out.channel,
            );
            lemma_member_has_chain(n0, from as int);
            lemma_member_has_chain(n0, out.to as int);
            lemma_idx_of(n0, from as int);
            lemma_idx_of(n0, out.to as int);
        }
        let fi = self.index_of_chain(from);
        let ti = self.index_of_chain(out.to);
        proof {
            assert(fi != ti) by {
                lemma_wf_ids_distinct(n0);
            }
        }
        let seqv = match out.channel {
            Channel::Downward => self.chains[fi].seq_down,
            Channel::Upward => self.chains[fi].seq_up,
            Channel::Horizontal => self.chains[fi].seq_horiz,
        };
        if seqv == u64::MAX {
            return Err(SimError::SequenceExhausted);
        }
        let ghost ov = out@;
        let Outbound { to, channel, payload } = out;
        let m = Message { from, to, channel, payload, seq: seqv };
        let ghost mv = m@;
        let ghost v0 = self.chains@;
        let ghost chains0 = self@.chains;
        let mut ct = blank_chain();
        self.chains.set_and_swap(ti, &mut ct);
        proof {
            assert(ct@ == chains0[ti as int]);
        }
        let ghost ct0 = ct@;
        let ghost inbox0 = match channel {
            Channel::Downward => ct.inbox_down@,
            Channel::Upward => ct.inbox_up@,
            Channel::Horizontal => ct.inbox_horiz@,
        };
        match channel {
            Channel::Downward => ct.inbox_down.push(m),
            Channel::Upward => ct.inbox_up.push(m),
            Channel::Horizontal => ct.inbox_horiz.push(m),
        }
        proof {
            lemma_map_values_push(inbox0, m, |x: Message| x@);
            assert(ct@ =~= ct0.with_inbox_push(channel, mv));
        }
        let ghost ct_snap = ct;
        self.chains.set(ti, ct);
        proof {
            assert(self.chains@ =~= v0.update(ti as int, ct_snap));
            lemma_map_values_update(v0, ti as int, ct_snap, |c: ChainContext| c@);
            assert(self@.chains == chains0.update(ti as int, ct_snap@));
        }
        let ghost v1 = self.chains@;
        let ghost mid = self@.chains;
        let mut cf = blank_chain();
        self.chains.set_and_swap(fi, &mut cf);
        let ghost cf0 = cf@;
        proof {
            assert(cf@ == mid[fi as int]);
        }
        match channel {
            Channel::Downward => cf.seq_down = cf.seq_down + 1,
            Channel::Upward => cf.seq_up = cf.seq_up + 1,
            Channel::Horizontal => cf.seq_horiz = cf.seq_horiz + 1,
        }
        proof {
            assert(cf@ =~= cf0.with_seq_bump(channel));
        }
        let ghost cf_snap = cf;
        self.chains.set(fi, cf);
        proof {
            assert(self.chains@ =~= v1.update(fi as int, cf_snap));
            lemma_map_values_update(v1, fi as int, cf_snap, |c: ChainContext| c@);
            assert(self@.chains == mid.update(fi as int, cf_snap@));
            assert(mid[fi as int] == chains0[fi as int]);
            assert(self@ =~= n0.enqueue_ok(from as int, ov));
            lemma_enqueue_preserves_wf(n0, from as int, ov);
        }
        Ok(())
    }

    /// Restores every chain to its genesis snapshot and clears every
    /// queue, log and counter.
    pub fn reset(&mut self)
        requires
            old(self)@.wf(),
        ensures
            final(self)@ == old(self)@.reset_spec(),
            final(self)@.wf(),
    {
        let ghost n0 = self@;
        let n = self.chains.len();
        let mut i: usize = 0;
        while i < n
            invariant
                0 <= i <= n,
                n == self.chains@.len(),
                self.topology == old(self).topology,
                self.ceiling == old(self).ceiling,
                forall|k: int| 0 <= k < i ==> #[trigger] self@.chains[k] == n0.chains[k].reset(),
                forall|k: int| i <= k < n ==> #[trigger] self@.chains[k] == n0.chains[k],
            decreases n - i,
        {
            let ghost pre = self@.chains;
            let ghost v0 = self.chains@;
            let mut c = blank_chain();
            self.chains.set_and_swap(i, &mut c);
            let ghost c0 = c@;
            proof {
                assert(c0 == pre[i as int]);
            }
            let fresh_state = copy_bytes(&c.genesis);
            c.state = fresh_state;
            c.inbox_down = Vec::new();
            c.inbox_up = Vec::new();
            c.inbox_horiz = Vec::new();
            c.recv_down = Vec::new();
            c.recv_up = Vec::new();
            c.recv_horiz = Vec::new();
            c.seq_down = 0;
            c.seq_up = 0;
            c.seq_horiz = 0;
            proof {
                assert(c@ =~= c0.reset());
            }
            let ghost c_snap = c;
            self.chains.set(i, c);
            proof {
                assert(self.chains@ =~= v0.update(i as int, c_snap));
                lemma_map_values_update(v0, i as int, c_snap, |x: ChainContext| x@);
                assert(self@.chains == pre.update(i as int, c_snap@));
            }
            i = i + 1;
        }
        proof {
            assert(self@ =~= n0.reset_spec());
        }
    }

    /// The ordered log of messages `chain` has absorbed on `channel`;
    /// fails with `UnknownChain` exactly when no such chain exists.
    /// Read-only: the network is not changed.
    pub fn received(&self, chain: u64, channel: Channel) -> (r: Result<&Vec<Message>, SimError>)
        requires
            self@.wf(),
        ensures
            match r {
                Ok(v) => self@.has_chain(chain as int) && v@.map_values(|m: Message| m@)
                    == self@.received_log(chain as int, channel),
                Err(e) => e == SimError::UnknownChain && !self@.has_chain(chain as int),
            },
    {
        if !self.has_chain(chain) {
            return Err(SimError::UnknownChain);
        }
        let i = self.index_of_chain(chain);
        match channel {
            Channel::Downward => Ok(&self.chains[i].recv_down),
            Channel::Upward => Ok(&self.chains[i].recv_up),
            Channel::Horizontal => Ok(&self.chains[i].recv_horiz),
        }
    }

    /// The number of messages `chain` has absorbed on `channel` — the
    /// diagnostic counter of one inbox log.
    pub fn received_count(&self, chain: u64, channel: Channel) -> (r: Result<usize, SimError>)
        requires
            self@.wf(),
        ensures
            match r {
                Ok(c) => self@.has_chain(chain as int) && c as int == self@.received_log(
                    chain as int,
                    channel,
                ).len(),
                Err(e) => e == SimError::UnknownChain && !self@.has_chain(chain as int),
            },
    {
        match self.received(chain, channel) {
            Ok(v) => Ok(v.len()),
            Err(e) => Err(e),
        }
    }
}

/// An accepted enqueue preserves well-formedness.
pub proof fn lemma_enqueue_preserves_wf(n: NetworkView, from: int, o: OutboundView)
    requires
        n.wf(),
        n.enqueue_err(from, o) is None,
    ensures
        n.enqueue_ok(from, o).wf(),
{
    crate::topology::lemma_route_endpoints(n.topo, from, o.to, o.channel);
    lemma_member_has_chain(n, from);
    lemma_member_has_chain(n, o.to);
    lemma_idx_of(n, from);
    lemma_idx_of(n, o.to);
    lemma_wf_ids_distinct(n);
    let r = n.enqueue_ok(from, o);
    let fi = n.idx_of(from);
    let ti = n.idx_of(o.to);
    assert(fi != ti);
    let m = MessageView {
        from: from,
        to: o.to,
        channel: o.channel,
        payload: o.payload,
        seq: n.chains[fi].seq_no(o.channel),
    };
    assert(r.chains[ti] == n.chains[ti].with_inbox_push(o.channel, m));
    assert(r.chains[fi] == n.chains[fi].with_seq_bump(o.channel));
    assert forall|i: int|
        0 <= i < r.chains.len() implies (#[trigger] r.chains[i]).msgs_ok(r.topo) by {
        if i == ti {
            lemma_msgs_ok_push(n.chains[ti], n.topo, o.channel, m);
        } else if i == fi {
            lemma_msgs_ok_bump(n.chains[fi], n.topo, o.channel);
        } else {
            assert(r.chains[i] == n.chains[i]);
        }
    }
    assert forall|i: int, ch: Channel|
        0 <= i < r.chains.len() implies 0 <= (#[trigger] r.chains[i].seq_no(ch))
        <= u64::MAX as int by {
        if i == fi {
            lemma_chain_ops_frame(n.chains[fi], o.channel, ch, m);
            assert(n.chains[fi].seq_no(ch) <= u64::MAX as int);
        } else if i == ti {
            lemma_chain_ops_frame(n.chains[ti], o.channel, ch, m);
            assert(n.chains[ti].seq_no(ch) <= u64::MAX as int);
        } else {
            assert(r.chains[i] == n.chains[i]);
        }
    }
}

/// How one push or one counter bump changes each field family of a
/// chain: everything else is untouched.
pub proof fn lemma_chain_ops_frame(c: ChainView, ch: Channel, ch2: Channel, m: MessageView)
    ensures
        c.with_seq_bump(ch).id == c.id,
        c.with_seq_bump(ch).inbox(ch2) == c.inbox(ch2),
        c.with_seq_bump(ch).recv(ch2) == c.recv(ch2),
        ch2 == ch ==> c.with_seq_bump(ch).seq_no(ch2) == c.seq_no(ch2) + 1,
        ch2 != ch ==> c.with_seq_bump(ch).seq_no(ch2) == c.seq_no(ch2),
        c.with_inbox_push(ch, m).id == c.id,
        c.with_inbox_push(ch, m).recv(ch2) == c.recv(ch2),
        c.with_inbox_push(ch, m).seq_no(ch2) == c.seq_no(ch2),
        ch2 == ch ==> c.with_inbox_push(ch, m).inbox(ch2) == c.inbox(ch2).push(m),
        ch2 != ch ==> c.with_inbox_push(ch, m).inbox(ch2) == c.inbox(ch2),
{
}

/// Pushing a message the topology admits preserves a chain's message
/// soundness.
pub proof fn lemma_msgs_ok_push(c: ChainView, t: TopologyView, ch: Channel, m: MessageView)
    requires
        c.msgs_ok(t),
        msg_ok(t, c.id, ch, m),
    ensures
        c.with_inbox_push(ch, m).msgs_ok(t),
{
    let c1 = c.with_inbox_push(ch, m);
    assert forall|ch2: Channel, k: int|
        0 <= k < c1.inbox(ch2).len() implies msg_ok(t, c1.id, ch2, #[trigger] c1.inbox(ch2)[k]) by {
        lemma_chain_ops_frame(c, ch, ch2, m);
        if ch2 == ch {
            if k < c.inbox(ch2).len() {
                assert(c1.inbox(ch2)[k] == c.inbox(ch2)[k]);
                assert(msg_ok(t, c.id, ch2, c.inbox(ch2)[k]));
            } else {
                assert(c1.inbox(ch2)[k] == m);
            }
        } else {
            assert(c1.inbox(ch2)[k] == c.inbox(ch2)[k]);
            assert(msg_ok(t, c.id, ch2, c.inbox(ch2)[k]));
        }
    }
    assert forall|ch2: Channel, k: int|
        0 <= k < c1.recv(ch2).len() implies msg_ok(t, c1.id, ch2, #[trigger] c1.recv(ch2)[k]) by {
        lemma_chain_ops_frame(c, ch, ch2, m);
        assert(c1.recv(ch2)[k] == c.recv(ch2)[k]);
        assert(msg_ok(t, c.id, ch2, c.recv(ch2)[k]));
    }
}

/// Advancing a sequence counter preserves a chain's message soundness.
pub proof fn lemma_msgs_ok_bump(c: ChainView, t: TopologyView, ch: Channel)
    requires
        c.msgs_ok(t),
    ensures
        c.with_seq_bump(ch).msgs_ok(t),
{
    let c1 = c.with_seq_bump(ch);
    let m = MessageView { from: 0, to: 0, channel: ch, payload: Seq::empty(), seq: 0 };
    assert forall|ch2: Channel, k: int|
        0 <= k < c1.inbox(ch2).len() implies msg_ok(t, c1.id, ch2, #[trigger] c1.inbox(ch2)[k]) by {
        lemma_chain_ops_frame(c, ch, ch2, m);
        assert(c1.inbox(ch2)[k] == c.inbox(ch2)[k]);
        assert(msg_ok(t, c.id, ch2, c.inbox(ch2)[k]));
    }
    assert forall|ch2: Channel, k: int|
        0 <= k < c1.recv(ch2).len() implies msg_ok(t, c1.id, ch2, #[trigger] c1.recv(ch2)[k]) by {
        lemma_chain_ops_frame(c, ch, ch2, m);
        assert(c1.recv(ch2)[k] == c.recv(ch2)[k]);
        assert(msg_ok(t, c.id, ch2, c.recv(ch2)[k]));
    }
}

/// A throwaway chain context, used only to swap a real one out of the
/// chain vector for in-place modification.
pub(crate) fn blank_chain() -> ChainContext {
    ChainContext {
        id: 0,
        genesis: Vec::new(),
        state: Vec::new(),
        inbox_down: Vec::new(),
        inbox_up: Vec::new(),
        inbox_horiz: Vec::new(),
        recv_down: Vec::new(),
        recv_up: Vec::new(),
        recv_horiz: Vec::new(),
        seq_down: 0,
        seq_up: 0,
        seq_horiz: 0,
    }
}

/// First entry of the construction list with id `id`.
fn find_entry(entries: &Vec<ChainSpec>, id: u64) -> (r: Option<usize>)
    ensures
        match r {
            Some(j) => j < entries@.len() && entries@[j as int].id == id,
            None => forall|j: int| 0 <= j < entries@.len() ==> (#[trigger] entries@[j]).id != id,
        },
{
    let n = entries.len();
    let mut j: usize = 0;
    while j < n
        invariant
            0 <= j <= n,
            n == entries@.len(),
            forall|k: int| 0 <= k < j ==> (#[trigger] entries@[k]).id != id,
        decreases n - j,
    {
        if entries[j].id == id {
            return Some(j);
        }
        j = j + 1;
    }
    None
}

} // verus!
