//! The scheduler: a pure fixed-point drain loop.
//!
//! One *round* visits every chain in dispatch order (relay first, then
//! parachains by ascending id).  Visiting a chain delivers its pending
//! inbound messages — the three channel inboxes, in the fixed order
//! downward, upward, horizontal, each FIFO — into its absorbed-message
//! logs, hands the batch to the executor, and enqueues every send
//! request the executor emits, re-validating each route.  Rounds repeat
//! until no message is in flight, or the iteration ceiling is reached,
//! in which case the drain fails with `DeliveryDidNotConverge` and the
//! unconsumed queues stay inspectable.
//!
//! The whole loop is specified as a mathematical function of the
//! network view ([`drain_spec`]), which makes delivery deterministic by
//! construction and is what the proved laws build on.

use crate::executor::{lemma_scripted_out_add, scripted_out, Executor, RuleView, ScriptedExecutor};
use crate::network::{
    lemma_chain_ops_frame, lemma_idx_of, lemma_member_has_chain, lemma_pending_sum_zero,
    msg_ok, ChainContext, ChainView, Network, NetworkView,
};
use crate::seq_util::{
    lemma_map_values_add, lemma_map_values_update, lemma_prefix_append, lemma_prefix_refl,
    lemma_prefix_trans,
};
use crate::types::{Channel, Message, MessageView, Outbound, OutboundView, SimError};
use vstd::pervasive::VecAdditionalExecFns;
use vstd::prelude::*;

verus! {

/// The batch a visit of chain `i` hands to the executor: the three
/// inboxes, concatenated in the fixed channel order.
pub open spec fn chain_batch(n: NetworkView, i: int) -> Seq<MessageView> {
    n.chains[i].inbox_down + n.chains[i].inbox_up + n.chains[i].inbox_horiz
}

/// The network after chain `i` absorbed its pending inbound messages.
pub open spec fn deliver_net(n: NetworkView, i: int) -> NetworkView {
    NetworkView { chains: n.chains.update(i, n.chains[i].delivered()), ..n }
}

/// Enqueues a list of send requests in order, stopping at the first one
/// the network refuses.
pub open spec fn enqueue_all(n: NetworkView, from: int, outs: Seq<OutboundView>) -> (
    NetworkView,
    Option<SimError>,
)
    decreases outs.len(),
{
    if outs.len() == 0 {
        (n, None)
    } else {
        match n.enqueue_err(from, outs[0]) {
            Some(e) => (n, Some(e)),
            None => enqueue_all(n.enqueue_ok(from, outs[0]), from, outs.drop_first()),
        }
    }
}

/// One visit of chain `i`: deliver its batch, run the scripted executor
/// on it, enqueue what the executor emitted.
pub open spec fn step_chain(n: NetworkView, rules: Seq<RuleView>, i: int) -> (
    NetworkView,
    Option<SimError>,
)
{
    enqueue_all(
        deliver_net(n, i),
        n.chains[i].id,
        scripted_out(rules, n.chains[i].id, chain_batch(n, i)),
    )
}

/// The rest of one round: visits chains `i`, `i+1`, ... in order,
/// stopping at the first error.  `fuel` equals the number of chains
/// still to visit and only drives termination.
pub open spec fn round_from(n: NetworkView, rules: Seq<RuleView>, i: int, fuel: nat) -> (
    NetworkView,
    Option<SimError>,
)
    decreases fuel,
{
    if fuel == 0 || i < 0 || i >= n.chains.len() {
        (n, None)
    } else {
        let s = step_chain(n, rules, i);
        if s.1 is Some {
            s
        } else {
            round_from(s.0, rules, i + 1, (fuel - 1) as nat)
        }
    }
}

/// One full round: every chain visited once, in dispatch order.
pub open spec fn round_spec(n: NetworkView, rules: Seq<RuleView>) -> (
    NetworkView,
    Option<SimError>,
)
{
    round_from(n, rules, 0, n.chains.len())
}

/// The fixed-point drain with `fuel` rounds left: stops as soon as no
/// message is in flight, fails with `DeliveryDidNotConverge` when the
/// fuel runs out first.
pub open spec fn drain_rec(n: NetworkView, rules: Seq<RuleView>, fuel: nat) -> (
    NetworkView,
    Option<SimError>,
)
    decreases fuel,
{
    if n.pending_total() == 0 {
        (n, None)
    } else if fuel == 0 {
        (n, Some(SimError::DeliveryDidNotConverge))
    } else {
        let r = round_spec(n, rules);
        if r.1 is Some {
            r
        } else {
            drain_rec(r.0, rules, (fuel - 1) as nat)
        }
    }
}

/// The whole drain: rounds up to the network's ceiling.
pub open spec fn drain_spec(n: NetworkView, rules: Seq<RuleView>) -> (
    NetworkView,
    Option<SimError>,
)
{
    drain_rec(n, rules, n.ceiling as nat)
}

/// What the harness call does: replace the active chain's state handle
/// with what the closure returned, enqueue the closure's send requests,
/// then drain to the fixed point.
pub open spec fn execute_spec(
    n: NetworkView,
    chain: int,
    newstate: Seq<u8>,
    sends: Seq<OutboundView>,
    rules: Seq<RuleView>,
) -> (NetworkView, Option<SimError>)
{
    let i = n.idx_of(chain);
    let n1 = NetworkView {
        chains: n.chains.update(i, ChainView { state: newstate, ..n.chains[i] }),
        ..n
    };
    let r = enqueue_all(n1, chain, sends);
    if r.1 is Some {
        r
    } else {
        drain_spec(r.0, rules)
    }
}

/// Structure the dispatcher never touches: the topology, the ceiling,
/// and each chain's identity and genesis snapshot.
pub open spec fn same_shape(a: NetworkView, b: NetworkView) -> bool {
    &&& b.topo == a.topo
    &&& b.ceiling == a.ceiling
    &&& b.chains.len() == a.chains.len()
    &&& forall|i: int|
        0 <= i < a.chains.len() ==> (#[trigger] b.chains[i]).id == a.chains[i].id
            && b.chains[i].genesis == a.chains[i].genesis
}

/// Each chain's absorbed-message logs only ever grow, in order.
pub open spec fn recv_extends(a: NetworkView, b: NetworkView) -> bool {
    forall|i: int, ch: Channel|
        0 <= i < a.chains.len() ==> (#[trigger] a.chains[i].recv(ch)).is_prefix_of(
            b.chains[i].recv(ch),
        )
}

/// Everything `a` had pending has been absorbed into `b`'s logs: each
/// log grew by exactly the old inbox first, in order, whatever later
/// deliveries appended after it.  Nothing is silently dropped.
pub open spec fn pending_absorbed(a: NetworkView, b: NetworkView) -> bool {
    forall|k: int, ch: Channel|
        0 <= k < a.chains.len() ==> ((#[trigger] a.chains[k].recv(ch)) + a.chains[k].inbox(
            ch,
        )).is_prefix_of(b.chains[k].recv(ch))
}

/// `same_shape` and `recv_extends` compose transitively.
pub proof fn lemma_extends_trans(a: NetworkView, b: NetworkView, c: NetworkView)
    requires
        same_shape(a, b),
        same_shape(b, c),
        recv_extends(a, b),
        recv_extends(b, c),
    ensures
        same_shape(a, c),
        recv_extends(a, c),
{
    assert forall|i: int, ch: Channel|
        0 <= i < a.chains.len() implies (#[trigger] a.chains[i].recv(ch)).is_prefix_of(
        c.chains[i].recv(ch),
    ) by {
        assert(a.chains[i].recv(ch).is_prefix_of(b.chains[i].recv(ch)));
        assert(b.chains[i].recv(ch).is_prefix_of(c.chains[i].recv(ch)));
        assert(a.chains[i].recv(ch) =~= c.chains[i].recv(ch).take(a.chains[i].recv(ch).len() as int));
    }
}

/// Everything one accepted enqueue preserves and the one inbox it
/// extends.
pub proof fn lemma_enqueue_ok_props(n: NetworkView, from: int, o: OutboundView)
    requires
        n.wf(),
        n.enqueue_err(from, o) is None,
    ensures
        n.enqueue_ok(from, o).wf(),
        same_shape(n, n.enqueue_ok(from, o)),
        forall|i: int, ch: Channel|
            0 <= i < n.chains.len() ==> (#[trigger] n.enqueue_ok(from, o).chains[i].recv(ch))
                == n.chains[i].recv(ch),
        forall|i: int, ch: Channel|
            0 <= i < n.chains.len() ==> (#[trigger] n.chains[i].inbox(ch)).is_prefix_of(
                n.enqueue_ok(from, o).chains[i].inbox(ch),
            ),
        n.enqueue_ok(from, o).chains[n.idx_of(o.to)].inbox(o.channel) == n.chains[n.idx_of(
            o.to,
        )].inbox(o.channel).push(
            MessageView {
                from: from,
                to: o.to,
                channel: o.channel,
                payload: o.payload,
                seq: n.chains[n.idx_of(from)].seq_no(o.channel),
            },
        ),
{
    crate::network::lemma_enqueue_preserves_wf(n, from, o);
    crate::topology::lemma_route_endpoints(n.topo, from, o.to, o.channel);
    lemma_member_has_chain(n, from);
    lemma_member_has_chain(n, o.to);
    lemma_idx_of(n, from);
    lemma_idx_of(n, o.to);
    let r = n.enqueue_ok(from, o);
    let fi = n.idx_of(from);
    let ti = n.idx_of(o.to);
    assert(fi != ti);
    let m = MessageView {
        from: from,
        to: o.to,
        channel: o.channel,
        payload: o.payload,
        seq: n.chains[fi].seq_no(o.channel),
    };
    assert forall|i: int, ch: Channel|
        0 <= i < n.chains.len() implies (#[trigger] r.chains[i].recv(ch)) == n.chains[i].recv(
        ch,
    ) by {
        lemma_chain_ops_frame(n.chains[i], o.channel, ch, m);
    }
    assert forall|i: int, ch: Channel|
        0 <= i < n.chains.len() implies (#[trigger] n.chains[i].inbox(ch)).is_prefix_of(
        r.chains[i].inbox(ch),
    ) by {
        lemma_chain_ops_frame(n.chains[i], o.channel, ch, m);
        if i == ti && ch == o.channel {
            assert(r.chains[i].inbox(ch) == n.chains[i].inbox(ch).push(m));
            assert(n.chains[i].inbox(ch) =~= n.chains[i].inbox(ch).push(m).take(
                n.chains[i].inbox(ch).len() as int,
            ));
        } else {
            assert(r.chains[i].inbox(ch) == n.chains[i].inbox(ch));
            assert(n.chains[i].inbox(ch) =~= n.chains[i].inbox(ch).take(
                n.chains[i].inbox(ch).len() as int,
            ));
        }
    }
    assert forall|i: int|
        0 <= i < n.chains.len() implies (#[trigger] r.chains[i]).id == n.chains[i].id
            && r.chains[i].genesis == n.chains[i].genesis by {
        lemma_chain_ops_frame(n.chains[i], o.channel, o.channel, m);
    }
}

/// Everything a whole enqueue run preserves, whether or not it hits an
/// error.
pub proof fn lemma_enqueue_all_props(n: NetworkView, from: int, outs: Seq<OutboundView>)
    requires
        n.wf(),
    ensures
        enqueue_all(n, from, outs).0.wf(),
        same_shape(n, enqueue_all(n, from, outs).0),
        forall|i: int, ch: Channel|
            0 <= i < n.chains.len() ==> (#[trigger] enqueue_all(n, from, outs).0.chains[i].recv(
                ch,
            )) == n.chains[i].recv(ch),
        forall|i: int, ch: Channel|
            0 <= i < n.chains.len() ==> (#[trigger] n.chains[i].inbox(ch)).is_prefix_of(
                enqueue_all(n, from, outs).0.chains[i].inbox(ch),
            ),
    decreases outs.len(),
{
    let r = enqueue_all(n, from, outs);
    if outs.len() == 0 {
        assert forall|i: int, ch: Channel|
            0 <= i < n.chains.len() implies (#[trigger] n.chains[i].inbox(ch)).is_prefix_of(
            r.0.chains[i].inbox(ch),
        ) by {
            assert(n.chains[i].inbox(ch) =~= n.chains[i].inbox(ch).take(
                n.chains[i].inbox(ch).len() as int,
            ));
        }
    } else {
        match n.enqueue_err(from, outs[0]) {
            Some(e) => {
                assert forall|i: int, ch: Channel|
                    0 <= i < n.chains.len() implies (#[trigger] n.chains[i].inbox(
                    ch,
                )).is_prefix_of(r.0.chains[i].inbox(ch)) by {
                    assert(n.chains[i].inbox(ch) =~= n.chains[i].inbox(ch).take(
                        n.chains[i].inbox(ch).len() as int,
                    ));
                }
            },
            None => {
                let n1 = n.enqueue_ok(from, outs[0]);
                lemma_enqueue_ok_props(n, from, outs[0]);
                lemma_enqueue_all_props(n1, from, outs.drop_first());
                let nf = enqueue_all(n1, from, outs.drop_first()).0;
                assert(r.0 == nf);
                assert forall|i: int, ch: Channel|
                    0 <= i < n.chains.len() implies (#[trigger] nf.chains[i].recv(ch))
                    == n.chains[i].recv(ch) by {
                    assert(nf.chains[i].recv(ch) == n1.chains[i].recv(ch));
                    assert(n1.chains[i].recv(ch) == n.chains[i].recv(ch));
                }
                assert forall|i: int, ch: Channel|
                    0 <= i < n.chains.len() implies (#[trigger] n.chains[i].inbox(
                    ch,
                )).is_prefix_of(nf.chains[i].inbox(ch)) by {
                    assert(n.chains[i].inbox(ch).is_prefix_of(n1.chains[i].inbox(ch)));
                    assert(n1.chains[i].inbox(ch).is_prefix_of(nf.chains[i].inbox(ch)));
                    assert(n.chains[i].inbox(ch) =~= nf.chains[i].inbox(ch).take(
                        n.chains[i].inbox(ch).len() as int,
                    ));
                }
            },
        }
    }
}

/// Frame facts about one delivery: what `delivered` does to each field
/// family of the visited chain.
pub proof fn lemma_delivered_frame(c: ChainView, ch: Channel)
    ensures
        c.delivered().id == c.id,
        c.delivered().genesis == c.genesis,
        c.delivered().state == c.state,
        c.delivered().inbox(ch) == Seq::<MessageView>::empty(),
        c.delivered().recv(ch) == c.recv(ch) + c.inbox(ch),
        c.delivered().seq_no(ch) == c.seq_no(ch),
        c.delivered().pending() == 0,
{
}

/// Delivery preserves well-formedness and only appends to the visited
/// chain's logs.
pub proof fn lemma_deliver_props(n: NetworkView, i: int)
    requires
        n.wf(),
        0 <= i < n.chains.len(),
    ensures
        deliver_net(n, i).wf(),
        same_shape(n, deliver_net(n, i)),
        recv_extends(n, deliver_net(n, i)),
{
    let r = deliver_net(n, i);
    let c0 = n.chains[i];
    let c1 = c0.delivered();
    assert forall|j: int|
        0 <= j < r.chains.len() implies (#[trigger] r.chains[j]).msgs_ok(r.topo) by {
        if j == i {
            assert forall|ch: Channel, k: int|
                0 <= k < c1.inbox(ch).len() implies msg_ok(
                n.topo,
                c1.id,
                ch,
                #[trigger] c1.inbox(ch)[k],
            ) by {
                lemma_delivered_frame(c0, ch);
            }
            assert forall|ch: Channel, k: int|
                0 <= k < c1.recv(ch).len() implies msg_ok(
                n.topo,
                c1.id,
                ch,
                #[trigger] c1.recv(ch)[k],
            ) by {
                lemma_delivered_frame(c0, ch);
                if k < c0.recv(ch).len() {
                    assert(c1.recv(ch)[k] == c0.recv(ch)[k]);
                    assert(msg_ok(n.topo, c0.id, ch, c0.recv(ch)[k]));
                } else {
                    assert(c1.recv(ch)[k] == c0.inbox(ch)[k - c0.recv(ch).len()]);
                    assert(msg_ok(n.topo, c0.id, ch, c0.inbox(ch)[k - c0.recv(ch).len()]));
                }
            }
        } else {
            assert(r.chains[j] == n.chains[j]);
        }
    }
    assert forall|j: int, ch: Channel|
        0 <= j < r.chains.len() implies 0 <= (#[trigger] r.chains[j].seq_no(ch))
        <= u64::MAX as int by {
        if j == i {
            lemma_delivered_frame(c0, ch);
        }
    }
    assert forall|j: int, ch: Channel|
        0 <= j < n.chains.len() implies (#[trigger] n.chains[j].recv(ch)).is_prefix_of(
        r.chains[j].recv(ch),
    ) by {
        if j == i {
            lemma_delivered_frame(c0, ch);
            assert(n.chains[j].recv(ch) =~= (c0.recv(ch) + c0.inbox(ch)).take(
                c0.recv(ch).len() as int,
            ));
        } else {
            assert(n.chains[j].recv(ch) =~= n.chains[j].recv(ch).take(
                n.chains[j].recv(ch).len() as int,
            ));
        }
    }
    assert forall|j: int|
        0 <= j < n.chains.len() implies (#[trigger] r.chains[j]).id == n.chains[j].id
            && r.chains[j].genesis == n.chains[j].genesis by {
        if j == i {
            lemma_delivered_frame(c0, Channel::Downward);
        }
    }
}

/// One chain visit preserves well-formedness, shape, and the logs.
pub proof fn lemma_step_props(n: NetworkView, rules: Seq<RuleView>, i: int)
    requires
        n.wf(),
        0 <= i < n.chains.len(),
    ensures
        step_chain(n, rules, i).0.wf(),
        same_shape(n, step_chain(n, rules, i).0),
        recv_extends(n, step_chain(n, rules, i).0),
{
    let n1 = deliver_net(n, i);
    lemma_deliver_props(n, i);
    let outs = scripted_out(rules, n.chains[i].id, chain_batch(n, i));
    lemma_enqueue_all_props(n1, n.chains[i].id, outs);
    let n2 = enqueue_all(n1, n.chains[i].id, outs).0;
    assert(recv_extends(n1, n2)) by {
        assert forall|j: int, ch: Channel|
            0 <= j < n1.chains.len() implies (#[trigger] n1.chains[j].recv(ch)).is_prefix_of(
            n2.chains[j].recv(ch),
        ) by {
            assert(n2.chains[j].recv(ch) == n1.chains[j].recv(ch));
            assert(n1.chains[j].recv(ch) =~= n1.chains[j].recv(ch).take(
                n1.chains[j].recv(ch).len() as int,
            ));
        }
    }
    lemma_extends_trans(n, n1, n2);
}

/// A partial round preserves well-formedness, shape, and the logs.
pub proof fn lemma_round_from_props(n: NetworkView, rules: Seq<RuleView>, i: int, fuel: nat)
    requires
        n.wf(),
    ensures
        round_from(n, rules, i, fuel).0.wf(),
        same_shape(n, round_from(n, rules, i, fuel).0),
        recv_extends(n, round_from(n, rules, i, fuel).0),
    decreases fuel,
{
    if fuel == 0 || i < 0 || i >= n.chains.len() {
        assert forall|j: int, ch: Channel|
            0 <= j < n.chains.len() implies (#[trigger] n.chains[j].recv(ch)).is_prefix_of(
            n.chains[j].recv(ch),
        ) by {
            assert(n.chains[j].recv(ch) =~= n.chains[j].recv(ch).take(
                n.chains[j].recv(ch).len() as int,
            ));
        }
    } else {
        let s = step_chain(n, rules, i);
        lemma_step_props(n, rules, i);
        if s.1 is Some {
        } else {
            lemma_round_from_props(s.0, rules, i + 1, (fuel - 1) as nat);
            lemma_extends_trans(n, s.0, round_from(s.0, rules, i + 1, (fuel - 1) as nat).0);
        }
    }
}

/// A whole drain preserves well-formedness, shape, and the logs.
pub proof fn lemma_drain_rec_props(n: NetworkView, rules: Seq<RuleView>, fuel: nat)
    requires
        n.wf(),
    ensures
        drain_rec(n, rules, fuel).0.wf(),
        same_shape(n, drain_rec(n, rules, fuel).0),
        recv_extends(n, drain_rec(n, rules, fuel).0),
    decreases fuel,
{
    if n.pending_total() == 0 || fuel == 0 {
        assert forall|j: int, ch: Channel|
            0 <= j < n.chains.len() implies (#[trigger] n.chains[j].recv(ch)).is_prefix_of(
            n.chains[j].recv(ch),
        ) by {
            assert(n.chains[j].recv(ch) =~= n.chains[j].recv(ch).take(
                n.chains[j].recv(ch).len() as int,
            ));
        }
    } else {
        let r = round_spec(n, rules);
        lemma_round_from_props(n, rules, 0, n.chains.len());
        if r.1 is Some {
        } else {
            lemma_drain_rec_props(r.0, rules, (fuel - 1) as nat);
            lemma_extends_trans(n, r.0, drain_rec(r.0, rules, (fuel - 1) as nat).0);
        }
    }
}

impl Network {
    /// Is any message in flight anywhere in the network?
    pub fn has_pending(&self) -> (r: bool)
        ensures
            r == (self@.pending_total() > 0),
    {
        let n = self.chains.len();
        let mut i: usize = 0;
        while i < n
            invariant
                0 <= i <= n,
                n == self.chains@.len(),
                forall|k: int| 0 <= k < i ==> (#[trigger] self@.chains[k]).pending() == 0,
            decreases n - i,
        {
            let c = &self.chains[i];
            if c.inbox_down.len() > 0 || c.inbox_up.len() > 0 || c.inbox_horiz.len() > 0 {
                proof {
                    lemma_pending_sum_zero(self@.chains);
                    assert(self@.chains[i as int].pending() > 0);
                }
                return true;
            }
            proof {
                assert(self@.chains[i as int].pending() == 0);
            }
            i = i + 1;
        }
        proof {
            lemma_pending_sum_zero(self@.chains);
        }
        false
    }

    /// Enqueues a list of send requests in order, stopping at the first
    /// one the topology or a sequence counter refuses.
    fn enqueue_batch(&mut self, from: u64, outs: Vec<Outbound>) -> (r: Result<(), SimError>)
        requires
            old(self)@.wf(),
        ensures
            final(self)@.wf(),
            final(self)@ == enqueue_all(
                old(self)@,
                from as int,
                outs@.map_values(|o: Outbound| o@),
            ).0,
            r is Ok <==> enqueue_all(old(self)@, from as int, outs@.map_values(|o: Outbound| o@)).1
                is None,
            r is Err ==> enqueue_all(old(self)@, from as int, outs@.map_values(|o: Outbound| o@)).1
                == Some(r->Err_0),
    {
        let ghost all = outs@.map_values(|o: Outbound| o@);
        let n = outs.len();
        let mut i: usize = 0;
        proof {
            assert(all.skip(0) =~= all);
        }
        while i < n
            invariant
                0 <= i <= n,
                n == outs@.len(),
                self@.wf(),
                all == outs@.map_values(|o: Outbound| o@),
                enqueue_all(old(self)@, from as int, all) == enqueue_all(
                    self@,
                    from as int,
                    all.skip(i as int),
                ),
            decreases n - i,
        {
            let ghost cur = self@;
            let o = crate::types::copy_outbound(&outs[i]);
            let ghost ov = o@;
            proof {
                assert(all.skip(i as int)[0] == all[i as int]);
                assert(all[i as int] == ov);
                assert(all.skip(i as int).drop_first() =~= all.skip(i as int + 1));
            }
            match self.enqueue(from, o) {
                Ok(()) => {
                    proof {
                        assert(cur.enqueue_err(from as int, ov) is None);
                        assert(enqueue_all(cur, from as int, all.skip(i as int)) == enqueue_all(
                            cur.enqueue_ok(from as int, ov),
                            from as int,
                            all.skip(i as int).drop_first(),
                        ));
                    }
                },
                Err(e) => {
                    proof {
                        assert(enqueue_all(cur, from as int, all.skip(i as int)) == (
                            cur,
                            Some(e),
                        ));
                    }
                    return Err(e);
                },
            }
            i = i + 1;
        }
        proof {
            assert(all.skip(n as int) =~= Seq::<OutboundView>::empty());
            assert(enqueue_all(self@, from as int, all.skip(n as int)) == (
                self@,
                None::<SimError>,
            ));
        }
        Ok(())
    }

    /// One full dispatcher round: visits every chain in dispatch order,
    /// delivers its pending inbound batch, runs the executor on it and
    /// enqueues what the executor emitted, stopping at the first error.
    fn round_once(&mut self, ex: &ScriptedExecutor) -> (r: Result<(), SimError>)
        requires
            old(self)@.wf(),
        ensures
            final(self)@.wf(),
            final(self)@ == round_spec(old(self)@, ex@).0,
            r is Ok <==> round_spec(old(self)@, ex@).1 is None,
            r is Err ==> round_spec(old(self)@, ex@).1 == Some(r->Err_0),
    {
        let ghost n0 = self@;
        let ghost rules = ex@;
        let n = self.chains.len();
        let mut i: usize = 0;
        while i < n
            invariant
                0 <= i <= n,
                n == self.chains@.len(),
                self@.wf(),
                n0 == old(self)@,
                rules == ex@,
                round_from(n0, rules, 0, n0.chains.len() as nat) == round_from(
                    self@,
                    rules,
                    i as int,
                    (n - i) as nat,
                ),
            decreases n - i,
        {
            let ghost s_i = self@;
            let ghost v0 = self.chains@;
            let mut c = crate::network::blank_chain();
            self.chains.set_and_swap(i, &mut c);
            proof {
                assert(c@ == s_i.chains[i as int]);
            }
            let ghost c0 = c@;
            let mut d: Vec<Message> = Vec::new();
            let mut u: Vec<Message> = Vec::new();
            let mut h: Vec<Message> = Vec::new();
            core::mem::swap(&mut d, &mut c.inbox_down);
            core::mem::swap(&mut u, &mut c.inbox_up);
            core::mem::swap(&mut h, &mut c.inbox_horiz);
            let id = c.id;
            let outs_d = ex.respond_seq(id, &d);
            let outs_u = ex.respond_seq(id, &u);
            let outs_h = ex.respond_seq(id, &h);
            let ghost dv = d@.map_values(|m: Message| m@);
            let ghost uv = u@.map_values(|m: Message| m@);
            let ghost hv = h@.map_values(|m: Message| m@);
            let ghost rdv = c.recv_down@;
            let ghost ruv = c.recv_up@;
            let ghost rhv = c.recv_horiz@;
            let ghost de = d@;
            let ghost ue = u@;
            let ghost he = h@;
            c.recv_down.append(&mut d);
            c.recv_up.append(&mut u);
            c.recv_horiz.append(&mut h);
            proof {
                lemma_map_values_add(rdv, de, |m: Message| m@);
                lemma_map_values_add(ruv, ue, |m: Message| m@);
                lemma_map_values_add(rhv, he, |m: Message| m@);
                assert(c@ =~= c0.delivered());
            }
            let ghost c_snap = c;
            self.chains.set(i, c);
            proof {
                assert(self.chains@ =~= v0.update(i as int, c_snap));
                lemma_map_values_update(v0, i as int, c_snap, |x: ChainContext| x@);
                assert(self@ =~= deliver_net(s_i, i as int));
                lemma_deliver_props(s_i, i as int);
            }
            let mut outs = outs_d;
            let mut tail_u = outs_u;
            let mut tail_h = outs_h;
            let ghost ode = outs@;
            let ghost oue = tail_u@;
            outs.append(&mut tail_u);
            let ghost odue = outs@;
            let ghost ohe = tail_h@;
            outs.append(&mut tail_h);
            proof {
                lemma_map_values_add(ode, oue, |o: Outbound| o@);
                lemma_map_values_add(odue, ohe, |o: Outbound| o@);
                lemma_scripted_out_add(rules, id as int, dv, uv);
                lemma_scripted_out_add(rules, id as int, dv + uv, hv);
                assert(chain_batch(s_i, i as int) == dv + uv + hv);
                assert(outs@.map_values(|o: Outbound| o@) =~= scripted_out(
                    rules,
                    id as int,
                    chain_batch(s_i, i as int),
                ));
            }
            let ghost nd = self@;
            let step_r = self.enqueue_batch(id, outs);
            proof {
                assert(step_chain(s_i, rules, i as int) == enqueue_all(
                    nd,
                    id as int,
                    scripted_out(rules, id as int, chain_batch(s_i, i as int)),
                ));
                assert(round_from(s_i, rules, i as int, (n - i) as nat).0 == round_from(
                    step_chain(s_i, rules, i as int).0,
                    rules,
                    i as int + 1,
                    (n - i - 1) as nat,
                ).0 || step_chain(s_i, rules, i as int).1 is Some);
            }
            match step_r {
                Ok(()) => {
                    proof {
                        lemma_enqueue_all_props(
                            nd,
                            id as int,
                            scripted_out(rules, id as int, chain_batch(s_i, i as int)),
                        );
                        assert(step_chain(s_i, rules, i as int).1 is None);
                        assert(step_chain(s_i, rules, i as int).0 == self@);
                        assert(round_from(s_i, rules, i as int, (n - i) as nat) == round_from(
                            self@,
                            rules,
                            i as int + 1,
                            (n - i - 1) as nat,
                        ));
                    }
                },
                Err(e) => {
                    proof {
                        assert(step_chain(s_i, rules, i as int) == (self@, Some(e)));
                        assert(round_from(s_i, rules, i as int, (n - i) as nat) == (
                            self@,
                            Some(e),
                        ));
                    }
                    return Err(e);
                },
            }
            i = i + 1;
        }
        proof {
            assert(round_from(self@, rules, n as int, 0) == (self@, None::<SimError>));
        }
        Ok(())
    }

    /// Runs dispatcher rounds until no message is in flight anywhere.
    /// Fails with `DeliveryDidNotConverge` exactly when the network's
    /// ceiling of rounds is exhausted first, leaving the unconsumed
    /// queues in place for diagnosis; routing and stamping errors raised
    /// by an executor's emissions abort the drain where they occur.
    pub fn drain(&mut self, ex: &ScriptedExecutor) -> (r: Result<(), SimError>)
        requires
            old(self)@.wf(),
        ensures
            final(self)@.wf(),
            final(self)@ == drain_spec(old(self)@, ex@).0,
            r is Ok <==> drain_spec(old(self)@, ex@).1 is None,
            r is Err ==> drain_spec(old(self)@, ex@).1 == Some(r->Err_0),
            r is Ok ==> final(self)@.pending_total() == 0,
    {
        let ceiling = self.ceiling;
        let mut rounds: u64 = 0;
        while rounds <= ceiling
            invariant
                rounds <= ceiling,
                self@.wf(),
                ceiling as int == old(self)@.ceiling,
                self.ceiling == ceiling,
                drain_rec(old(self)@, ex@, old(self)@.ceiling as nat) == drain_rec(
                    self@,
                    ex@,
                    (ceiling - rounds) as nat,
                ),
            decreases ceiling - rounds,
        {
            let ghost cur = self@;
            let ghost fuel = (ceiling - rounds) as nat;
            if !self.has_pending() {
                proof {
                    assert(drain_rec(cur, ex@, fuel) == (cur, None::<SimError>));
                }
                return Ok(());
            }
            if rounds == ceiling {
                proof {
                    assert(fuel == 0);
                    assert(drain_rec(cur, ex@, fuel) == (
                        cur,
                        Some(SimError::DeliveryDidNotConverge),
                    ));
                }
                return Err(SimError::DeliveryDidNotConverge);
            }
            match self.round_once(ex) {
                Ok(()) => {
                    proof {
                        assert(round_spec(cur, ex@).1 is None);
                        assert(drain_rec(cur, ex@, fuel) == drain_rec(
                            self@,
                            ex@,
                            (fuel - 1) as nat,
                        ));
                        lemma_round_from_props(cur, ex@, 0, cur.chains.len());
                        assert(self@.ceiling == cur.ceiling);
                    }
                },
                Err(e) => {
                    proof {
                        assert(round_spec(cur, ex@).1 == Some(e));
                        assert(drain_rec(cur, ex@, fuel) == (self@, Some(e)));
                    }
                    return Err(e);
                },
            }
            rounds = rounds + 1;
        }
        proof {
            assert(false);
        }
        Err(SimError::DeliveryDidNotConverge)
    }

    /// The harness call without a closure: enqueue send requests on
    /// behalf of `chain` (validating each route), then drain the whole
    /// network to its fixed point.  The chain's state handle is left
    /// alone, so the outcome is pinned exactly: it is
    /// [`execute_spec`] of the old view and the requests.
    pub fn execute_sends(
        &mut self,
        chain: u64,
        sends: Vec<Outbound>,
        ex: &ScriptedExecutor,
    ) -> (r: Result<(), SimError>)
        requires
            old(self)@.wf(),
        ensures
            final(self)@.wf(),
            !old(self)@.has_chain(chain as int) ==> r == Err::<(), SimError>(
                SimError::UnknownChain,
            ) && final(self)@ == old(self)@,
            old(self)@.has_chain(chain as int) ==> ({
                let rr = execute_spec(
                    old(self)@,
                    chain as int,
                    old(self)@.chains[old(self)@.idx_of(chain as int)].state,
                    sends@.map_values(|o: Outbound| o@),
                    ex@,
                );
                &&& final(self)@ == rr.0
                &&& (r is Ok <==> rr.1 is None)
                &&& (r is Err ==> rr.1 == Some(r->Err_0))
            }),
            r is Ok ==> final(self)@.pending_total() == 0,
    {
        if !self.has_chain(chain) {
            return Err(SimError::UnknownChain);
        }
        let ghost n0 = self@;
        proof {
            lemma_idx_of(n0, chain as int);
            let i = n0.idx_of(chain as int);
            assert(n0.chains[i] == (ChainView { state: n0.chains[i].state, ..n0.chains[i] }));
            assert(n0.chains.update(i, n0.chains[i]) =~= n0.chains);
            assert((NetworkView {
                chains: n0.chains.update(
                    i,
                    (ChainView { state: n0.chains[i].state, ..n0.chains[i] }),
                ),
                ..n0
            }) == n0);
        }
        let step_r = self.enqueue_batch(chain, sends);
        match step_r {
            Ok(()) => {},
            Err(e) => {
                return Err(e);
            },
        }
        self.drain(ex)
    }

    /// The harness call: activate `chain`, run `f` with the chain's
    /// opaque state handle, store the handle `f` returns, enqueue the
    /// send requests `f` made (validating each route), then drain the
    /// whole network to its fixed point before handing `f`'s result
    /// back.  Fails with `UnknownChain` exactly when `chain` is not a
    /// member of the topology; errors of the enqueue or of the drain
    /// abort the call and are returned as they occurred.
    pub fn execute_with<R, F: FnOnce(Vec<u8>) -> (Vec<u8>, Vec<Outbound>, R)>(
        &mut self,
        chain: u64,
        f: F,
        ex: &ScriptedExecutor,
    ) -> (r: Result<R, SimError>)
        requires
            old(self)@.wf(),
            forall|s: Vec<u8>| call_requires(f, (s,)),
        ensures
            final(self)@.wf(),
            !old(self)@.has_chain(chain as int) ==> r is Err && r->Err_0
                == SimError::UnknownChain && final(self)@ == old(self)@,
            old(self)@.has_chain(chain as int) ==> exists|
                arg: Vec<u8>,
                out: (Vec<u8>, Vec<Outbound>, R),
            |
                {
                    &&& arg@ == old(self)@.chains[old(self)@.idx_of(chain as int)].state
                    &&& #[trigger] call_ensures(f, (arg,), out)
                    &&& final(self)@ == execute_spec(
                        old(self)@,
                        chain as int,
                        out.0@,
                        out.1@.map_values(|o: Outbound| o@),
                        ex@,
                    ).0
                    &&& (r is Ok <==> execute_spec(
                        old(self)@,
                        chain as int,
                        out.0@,
                        out.1@.map_values(|o: Outbound| o@),
                        ex@,
                    ).1 is None)
                    &&& (r is Ok ==> r->Ok_0 == out.2)
                    &&& (r is Err ==> execute_spec(
                        old(self)@,
                        chain as int,
                        out.0@,
                        out.1@.map_values(|o: Outbound| o@),
                        ex@,
                    ).1 == Some(r->Err_0))
                },
            r is Ok ==> final(self)@.pending_total() == 0,
    {
        if !self.has_chain(chain) {
            return Err(SimError::UnknownChain);
        }
        let ghost n0 = self@;
        let i = self.index_of_chain(chain);
        let ghost v0 = self.chains@;
        let mut c = crate::network::blank_chain();
        self.chains.set_and_swap(i, &mut c);
        proof {
            assert(c@ == n0.chains[i as int]);
        }
        let ghost c0 = c@;
        let mut st: Vec<u8> = Vec::new();
        core::mem::swap(&mut st, &mut c.state);
        let ghost st_snap = st;
        let res = f(st);
        let ghost res_snap = res;
        let (new_state, sends, rv) = res;
        let ghost sendsv = sends@.map_values(|o: Outbound| o@);
        c.state = new_state;
        proof {
            assert(c@ =~= ChainView { state: res_snap.0@, ..c0 });
        }
        let ghost c_snap = c;
        self.chains.set(i, c);
        proof {
            assert(self.chains@ =~= v0.update(i as int, c_snap));
            lemma_map_values_update(v0, i as int, c_snap, |x: ChainContext| x@);
            assert(self@ =~= NetworkView {
                chains: n0.chains.update(
                    i as int,
                    ChainView { state: res_snap.0@, ..n0.chains[i as int] },
                ),
                ..n0
            });
            lemma_state_update_wf(n0, i as int, res_snap.0@);
        }
        let ghost n1 = self@;
        let step_r = self.enqueue_batch(chain, sends);
        proof {
            assert(call_ensures(f, (st_snap,), res_snap));
            assert(st_snap@ == n0.chains[n0.idx_of(chain as int)].state);
        }
        match step_r {
            Ok(()) => {},
            Err(e) => {
                proof {
                    assert(enqueue_all(n1, chain as int, sendsv).1 == Some(e));
                    assert(execute_spec(n0, chain as int, res_snap.0@, sendsv, ex@) == (
                        self@,
                        Some(e),
                    ));
                }
                return Err(e);
            },
        }
        let drain_r = self.drain(ex);
        proof {
            assert(call_ensures(f, (st_snap,), res_snap));
        }
        match drain_r {
            Ok(()) => Ok(rv),
            Err(e) => {
                proof {
                    assert(execute_spec(n0, chain as int, res_snap.0@, sendsv, ex@).1 == Some(
                        e,
                    ));
                }
                Err(e)
            },
        }
    }
}

impl Network {
    /// Runs the fixed-point drain with an arbitrary executor
    /// collaborator.  Nothing is assumed of what the executor emits or
    /// how it rewrites the state handles: every emitted send request is
    /// validated against the topology before it is enqueued, the
    /// absorbed-message logs only ever grow, and the topology, ceiling
    /// and chain identities are untouched.  A network with nothing in
    /// flight drains successfully without change; success means every
    /// queue was emptied and everything that was pending stands
    /// appended, in order, to the matching logs — nothing is silently
    /// dropped.  `DeliveryDidNotConverge` is returned only with
    /// messages still in flight.
    pub fn drain_with<E: Executor>(&mut self, ex: &mut E) -> (r: Result<(), SimError>)
        requires
            old(self)@.wf(),
        ensures
            final(self)@.wf(),
            same_shape(old(self)@, final(self)@),
            recv_extends(old(self)@, final(self)@),
            old(self)@.pending_total() == 0 ==> r is Ok && final(self)@ == old(self)@,
            r is Ok ==> final(self)@.pending_total() == 0,
            r is Ok ==> pending_absorbed(old(self)@, final(self)@),
            r == Err::<(), SimError>(SimError::DeliveryDidNotConverge) ==> final(self)@.pending_total() > 0,
    {
        proof {
            lemma_refl_extends(self@);
        }
        let ceiling = self.ceiling;
        let mut rounds: u64 = 0;
        while rounds <= ceiling
            invariant
                rounds <= ceiling,
                self@.wf(),
                self.ceiling == ceiling,
                same_shape(old(self)@, self@),
                recv_extends(old(self)@, self@),
                rounds == 0 ==> self@ == old(self)@,
                rounds > 0 ==> old(self)@.pending_total() > 0,
                rounds > 0 ==> pending_absorbed(old(self)@, self@),
            decreases ceiling - rounds,
        {
            let ghost cur = self@;
            if !self.has_pending() {
                proof {
                    if rounds == 0 {
                        lemma_pending_sum_zero(self@.chains);
                        assert forall|k: int, ch: Channel|
                            0 <= k < self@.chains.len() implies ((
                        #[trigger] self@.chains[k].recv(ch)) + self@.chains[k].inbox(
                            ch,
                        )).is_prefix_of(self@.chains[k].recv(ch)) by {
                            assert(self@.chains[k].pending() == 0);
                            assert(self@.chains[k].inbox(ch) =~= Seq::<MessageView>::empty());
                            assert(self@.chains[k].recv(ch) + self@.chains[k].inbox(ch)
                                =~= self@.chains[k].recv(ch));
                            lemma_prefix_refl(self@.chains[k].recv(ch));
                        }
                    }
                }
                return Ok(());
            }
            if rounds == ceiling {
                return Err(SimError::DeliveryDidNotConverge);
            }
            match self.round_with(ex) {
                Ok(()) => {},
                Err(e) => {
                    return Err(e);
                },
            }
            proof {
                if rounds > 0 {
                    assert forall|k: int, ch: Channel|
                        0 <= k < old(self)@.chains.len() implies ((
                    #[trigger] old(self)@.chains[k].recv(ch)) + old(self)@.chains[k].inbox(
                        ch,
                    )).is_prefix_of(self@.chains[k].recv(ch)) by {
                        assert((old(self)@.chains[k].recv(ch) + old(self)@.chains[k].inbox(
                            ch,
                        )).is_prefix_of(cur.chains[k].recv(ch)));
                        assert(cur.chains[k].recv(ch).is_prefix_of(self@.chains[k].recv(ch)));
                        lemma_prefix_trans(
                            old(self)@.chains[k].recv(ch) + old(self)@.chains[k].inbox(ch),
                            cur.chains[k].recv(ch),
                            self@.chains[k].recv(ch),
                        );
                    }
                }
            }
            rounds = rounds + 1;
        }
        proof {
            assert(false);
        }
        Err(SimError::DeliveryDidNotConverge)
    }

    /// One visit with an arbitrary executor: chain `i` absorbs its
    /// pending inbound batch into its logs, the executor runs on it if
    /// anything was pending, and everything the executor emitted is
    /// enqueued, each route validated.  Other chains' logs are
    /// untouched; their inboxes only grow.
    fn visit_chain_with<E: Executor>(&mut self, i: usize, ex: &mut E) -> (r: Result<
        (),
        SimError,
    >)
        requires
            old(self)@.wf(),
            i < old(self)@.chains.len(),
        ensures
            final(self)@.wf(),
            same_shape(old(self)@, final(self)@),
            recv_extends(old(self)@, final(self)@),
            final(self).ceiling == old(self).ceiling,
            r is Err ==> r->Err_0 != SimError::DeliveryDidNotConverge,
            r is Ok ==> forall|ch: Channel|
                ((#[trigger] old(self)@.chains[i as int].recv(ch)) + old(self)@.chains[i as int].inbox(
                    ch,
                )).is_prefix_of(final(self)@.chains[i as int].recv(ch)),
            r is Ok ==> forall|k: int, ch: Channel|
                0 <= k < old(self)@.chains.len() && k != i as int ==> (
                #[trigger] old(self)@.chains[k].recv(ch)) == final(self)@.chains[k].recv(ch)
                    && old(self)@.chains[k].inbox(ch).is_prefix_of(
                    final(self)@.chains[k].inbox(ch),
                ),
    {
        let ghost s_i = self@;
        let ghost v0 = self.chains@;
        let mut c = crate::network::blank_chain();
        self.chains.set_and_swap(i, &mut c);
        proof {
            assert(c@ == s_i.chains[i as int]);
        }
        let ghost c0 = c@;
        let mut d: Vec<Message> = Vec::new();
        let mut u: Vec<Message> = Vec::new();
        let mut h: Vec<Message> = Vec::new();
        core::mem::swap(&mut d, &mut c.inbox_down);
        core::mem::swap(&mut u, &mut c.inbox_up);
        core::mem::swap(&mut h, &mut c.inbox_horiz);
        let id = c.id;
        let pending_here = d.len() > 0 || u.len() > 0 || h.len() > 0;
        let outs = if pending_here {
            ex.execute(id, &mut c.state, &d, &u, &h)
        } else {
            Vec::new()
        };
        let ghost rdv = c.recv_down@;
        let ghost ruv = c.recv_up@;
        let ghost rhv = c.recv_horiz@;
        let ghost de = d@;
        let ghost ue = u@;
        let ghost he = h@;
        c.recv_down.append(&mut d);
        c.recv_up.append(&mut u);
        c.recv_horiz.append(&mut h);
        proof {
            lemma_map_values_add(rdv, de, |m: Message| m@);
            lemma_map_values_add(ruv, ue, |m: Message| m@);
            lemma_map_values_add(rhv, he, |m: Message| m@);
            assert(c@ =~= (ChainView { state: c@.state, ..c0.delivered() }));
        }
        let ghost c_snap = c;
        self.chains.set(i, c);
        proof {
            assert(self.chains@ =~= v0.update(i as int, c_snap));
            lemma_map_values_update(v0, i as int, c_snap, |x: ChainContext| x@);
            let nd = deliver_net(s_i, i as int);
            lemma_deliver_props(s_i, i as int);
            assert(self@ =~= NetworkView {
                chains: nd.chains.update(
                    i as int,
                    (ChainView { state: c_snap@.state, ..nd.chains[i as int] }),
                ),
                ..nd
            });
            lemma_state_update_wf(nd, i as int, c_snap@.state);
            assert(same_shape(nd, self@) && recv_extends(nd, self@)) by {
                lemma_state_shape(nd, i as int, c_snap@.state);
            }
            lemma_extends_trans(s_i, nd, self@);
            // the visited chain's log now ends with its old inbox
            assert forall|ch: Channel|
                #[trigger] self@.chains[i as int].recv(ch) == s_i.chains[i as int].recv(ch)
                + s_i.chains[i as int].inbox(ch) by {
                lemma_delivered_frame(s_i.chains[i as int], ch);
                assert(self@.chains[i as int].recv(ch) == nd.chains[i as int].recv(ch));
            }
            assert forall|k: int|
                0 <= k < s_i.chains.len() && k != i as int implies (#[trigger] self@.chains[k])
                == s_i.chains[k] by {}
        }
        let ghost s_d = self@;
        match self.enqueue_batch(id, outs) {
            Ok(()) => {},
            Err(e) => {
                proof {
                    lemma_generic_enqueue_props(s_d, id as int, outs@.map_values(|o: Outbound| o@));
                    lemma_enqueue_all_err_kind(s_d, id as int, outs@.map_values(|o: Outbound| o@));
                    lemma_extends_trans(s_i, s_d, self@);
                }
                return Err(e);
            },
        }
        proof {
            let ghost ov = outs@.map_values(|o: Outbound| o@);
            lemma_generic_enqueue_props(s_d, id as int, ov);
            lemma_enqueue_all_props(s_d, id as int, ov);
            lemma_extends_trans(s_i, s_d, self@);
            // enqueueing left every log alone and only appended to inboxes
            assert forall|ch: Channel|
                ((#[trigger] s_i.chains[i as int].recv(ch)) + s_i.chains[i as int].inbox(
                    ch,
                )).is_prefix_of(self@.chains[i as int].recv(ch)) by {
                assert(self@.chains[i as int].recv(ch) == s_d.chains[i as int].recv(ch));
                lemma_prefix_refl(s_d.chains[i as int].recv(ch));
            }
            assert forall|k: int, ch: Channel|
                0 <= k < s_i.chains.len() && k != i as int implies (
            #[trigger] s_i.chains[k].recv(ch)) == self@.chains[k].recv(ch)
                && s_i.chains[k].inbox(ch).is_prefix_of(self@.chains[k].inbox(ch)) by {
                assert(self@.chains[k].recv(ch) == s_d.chains[k].recv(ch));
                assert(s_d.chains[k] == s_i.chains[k]);
                assert(s_d.chains[k].inbox(ch).is_prefix_of(self@.chains[k].inbox(ch)));
            }
        }
        Ok(())
    }

    /// One round with an arbitrary executor: every chain with pending
    /// inbound messages absorbs them and is run, in dispatch order.
    /// On success, everything that was pending at the start of the
    /// round stands appended, in order, to the matching logs.
    fn round_with<E: Executor>(&mut self, ex: &mut E) -> (r: Result<(), SimError>)
        requires
            old(self)@.wf(),
        ensures
            final(self)@.wf(),
            same_shape(old(self)@, final(self)@),
            recv_extends(old(self)@, final(self)@),
            final(self).ceiling == old(self).ceiling,
            r is Err ==> r->Err_0 != SimError::DeliveryDidNotConverge,
            r is Ok ==> pending_absorbed(old(self)@, final(self)@),
    {
        proof {
            lemma_refl_extends(self@);
            assert forall|k: int, ch: Channel|
                0 <= k < self@.chains.len() implies (#[trigger] self@.chains[k].inbox(
                ch,
            )).is_prefix_of(self@.chains[k].inbox(ch)) by {
                lemma_prefix_refl(self@.chains[k].inbox(ch));
            }
        }
        let n = self.chains.len();
        let mut i: usize = 0;
        while i < n
            invariant
                0 <= i <= n,
                n == self.chains@.len(),
                self@.wf(),
                same_shape(old(self)@, self@),
                recv_extends(old(self)@, self@),
                self.ceiling == old(self).ceiling,
                forall|k: int, ch: Channel|
                    0 <= k < i ==> ((#[trigger] old(self)@.chains[k].recv(ch))
                        + old(self)@.chains[k].inbox(ch)).is_prefix_of(
                        self@.chains[k].recv(ch),
                    ),
                forall|k: int, ch: Channel|
                    i <= k < n ==> (#[trigger] old(self)@.chains[k].recv(ch))
                        == self@.chains[k].recv(ch) && old(self)@.chains[k].inbox(
                        ch,
                    ).is_prefix_of(self@.chains[k].inbox(ch)),
            decreases n - i,
        {
            let ghost cur = self@;
            match self.visit_chain_with(i, ex) {
                Ok(()) => {},
                Err(e) => {
                    proof {
                        lemma_extends_trans(old(self)@, cur, self@);
                    }
                    return Err(e);
                },
            }
            proof {
                lemma_extends_trans(old(self)@, cur, self@);
                assert forall|k: int, ch: Channel|
                    0 <= k <= i as int && k < n as int implies ((
                #[trigger] old(self)@.chains[k].recv(ch)) + old(self)@.chains[k].inbox(
                    ch,
                )).is_prefix_of(self@.chains[k].recv(ch)) by {
                    if k == i as int {
                        // this visit absorbed what the chain held at round start
                        assert((cur.chains[k].recv(ch) + cur.chains[k].inbox(ch)).is_prefix_of(
                            self@.chains[k].recv(ch),
                        ));
                        assert(old(self)@.chains[k].recv(ch) == cur.chains[k].recv(ch));
                        lemma_prefix_append(
                            old(self)@.chains[k].recv(ch),
                            old(self)@.chains[k].inbox(ch),
                            cur.chains[k].inbox(ch),
                        );
                        lemma_prefix_trans(
                            old(self)@.chains[k].recv(ch) + old(self)@.chains[k].inbox(ch),
                            cur.chains[k].recv(ch) + cur.chains[k].inbox(ch),
                            self@.chains[k].recv(ch),
                        );
                    } else {
                        // earlier visits' gains are untouched by this one
                        assert(cur.chains[k].recv(ch) == self@.chains[k].recv(ch));
                    }
                }
                assert forall|k: int, ch: Channel|
                    (i as int) < k && k < n as int implies (#[trigger] old(self)@.chains[k].recv(
                    ch,
                )) == self@.chains[k].recv(ch) && old(self)@.chains[k].inbox(ch).is_prefix_of(
                    self@.chains[k].inbox(ch),
                ) by {
                    assert(old(self)@.chains[k].recv(ch) == cur.chains[k].recv(ch));
                    assert(old(self)@.chains[k].inbox(ch).is_prefix_of(cur.chains[k].inbox(ch)));
                    assert(cur.chains[k].recv(ch) == self@.chains[k].recv(ch));
                    assert(cur.chains[k].inbox(ch).is_prefix_of(self@.chains[k].inbox(ch)));
                    lemma_prefix_trans(
                        old(self)@.chains[k].inbox(ch),
                        cur.chains[k].inbox(ch),
                        self@.chains[k].inbox(ch),
                    );
                }
            }
            i = i + 1;
        }
        Ok(())
    }
}

/// An enqueue run can fail only on an endpoint, a route or a sequence
/// counter.
proof fn lemma_enqueue_all_err_kind(n: NetworkView, from: int, outs: Seq<OutboundView>)
    ensures
        forall|e: SimError|
            enqueue_all(n, from, outs).1 == Some(e) ==> e == SimError::UnknownChain || e
                == SimError::InvalidRoute || e == SimError::SequenceExhausted,
    decreases outs.len(),
{
    if outs.len() > 0 {
        match n.enqueue_err(from, outs[0]) {
            Some(e) => {},
            None => {
                lemma_enqueue_all_err_kind(n.enqueue_ok(from, outs[0]), from, outs.drop_first());
            },
        }
    }
}

/// A network extends itself.
proof fn lemma_refl_extends(n: NetworkView)
    ensures
        same_shape(n, n),
        recv_extends(n, n),
{
    assert forall|j: int, ch: Channel|
        0 <= j < n.chains.len() implies (#[trigger] n.chains[j].recv(ch)).is_prefix_of(
        n.chains[j].recv(ch),
    ) by {
        assert(n.chains[j].recv(ch) =~= n.chains[j].recv(ch).subrange(
            0,
            n.chains[j].recv(ch).len() as int,
        ));
    }
}

/// An enqueue run keeps the shape and the logs, whatever it enqueued.
proof fn lemma_generic_enqueue_props(n: NetworkView, from: int, outs: Seq<OutboundView>)
    requires
        n.wf(),
    ensures
        same_shape(n, enqueue_all(n, from, outs).0),
        recv_extends(n, enqueue_all(n, from, outs).0),
{
    lemma_enqueue_all_props(n, from, outs);
    let r = enqueue_all(n, from, outs).0;
    assert forall|j: int, ch: Channel|
        0 <= j < n.chains.len() implies (#[trigger] n.chains[j].recv(ch)).is_prefix_of(
        r.chains[j].recv(ch),
    ) by {
        assert(r.chains[j].recv(ch) == n.chains[j].recv(ch));
        assert(n.chains[j].recv(ch) =~= n.chains[j].recv(ch).subrange(
            0,
            n.chains[j].recv(ch).len() as int,
        ));
    }
}

/// Replacing one chain's state handle keeps the shape and the logs.
proof fn lemma_state_shape(n: NetworkView, i: int, st: Seq<u8>)
    requires
        0 <= i < n.chains.len(),
    ensures
        same_shape(
            n,
            (NetworkView {
                chains: n.chains.update(i, (ChainView { state: st, ..n.chains[i] })),
                ..n
            }),
        ),
        recv_extends(
            n,
            (NetworkView {
                chains: n.chains.update(i, (ChainView { state: st, ..n.chains[i] })),
                ..n
            }),
        ),
{
    let r = NetworkView {
        chains: n.chains.update(i, (ChainView { state: st, ..n.chains[i] })),
        ..n
    };
    assert forall|j: int, ch: Channel|
        0 <= j < n.chains.len() implies (#[trigger] n.chains[j].recv(ch)).is_prefix_of(
        r.chains[j].recv(ch),
    ) by {
        if j == i {
            assert(r.chains[j].recv(ch) == n.chains[j].recv(ch));
        }
        assert(n.chains[j].recv(ch) =~= n.chains[j].recv(ch).subrange(
            0,
            n.chains[j].recv(ch).len() as int,
        ));
    }
}

/// Replacing one chain's opaque state handle preserves
/// well-formedness: the handle takes no part in any invariant.
pub proof fn lemma_state_update_wf(n: NetworkView, i: int, st: Seq<u8>)
    requires
        n.wf(),
        0 <= i < n.chains.len(),
    ensures
        (NetworkView {
            chains: n.chains.update(i, (ChainView { state: st, ..n.chains[i] })),
            ..n
        }).wf(),
{
    let c0 = n.chains[i];
    let c1 = ChainView { state: st, ..c0 };
    let r = NetworkView { chains: n.chains.update(i, c1), ..n };
    assert forall|j: int|
        0 <= j < r.chains.len() implies (#[trigger] r.chains[j]).msgs_ok(r.topo) by {
        if j == i {
            assert forall|ch: Channel, k: int|
                0 <= k < c1.inbox(ch).len() implies msg_ok(
                n.topo,
                c1.id,
                ch,
                #[trigger] c1.inbox(ch)[k],
            ) by {
                assert(c1.inbox(ch) == c0.inbox(ch));
                assert(msg_ok(n.topo, c0.id, ch, c0.inbox(ch)[k]));
            }
            assert forall|ch: Channel, k: int|
                0 <= k < c1.recv(ch).len() implies msg_ok(
                n.topo,
                c1.id,
                ch,
                #[trigger] c1.recv(ch)[k],
            ) by {
                assert(c1.recv(ch) == c0.recv(ch));
                assert(msg_ok(n.topo, c0.id, ch, c0.recv(ch)[k]));
            }
        } else {
            assert(r.chains[j] == n.chains[j]);
        }
    }
    assert forall|j: int, ch: Channel|
        0 <= j < r.chains.len() implies 0 <= (#[trigger] r.chains[j].seq_no(ch))
        <= u64::MAX as int by {
        if j == i {
            assert(c1.seq_no(ch) == c0.seq_no(ch));
        }
    }
}

} // verus!
