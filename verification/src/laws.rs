//! The laws of the simulator, stated over the mathematical model and
//! proved once and for all: resetting is idempotent, a run is a
//! function of its inputs, the routing rules refuse what the topology
//! refuses, a drain whose rounds strictly shrink the in-flight count
//! converges, and what a chain had pending is absorbed in order.

use crate::dispatch::{
    drain_rec, drain_spec, enqueue_all, execute_spec, lemma_deliver_props,
    lemma_enqueue_all_props, lemma_enqueue_ok_props, lemma_round_from_props, lemma_step_props,
    round_from, round_spec, step_chain,
};
use crate::executor::RuleView;
use crate::network::{
    lemma_idx_of, lemma_member_has_chain, lemma_pending_sum_zero, ChainView, NetworkView,
};
use crate::seq_util::{lemma_prefix_append, lemma_prefix_refl, lemma_prefix_trans};
use crate::types::{Channel, MessageView, OutboundView, SimError};
use vstd::prelude::*;

verus! {

/// Law: resetting a network twice leaves exactly the observable state
/// that resetting it once leaves.
pub proof fn lemma_reset_idempotent(n: NetworkView)
    ensures
        n.reset_spec().reset_spec() == n.reset_spec(),
{
    assert(n.reset_spec().reset_spec() =~~= n.reset_spec());
}

/// One harness call, by its observable inputs: the chain activated, the
/// state handle the closure left behind, and the send requests it made.
#[verifier::ext_equal]
pub struct CallView {
    pub chain: int,
    pub newstate: Seq<u8>,
    pub sends: Seq<OutboundView>,
}

/// A whole scenario: the harness calls applied in order, stopping at
/// the first error, each followed by its fixed-point drain.
pub open spec fn run_calls(n: NetworkView, calls: Seq<CallView>, rules: Seq<RuleView>) -> (
    NetworkView,
    Option<SimError>,
)
    decreases calls.len(),
{
    if calls.len() == 0 {
        (n, None)
    } else {
        let r = execute_spec(n, calls[0].chain, calls[0].newstate, calls[0].sends, rules);
        if r.1 is Some {
            r
        } else {
            run_calls(r.0, calls.drop_first(), rules)
        }
    }
}

/// Law: the simulator is deterministic.  Two independently constructed
/// networks in the same state, fed the same sequence of harness calls
/// under the same executor rules, end in the same state — in
/// particular, every absorbed-message log is identical.
pub proof fn lemma_determinism(
    n1: NetworkView,
    n2: NetworkView,
    calls: Seq<CallView>,
    rules: Seq<RuleView>,
)
    requires
        n1 == n2,
    ensures
        run_calls(n1, calls, rules) == run_calls(n2, calls, rules),
        forall|id: int, ch: Channel| #![all_triggers]
            run_calls(n1, calls, rules).0.received_log(id, ch) == run_calls(
                n2,
                calls,
                rules,
            ).0.received_log(id, ch),
{
}

/// Law: a send naming an endpoint absent from the topology is refused
/// with `UnknownChain`, whatever the channel.
pub proof fn lemma_unregistered_endpoint_refused(n: NetworkView, from: int, o: OutboundView)
    requires
        n.wf(),
        !n.topo.is_member(from) || !n.topo.is_member(o.to),
    ensures
        n.enqueue_err(from, o) == Some(SimError::UnknownChain),
{
}

/// Law: a horizontal send between two member chains, one of which is
/// the relay, is refused with `InvalidRoute`.  (With an endpoint
/// absent from the topology the refusal is `UnknownChain` instead.)
pub proof fn lemma_horizontal_relay_refused(n: NetworkView, from: int, o: OutboundView)
    requires
        n.wf(),
        o.channel == Channel::Horizontal,
        n.topo.is_member(from),
        n.topo.is_member(o.to),
        from == n.topo.relay || o.to == n.topo.relay,
    ensures
        n.enqueue_err(from, o) == Some(SimError::InvalidRoute),
{
    if n.topo.route_ok(from, o.to, o.channel) {
        if from == n.topo.relay {
            let w = choose|i: int| 0 <= i < n.topo.paras.len() && n.topo.paras[i] == from;
            assert(n.topo.paras[w] > 0);
        } else {
            let w = choose|i: int| 0 <= i < n.topo.paras.len() && n.topo.paras[i] == o.to;
            assert(n.topo.paras[w] > 0);
        }
    }
}

/// Law: a horizontal send from a member chain to itself is refused
/// with `InvalidRoute`.
pub proof fn lemma_horizontal_self_refused(n: NetworkView, from: int, o: OutboundView)
    requires
        n.wf(),
        o.channel == Channel::Horizontal,
        n.topo.is_member(from),
        o.to == from,
    ensures
        n.enqueue_err(from, o) == Some(SimError::InvalidRoute),
{
}

/// Convergence induction: while the in-flight count is within the
/// remaining fuel and every round strictly shrinks it, the drain ends
/// without error.
proof fn lemma_decreasing_drain_rec(
    n: NetworkView,
    rules: Seq<RuleView>,
    fuel: nat,
    t: crate::topology::TopologyView,
)
    requires
        n.wf(),
        n.topo == t,
        n.pending_total() <= fuel,
        forall|m: NetworkView|
            m.wf() && m.topo == t && m.pending_total() > 0 ==> (#[trigger] round_spec(
                m,
                rules,
            )).1 is None && round_spec(m, rules).0.pending_total() < m.pending_total(),
    ensures
        drain_rec(n, rules, fuel).1 is None,
    decreases fuel,
{
    if n.pending_total() == 0 {
    } else {
        let r = round_spec(n, rules);
        lemma_round_from_props(n, rules, 0, n.chains.len());
        lemma_decreasing_drain_rec(r.0, rules, (fuel - 1) as nat, t);
    }
}

/// Law (convergence): a scenario whose rounds strictly shrink the
/// number of in-flight messages — and which starts with no more
/// in-flight messages than the ceiling allows rounds — always drains
/// completely, well before the ceiling can fail it.
pub proof fn lemma_decreasing_drain_converges(n: NetworkView, rules: Seq<RuleView>)
    requires
        n.wf(),
        n.pending_total() <= n.ceiling,
        forall|m: NetworkView|
            m.wf() && m.topo == n.topo && m.pending_total() > 0 ==> (#[trigger] round_spec(
                m,
                rules,
            )).1 is None && round_spec(m, rules).0.pending_total() < m.pending_total(),
    ensures
        drain_spec(n, rules).1 is None,
{
    lemma_decreasing_drain_rec(n, rules, n.ceiling as nat, n.topo);
}

/// During the rest of one error-free round, every chain not yet
/// visited absorbs everything it had pending — appended, in order, to
/// its log — and the logs of visited chains only grow.
proof fn lemma_round_from_absorbs(n: NetworkView, rules: Seq<RuleView>, i: int, fuel: nat)
    requires
        n.wf(),
        0 <= i,
        n.chains.len() - i <= fuel,
        round_from(n, rules, i, fuel).1 is None,
    ensures
        forall|k: int, ch: Channel|
            i <= k < n.chains.len() ==> ((#[trigger] n.chains[k].recv(ch))
                + n.chains[k].inbox(ch)).is_prefix_of(
                round_from(n, rules, i, fuel).0.chains[k].recv(ch),
            ),
        forall|k: int, ch: Channel|
            0 <= k < i && k < n.chains.len() ==> (#[trigger] n.chains[k].recv(ch)).is_prefix_of(
                round_from(n, rules, i, fuel).0.chains[k].recv(ch),
            ),
    decreases fuel,
{
    let r = round_from(n, rules, i, fuel);
    if i >= n.chains.len() {
        assert forall|k: int, ch: Channel| 0 <= k < n.chains.len() implies (
        #[trigger] n.chains[k].recv(ch)).is_prefix_of(r.0.chains[k].recv(ch)) by {
            lemma_prefix_refl(n.chains[k].recv(ch));
        }
    } else {
        let s = step_chain(n, rules, i);
        let n1 = crate::dispatch::deliver_net(n, i);
        let id = n.chains[i].id;
        let outs = crate::executor::scripted_out(rules, id, crate::dispatch::chain_batch(n, i));
        lemma_deliver_props(n, i);
        lemma_enqueue_all_props(n1, id, outs);
        lemma_step_props(n, rules, i);
        lemma_round_from_absorbs(s.0, rules, i + 1, (fuel - 1) as nat);
        let fin = round_from(s.0, rules, i + 1, (fuel - 1) as nat).0;
        assert(r.0 == fin);
        assert forall|k: int, ch: Channel|
            i <= k < n.chains.len() implies ((#[trigger] n.chains[k].recv(ch))
            + n.chains[k].inbox(ch)).is_prefix_of(r.0.chains[k].recv(ch)) by {
            crate::dispatch::lemma_delivered_frame(n.chains[k], ch);
            if k == i {
                assert(n1.chains[k].recv(ch) == n.chains[k].recv(ch) + n.chains[k].inbox(ch));
                assert(s.0.chains[k].recv(ch) == n1.chains[k].recv(ch));
                assert(s.0.chains[k].recv(ch).is_prefix_of(fin.chains[k].recv(ch)));
            } else {
                assert(n1.chains[k].recv(ch) == n.chains[k].recv(ch));
                assert(n1.chains[k].inbox(ch) == n.chains[k].inbox(ch));
                assert(s.0.chains[k].recv(ch) == n1.chains[k].recv(ch));
                assert(n1.chains[k].inbox(ch).is_prefix_of(s.0.chains[k].inbox(ch)));
                assert((s.0.chains[k].recv(ch) + s.0.chains[k].inbox(ch)).is_prefix_of(
                    fin.chains[k].recv(ch),
                ));
                lemma_prefix_append(
                    n.chains[k].recv(ch),
                    n.chains[k].inbox(ch),
                    s.0.chains[k].inbox(ch),
                );
                lemma_prefix_trans(
                    n.chains[k].recv(ch) + n.chains[k].inbox(ch),
                    s.0.chains[k].recv(ch) + s.0.chains[k].inbox(ch),
                    fin.chains[k].recv(ch),
                );
            }
        }
        assert forall|k: int, ch: Channel|
            0 <= k < i && k < n.chains.len() implies (#[trigger] n.chains[k].recv(
            ch,
        )).is_prefix_of(r.0.chains[k].recv(ch)) by {
            crate::dispatch::lemma_delivered_frame(n.chains[k], ch);
            assert(s.0.chains[k].recv(ch) == n.chains[k].recv(ch));
            assert(s.0.chains[k].recv(ch).is_prefix_of(fin.chains[k].recv(ch)));
        }
    }
}

/// Over a whole error-free drain, everything that was pending is
/// absorbed: each chain's log grows by exactly its old inbox first,
/// whatever later rounds append after it.
pub proof fn lemma_drain_absorbs_pending(n: NetworkView, rules: Seq<RuleView>, fuel: nat)
    requires
        n.wf(),
        drain_rec(n, rules, fuel).1 is None,
    ensures
        forall|k: int, ch: Channel|
            0 <= k < n.chains.len() ==> ((#[trigger] n.chains[k].recv(ch))
                + n.chains[k].inbox(ch)).is_prefix_of(
                drain_rec(n, rules, fuel).0.chains[k].recv(ch),
            ),
    decreases fuel,
{
    let r = drain_rec(n, rules, fuel);
    if n.pending_total() == 0 {
        lemma_pending_sum_zero(n.chains);
        assert forall|k: int, ch: Channel|
            0 <= k < n.chains.len() implies ((#[trigger] n.chains[k].recv(ch))
            + n.chains[k].inbox(ch)).is_prefix_of(r.0.chains[k].recv(ch)) by {
            assert(n.chains[k].pending() == 0);
            assert(n.chains[k].inbox(ch) =~= Seq::<MessageView>::empty());
            assert(n.chains[k].recv(ch) + n.chains[k].inbox(ch) =~= n.chains[k].recv(ch));
            lemma_prefix_refl(n.chains[k].recv(ch));
        }
    } else {
        let rr = round_spec(n, rules);
        lemma_round_from_props(n, rules, 0, n.chains.len());
        lemma_round_from_absorbs(n, rules, 0, n.chains.len());
        crate::dispatch::lemma_drain_rec_props(rr.0, rules, (fuel - 1) as nat);
        let fin = drain_rec(rr.0, rules, (fuel - 1) as nat).0;
        assert(r.0 == fin);
        assert forall|k: int, ch: Channel|
            0 <= k < n.chains.len() implies ((#[trigger] n.chains[k].recv(ch))
            + n.chains[k].inbox(ch)).is_prefix_of(r.0.chains[k].recv(ch)) by {
            assert((n.chains[k].recv(ch) + n.chains[k].inbox(ch)).is_prefix_of(
                rr.0.chains[k].recv(ch),
            ));
            assert(rr.0.chains[k].recv(ch).is_prefix_of(fin.chains[k].recv(ch)));
            lemma_prefix_trans(
                n.chains[k].recv(ch) + n.chains[k].inbox(ch),
                rr.0.chains[k].recv(ch),
                fin.chains[k].recv(ch),
            );
        }
    }
}

/// Law (ordering): two send requests made in one harness call toward
/// the same chain and channel are absorbed in the order they were
/// sent: right after everything the recipient already held, first the
/// one sent first, then the other, with strictly increasing sequence
/// numbers.
pub proof fn lemma_send_pair_ordering(
    n: NetworkView,
    chain: int,
    newstate: Seq<u8>,
    va: OutboundView,
    vb: OutboundView,
    rules: Seq<RuleView>,
)
    requires
        n.wf(),
        n.has_chain(chain),
        va.to == vb.to,
        va.channel == vb.channel,
        execute_spec(n, chain, newstate, seq![va, vb], rules).1 is None,
    ensures
        ({
            let fin = execute_spec(n, chain, newstate, seq![va, vb], rules).0;
            let y = va.to;
            let ch = va.channel;
            let pa = n.chains[n.idx_of(y)].recv(ch).len() + n.chains[n.idx_of(y)].inbox(
                ch,
            ).len();
            &&& pa + 2 <= fin.received_log(y, ch).len()
            &&& fin.received_log(y, ch)[pa as int].from == chain
            &&& fin.received_log(y, ch)[pa as int].payload == va.payload
            &&& fin.received_log(y, ch)[pa as int + 1].from == chain
            &&& fin.received_log(y, ch)[pa as int + 1].payload == vb.payload
            &&& fin.received_log(y, ch)[pa as int].seq < fin.received_log(y, ch)[pa as int + 1].seq
        }),
{
    let sends = seq![va, vb];
    let y = va.to;
    let ch = va.channel;
    let i0 = n.idx_of(chain);
    lemma_idx_of(n, chain);
    let n1 = NetworkView {
        chains: n.chains.update(i0, (ChainView { state: newstate, ..n.chains[i0] })),
        ..n
    };
    crate::dispatch::lemma_state_update_wf(n, i0, newstate);
    assert(execute_spec(n, chain, newstate, sends, rules) == ({
        let r = enqueue_all(n1, chain, sends);
        if r.1 is Some {
            r
        } else {
            drain_spec(r.0, rules)
        }
    }));
    let eq = enqueue_all(n1, chain, sends);
    assert(eq.1 is None) by {
        if eq.1 is Some {
            assert(execute_spec(n, chain, newstate, sends, rules).1 is Some);
        }
    }
    // chain frame of the state update
    assert forall|k: int, c2: Channel| 0 <= k < n.chains.len() implies (#[trigger] n1.chains[k].recv(
        c2,
    )) == n.chains[k].recv(c2) && n1.chains[k].inbox(c2) == n.chains[k].inbox(c2)
        && n1.chains[k].seq_no(c2) == n.chains[k].seq_no(c2) && n1.chains[k].id
        == n.chains[k].id by {
        if k == i0 {
            assert(n1.chains[k] == (ChainView { state: newstate, ..n.chains[i0] }));
        }
    }
    // unfold the two enqueues
    assert(sends[0] == va && sends.len() == 2);
    assert(sends.drop_first() =~= seq![vb]);
    assert(seq![vb][0] == vb);
    assert(seq![vb].drop_first() =~= Seq::<OutboundView>::empty());
    assert(n1.has_chain(chain)) by {
        assert(n1.chains[i0].id == chain);
    }
    lemma_idx_of(n1, chain);
    assert(n1.idx_of(chain) == i0);
    assert(n1.enqueue_err(chain, va) is None) by {
        if n1.enqueue_err(chain, va) is Some {
            assert(eq.1 is Some);
        }
    }
    let n1a = n1.enqueue_ok(chain, va);
    lemma_enqueue_ok_props(n1, chain, va);
    crate::topology::lemma_route_endpoints(n1.topo, chain, y, ch);
    lemma_member_has_chain(n1, y);
    lemma_idx_of(n1, y);
    let ti = n1.idx_of(y);
    assert(n.chains[ti].id == y);
    assert(n.has_chain(y));
    lemma_idx_of(n, y);
    assert(n.idx_of(y) == ti);
    assert(ti != i0);
    let mA = MessageView {
        from: chain,
        to: y,
        channel: ch,
        payload: va.payload,
        seq: n1.chains[i0].seq_no(ch),
    };
    assert(n1a.chains[ti].inbox(ch) == n1.chains[ti].inbox(ch).push(mA));
    assert(enqueue_all(n1, chain, sends) == enqueue_all(n1a, chain, seq![vb]));
    // second enqueue
    assert(n1a.has_chain(chain)) by {
        assert(n1a.chains[i0].id == chain);
    }
    lemma_idx_of(n1a, chain);
    assert(n1a.idx_of(chain) == i0);
    assert(n1a.enqueue_err(chain, vb) is None) by {
        if n1a.enqueue_err(chain, vb) is Some {
            assert(enqueue_all(n1a, chain, seq![vb]).1 is Some);
        }
    }
    let n2 = n1a.enqueue_ok(chain, vb);
    lemma_enqueue_ok_props(n1a, chain, vb);
    lemma_idx_of(n1a, y);
    assert(n1a.idx_of(y) == ti) by {
        assert(n1a.chains[ti].id == y);
    }
    assert(n1a.chains[i0].seq_no(ch) == mA.seq + 1) by {
        crate::network::lemma_chain_ops_frame(n1.chains[i0], ch, ch, mA);
        assert(n1a.chains[i0] == n1.chains[i0].with_seq_bump(ch));
    }
    let mB = MessageView {
        from: chain,
        to: y,
        channel: ch,
        payload: vb.payload,
        seq: n1a.chains[i0].seq_no(ch),
    };
    assert(n2.chains[ti].inbox(ch) == n1a.chains[ti].inbox(ch).push(mB));
    assert(enqueue_all(n1a, chain, seq![vb]) == enqueue_all(n2, chain, Seq::<
        OutboundView,
    >::empty()));
    assert(enqueue_all(n2, chain, Seq::<OutboundView>::empty()) == (n2, None::<SimError>));
    assert(eq.0 == n2);
    // the recipient's queues going into the drain
    let recv0 = n.chains[ti].recv(ch);
    let inbox0 = n.chains[ti].inbox(ch);
    assert(n2.chains[ti].recv(ch) == recv0) by {
        assert(n1a.chains[ti].recv(ch) == n1.chains[ti].recv(ch));
        assert(n2.chains[ti].recv(ch) == n1a.chains[ti].recv(ch));
    }
    assert(n2.chains[ti].inbox(ch) == inbox0.push(mA).push(mB));
    // the drain absorbs everything pending, in order
    assert(drain_spec(n2, rules).1 is None);
    lemma_drain_absorbs_pending(n2, rules, n2.ceiling as nat);
    let fin = drain_spec(n2, rules).0;
    assert((n2.chains[ti].recv(ch) + n2.chains[ti].inbox(ch)).is_prefix_of(
        fin.chains[ti].recv(ch),
    ));
    crate::dispatch::lemma_drain_rec_props(n2, rules, n2.ceiling as nat);
    assert(fin.has_chain(y)) by {
        assert(fin.chains[ti].id == n2.chains[ti].id);
        assert(n2.chains[ti].id == y);
    }
    lemma_idx_of(fin, y);
    assert(fin.idx_of(y) == ti) by {
        assert(fin.chains[ti].id == y);
    }
    let pre = recv0 + inbox0.push(mA).push(mB);
    let log = fin.chains[ti].recv(ch);
    assert(pre.is_prefix_of(log));
    assert(pre =~= log.subrange(0, pre.len() as int));
    let pa = recv0.len() + inbox0.len();
    assert(pre[pa as int] == mA);
    assert(pre[pa as int + 1] == mB);
    assert(log[pa as int] == mA);
    assert(log[pa as int + 1] == mB);
    assert(fin.received_log(y, ch) == log);
}

} // verus!
