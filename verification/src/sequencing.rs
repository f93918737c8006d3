//! Sequence-number soundness: every message carries the stamp of its
//! sender's per-channel counter, so within each chain's delivery
//! stream — everything absorbed, followed by everything still pending,
//! per channel — messages from one sender appear with strictly
//! increasing sequence numbers, and every stamp lies below the
//! sender's current counter.
//!
//! [`seq_sound`] holds of a fresh network, is preserved by every
//! transition of the dispatcher, and yields the delivery-order law
//! [`lemma_received_seq_increasing`].

use crate::dispatch::{
    chain_batch, deliver_net, drain_rec, enqueue_all, execute_spec, lemma_enqueue_ok_props,
    round_from, round_spec, step_chain,
};
use crate::executor::{scripted_out, RuleView};
use crate::network::{lemma_chain_ops_frame, lemma_idx_of, lemma_member_has_chain, ChainView,
    NetworkView};
use crate::types::{Channel, MessageView, OutboundView};
use vstd::prelude::*;

verus! {

/// One chain's delivery stream on one channel: what it has absorbed,
/// then what is still pending, in order.
pub open spec fn stream(c: ChainView, ch: Channel) -> Seq<MessageView> {
    c.recv(ch) + c.inbox(ch)
}

/// Within every delivery stream, messages of one sender carry strictly
/// increasing sequence numbers.
pub open spec fn streams_increasing(n: NetworkView) -> bool {
    forall|i: int, ch: Channel, k1: int, k2: int|
        0 <= i < n.chains.len() && 0 <= k1 < k2 < stream(n.chains[i], ch).len() && (
        #[trigger] stream(n.chains[i], ch)[k1]).from == (#[trigger] stream(n.chains[i], ch)[k2]).from
            ==> stream(n.chains[i], ch)[k1].seq < stream(n.chains[i], ch)[k2].seq
}

/// Every stamp lies strictly below its sender's current counter for
/// that channel.
pub open spec fn stamps_below_counters(n: NetworkView) -> bool {
    forall|i: int, ch: Channel, k: int|
        0 <= i < n.chains.len() && 0 <= k < stream(n.chains[i], ch).len() && n.has_chain(
            (#[trigger] stream(n.chains[i], ch)[k]).from,
        ) ==> stream(n.chains[i], ch)[k].seq < n.chains[n.idx_of(stream(n.chains[i], ch)[k].from)].seq_no(
            ch,
        )
}

/// Sequence-number soundness of the whole network.
pub open spec fn seq_sound(n: NetworkView) -> bool {
    streams_increasing(n) && stamps_below_counters(n)
}

/// A network whose queues and logs are all empty is vacuously sound.
pub proof fn lemma_seq_sound_when_quiet(n: NetworkView)
    requires
        forall|i: int, ch: Channel|
            0 <= i < n.chains.len() ==> (#[trigger] n.chains[i].recv(ch)).len() == 0 && n.chains[i].inbox(
                ch,
            ).len() == 0,
    ensures
        seq_sound(n),
{
    assert forall|i: int, ch: Channel|
        0 <= i < n.chains.len() implies stream(n.chains[i], ch).len() == 0 by {
        assert(n.chains[i].recv(ch).len() == 0);
        assert(n.chains[i].inbox(ch).len() == 0);
    }
}

/// One accepted enqueue preserves soundness: the new message is
/// stamped with the sender's counter, which tops every earlier stamp
/// of that sender, and the counter then advances.
pub proof fn lemma_seq_sound_enqueue_ok(n: NetworkView, from: int, o: OutboundView)
    requires
        n.wf(),
        seq_sound(n),
        n.enqueue_err(from, o) is None,
    ensures
        seq_sound(n.enqueue_ok(from, o)),
{
    lemma_enqueue_ok_props(n, from, o);
    crate::topology::lemma_route_endpoints(n.topo, from, o.to, o.channel);
    lemma_member_has_chain(n, from);
    lemma_member_has_chain(n, o.to);
    lemma_idx_of(n, from);
    lemma_idx_of(n, o.to);
    let r = n.enqueue_ok(from, o);
    let fi = n.idx_of(from);
    let ti = n.idx_of(o.to);
    assert(fi != ti);
    let m = MessageView {
        from: from,
        to: o.to,
        channel: o.channel,
        payload: o.payload,
        seq: n.chains[fi].seq_no(o.channel),
    };
    crate::network::lemma_wf_ids_distinct(n);
    // idx_of and has_chain agree between the two networks
    assert forall|f: int| r.has_chain(f) implies n.has_chain(f) && r.idx_of(f) == n.idx_of(
        f,
    ) by {
        let w = choose|w: int| 0 <= w < r.chains.len() && (#[trigger] r.chains[w]).id == f;
        assert(n.chains[w].id == f);
        lemma_idx_of_same_ids_both(n, r, f);
    }
    // how each stream changed
    assert forall|i: int, ch: Channel|
        0 <= i < n.chains.len() implies stream(r.chains[i], ch) == if i == ti && ch == o.channel {
        stream(n.chains[i], ch).push(m)
    } else {
        stream(n.chains[i], ch)
    } by {
        lemma_chain_ops_frame(n.chains[i], o.channel, ch, m);
        if i == ti && ch == o.channel {
            assert(r.chains[i].recv(ch) == n.chains[i].recv(ch));
            assert(r.chains[i].inbox(ch) == n.chains[i].inbox(ch).push(m));
            assert(n.chains[i].recv(ch) + n.chains[i].inbox(ch).push(m) =~= (n.chains[i].recv(ch)
                + n.chains[i].inbox(ch)).push(m));
        } else if i == ti {
            assert(stream(r.chains[i], ch) == stream(n.chains[i], ch));
        } else if i == fi {
            assert(stream(r.chains[i], ch) == stream(n.chains[i], ch));
        } else {
            assert(r.chains[i] == n.chains[i]);
        }
    }
    // counters: only the sender's, on this channel, advanced
    assert forall|f: int, ch: Channel|
        n.has_chain(f) implies r.chains[n.idx_of(f)].seq_no(ch) == if f == from && ch
        == o.channel {
        n.chains[n.idx_of(f)].seq_no(ch) + 1
    } else {
        n.chains[n.idx_of(f)].seq_no(ch)
    } by {
        lemma_idx_of(n, f);
        lemma_chain_ops_frame(n.chains[n.idx_of(f)], o.channel, ch, m);
        if n.idx_of(f) == fi {
            assert(f == from);
        } else if n.idx_of(f) == ti {
            assert(r.chains[ti].seq_no(ch) == n.chains[ti].seq_no(ch));
        } else {
            assert(r.chains[n.idx_of(f)] == n.chains[n.idx_of(f)]);
        }
    }
    assert forall|i: int, ch: Channel, k1: int, k2: int|
        0 <= i < r.chains.len() && 0 <= k1 < k2 < stream(r.chains[i], ch).len() && (
        #[trigger] stream(r.chains[i], ch)[k1]).from == (#[trigger] stream(r.chains[i], ch)[k2]).from
        implies stream(r.chains[i], ch)[k1].seq < stream(r.chains[i], ch)[k2].seq by {
        if i == ti && ch == o.channel {
            let s0 = stream(n.chains[i], ch);
            assert(stream(r.chains[i], ch) == s0.push(m));
            if k2 < s0.len() {
                assert(s0[k1] == stream(r.chains[i], ch)[k1]);
                assert(s0[k2] == stream(r.chains[i], ch)[k2]);
            } else {
                assert(stream(r.chains[i], ch)[k2] == m);
                assert(s0[k1] == stream(r.chains[i], ch)[k1]);
                if s0[k1].from == from {
                    assert(n.has_chain(from));
                    assert(s0[k1].seq < n.chains[fi].seq_no(ch));
                }
            }
        } else {
            assert(stream(r.chains[i], ch) == stream(n.chains[i], ch));
        }
    }
    assert forall|i: int, ch: Channel, k: int|
        0 <= i < r.chains.len() && 0 <= k < stream(r.chains[i], ch).len() && r.has_chain(
            (#[trigger] stream(r.chains[i], ch)[k]).from,
        ) implies stream(r.chains[i], ch)[k].seq < r.chains[r.idx_of(
        stream(r.chains[i], ch)[k].from,
    )].seq_no(ch) by {
        let f = stream(r.chains[i], ch)[k].from;
        assert(n.has_chain(f) && r.idx_of(f) == n.idx_of(f));
        if i == ti && ch == o.channel && k == stream(n.chains[i], ch).len() {
            assert(stream(r.chains[i], ch)[k] == m);
            assert(f == from);
            assert(r.chains[fi].seq_no(ch) == n.chains[fi].seq_no(ch) + 1);
        } else {
            assert(stream(r.chains[i], ch)[k] == stream(n.chains[i], ch)[k]);
            assert(stream(n.chains[i], ch)[k].seq < n.chains[n.idx_of(f)].seq_no(ch));
            assert(r.chains[n.idx_of(f)].seq_no(ch) >= n.chains[n.idx_of(f)].seq_no(ch));
        }
    }
}

/// Delivery moves a chain's pending messages into its log without
/// changing the delivery stream at all, so soundness is untouched.
pub proof fn lemma_seq_sound_deliver(n: NetworkView, i: int)
    requires
        n.wf(),
        0 <= i < n.chains.len(),
        seq_sound(n),
    ensures
        seq_sound(deliver_net(n, i)),
{
    let r = deliver_net(n, i);
    assert forall|k: int, ch: Channel|
        0 <= k < n.chains.len() implies #[trigger] stream(r.chains[k], ch) == stream(
        n.chains[k],
        ch,
    ) by {
        crate::dispatch::lemma_delivered_frame(n.chains[k], ch);
        if k == i {
            assert(r.chains[k].recv(ch) == n.chains[k].recv(ch) + n.chains[k].inbox(ch));
            assert(r.chains[k].inbox(ch) == Seq::<MessageView>::empty());
            assert((n.chains[k].recv(ch) + n.chains[k].inbox(ch)) + Seq::<MessageView>::empty()
                =~= n.chains[k].recv(ch) + n.chains[k].inbox(ch));
        } else {
            assert(r.chains[k] == n.chains[k]);
        }
    }
    assert forall|f: int| r.has_chain(f) implies n.has_chain(f) && r.idx_of(f) == n.idx_of(f)
        && r.chains[r.idx_of(f)].seq_no(Channel::Downward) == n.chains[n.idx_of(f)].seq_no(
        Channel::Downward,
    ) by {
        let w = choose|w: int| 0 <= w < r.chains.len() && (#[trigger] r.chains[w]).id == f;
        assert(n.chains[w].id == f) by {
            crate::dispatch::lemma_delivered_frame(n.chains[w], Channel::Downward);
        }
        lemma_idx_of_same_ids_both(n, r, f);
    }
    assert forall|i2: int, ch: Channel, k: int|
        0 <= i2 < r.chains.len() && 0 <= k < stream(r.chains[i2], ch).len() && r.has_chain(
            (#[trigger] stream(r.chains[i2], ch)[k]).from,
        ) implies stream(r.chains[i2], ch)[k].seq < r.chains[r.idx_of(
        stream(r.chains[i2], ch)[k].from,
    )].seq_no(ch) by {
        let f = stream(r.chains[i2], ch)[k].from;
        assert(stream(r.chains[i2], ch) == stream(n.chains[i2], ch));
        lemma_idx_of_same_ids_both(n, r, f);
        assert(stream(n.chains[i2], ch)[k].seq < n.chains[n.idx_of(f)].seq_no(ch));
        crate::dispatch::lemma_delivered_frame(n.chains[n.idx_of(f)], ch);
        if n.idx_of(f) == i {
            assert(r.chains[n.idx_of(f)].seq_no(ch) == n.chains[n.idx_of(f)].seq_no(ch));
        } else {
            assert(r.chains[n.idx_of(f)] == n.chains[n.idx_of(f)]);
        }
    }
}

/// A whole enqueue run preserves soundness, wherever it stops.
pub proof fn lemma_seq_sound_enqueue_all(n: NetworkView, from: int, outs: Seq<OutboundView>)
    requires
        n.wf(),
        seq_sound(n),
    ensures
        seq_sound(enqueue_all(n, from, outs).0),
    decreases outs.len(),
{
    if outs.len() > 0 {
        match n.enqueue_err(from, outs[0]) {
            Some(e) => {},
            None => {
                lemma_seq_sound_enqueue_ok(n, from, outs[0]);
                lemma_enqueue_ok_props(n, from, outs[0]);
                lemma_seq_sound_enqueue_all(
                    n.enqueue_ok(from, outs[0]),
                    from,
                    outs.drop_first(),
                );
            },
        }
    }
}

/// One chain visit preserves soundness.
pub proof fn lemma_seq_sound_step(n: NetworkView, rules: Seq<RuleView>, i: int)
    requires
        n.wf(),
        0 <= i < n.chains.len(),
        seq_sound(n),
    ensures
        seq_sound(step_chain(n, rules, i).0),
{
    lemma_seq_sound_deliver(n, i);
    crate::dispatch::lemma_deliver_props(n, i);
    lemma_seq_sound_enqueue_all(
        deliver_net(n, i),
        n.chains[i].id,
        scripted_out(rules, n.chains[i].id, chain_batch(n, i)),
    );
}

/// A partial round preserves soundness.
pub proof fn lemma_seq_sound_round_from(n: NetworkView, rules: Seq<RuleView>, i: int, fuel: nat)
    requires
        n.wf(),
        seq_sound(n),
    ensures
        seq_sound(round_from(n, rules, i, fuel).0),
    decreases fuel,
{
    if fuel == 0 || i < 0 || i >= n.chains.len() {
    } else {
        let s = step_chain(n, rules, i);
        lemma_seq_sound_step(n, rules, i);
        crate::dispatch::lemma_step_props(n, rules, i);
        if s.1 is Some {
        } else {
            lemma_seq_sound_round_from(s.0, rules, i + 1, (fuel - 1) as nat);
        }
    }
}

/// A whole drain preserves soundness.
pub proof fn lemma_seq_sound_drain_rec(n: NetworkView, rules: Seq<RuleView>, fuel: nat)
    requires
        n.wf(),
        seq_sound(n),
    ensures
        seq_sound(drain_rec(n, rules, fuel).0),
    decreases fuel,
{
    if n.pending_total() == 0 || fuel == 0 {
    } else {
        let r = round_spec(n, rules);
        lemma_seq_sound_round_from(n, rules, 0, n.chains.len());
        crate::dispatch::lemma_round_from_props(n, rules, 0, n.chains.len());
        if r.1 is Some {
        } else {
            lemma_seq_sound_drain_rec(r.0, rules, (fuel - 1) as nat);
        }
    }
}

/// A whole harness call preserves soundness.
pub proof fn lemma_seq_sound_execute(
    n: NetworkView,
    chain: int,
    newstate: Seq<u8>,
    sends: Seq<OutboundView>,
    rules: Seq<RuleView>,
)
    requires
        n.wf(),
        n.has_chain(chain),
        seq_sound(n),
    ensures
        seq_sound(execute_spec(n, chain, newstate, sends, rules).0),
{
    lemma_idx_of(n, chain);
    let i = n.idx_of(chain);
    let n1 = NetworkView {
        chains: n.chains.update(i, (ChainView { state: newstate, ..n.chains[i] })),
        ..n
    };
    crate::dispatch::lemma_state_update_wf(n, i, newstate);
    assert(seq_sound(n1)) by {
        assert forall|k: int, ch: Channel|
            0 <= k < n.chains.len() implies #[trigger] stream(n1.chains[k], ch) == stream(
            n.chains[k],
            ch,
        ) && n1.chains[k].seq_no(ch) == n.chains[k].seq_no(ch) by {
            if k == i {
                assert(n1.chains[k] == (ChainView { state: newstate, ..n.chains[i] }));
            }
        }
        assert forall|f: int| n1.has_chain(f) implies n.has_chain(f) && n1.idx_of(f) == n.idx_of(
            f,
        ) by {
            let w = choose|w: int| 0 <= w < n1.chains.len() && (#[trigger] n1.chains[w]).id == f;
            assert(n.chains[w].id == f) by {
                if w == i {
                    assert(n1.chains[w] == (ChainView { state: newstate, ..n.chains[i] }));
                }
            }
            lemma_idx_of_same_ids_both(n, n1, f);
        }
    }
    lemma_seq_sound_enqueue_all(n1, chain, sends);
    let r = enqueue_all(n1, chain, sends);
    if r.1 is Some {
    } else {
        crate::dispatch::lemma_enqueue_all_props(n1, chain, sends);
        lemma_seq_sound_drain_rec(r.0, rules, r.0.ceiling as nat);
    }
}

/// A network reset to genesis is sound again.
pub proof fn lemma_seq_sound_reset(n: NetworkView)
    ensures
        seq_sound(n.reset_spec()),
{
    let r = n.reset_spec();
    assert forall|i: int, ch: Channel|
        0 <= i < r.chains.len() implies (#[trigger] r.chains[i].recv(ch)).len() == 0
        && r.chains[i].inbox(ch).len() == 0 by {
        assert(r.chains[i] == n.chains[i].reset());
    }
    lemma_seq_sound_when_quiet(r);
}

/// Law: in every absorbed-message log, two messages of one sender
/// appear with strictly increasing sequence numbers — delivery order
/// never reorders a sender's messages on a channel.
pub proof fn lemma_received_seq_increasing(
    n: NetworkView,
    id: int,
    ch: Channel,
    k1: int,
    k2: int,
)
    requires
        n.wf(),
        seq_sound(n),
        n.has_chain(id),
        0 <= k1 < k2 < n.received_log(id, ch).len(),
        n.received_log(id, ch)[k1].from == n.received_log(id, ch)[k2].from,
    ensures
        n.received_log(id, ch)[k1].seq < n.received_log(id, ch)[k2].seq,
{
    lemma_idx_of(n, id);
    let i = n.idx_of(id);
    let c = n.chains[i];
    assert(stream(c, ch)[k1] == c.recv(ch)[k1]);
    assert(stream(c, ch)[k2] == c.recv(ch)[k2]);
}

/// Two networks with the same chain ids locate every chain at the same
/// position, in both directions.
proof fn lemma_idx_of_same_ids_both(a: NetworkView, b: NetworkView, f: int)
    requires
        a.wf(),
        b.chains.len() == a.chains.len(),
        forall|i: int| 0 <= i < a.chains.len() ==> (#[trigger] b.chains[i]).id == a.chains[i].id,
        a.has_chain(f) || b.has_chain(f),
    ensures
        b.has_chain(f) && a.has_chain(f),
        b.idx_of(f) == a.idx_of(f),
{
    if b.has_chain(f) {
        let w = choose|w: int| 0 <= w < b.chains.len() && (#[trigger] b.chains[w]).id == f;
        assert(a.chains[w].id == f);
    }
    lemma_idx_of(a, f);
    crate::network::lemma_wf_ids_distinct(a);
    assert(b.chains[a.idx_of(f)].id == f);
    let w = choose|w: int| 0 <= w < b.chains.len() && (#[trigger] b.chains[w]).id == f;
    assert(a.chains[b.idx_of(f)].id == f);
}

} // verus!
