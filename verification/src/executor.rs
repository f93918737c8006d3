//! The executor collaborator: the party that interprets message payloads.
//!
//! The dispatcher is agnostic to what a payload means.  It hands each
//! chain's pending inbound batch (the three channels in fixed order
//! downward, upward, horizontal) to an [`Executor`] and enqueues whatever
//! the executor emits, re-validating every route.
//!
//! [`ScriptedExecutor`] is a deterministic, table-driven executor: a list
//! of rules, each saying "on this chain, a message with exactly this
//! payload provokes these send requests".  Its reaction is specified
//! exactly by [`scripted_out`], which is what makes the whole drain loop
//! a mathematical function of the network state.

use crate::types::{copy_outbound, Message, MessageView, Outbound, OutboundView};
use vstd::prelude::*;

verus! {

/// The collaborator contract the core consumes: given the active chain,
/// a mutable borrow of that chain's opaque state handle, and the chain's
/// pending inbound messages (one ordered batch per channel, in the fixed
/// channel order), produce the send requests this delivery provokes.
///
/// Implementations live outside the simulator core and carry no
/// contract; the dispatcher validates everything they emit.
pub trait Executor {
    fn execute(
        &mut self,
        chain: u64,
        state: &mut Vec<u8>,
        downward: &Vec<Message>,
        upward: &Vec<Message>,
        horizontal: &Vec<Message>,
    ) -> Vec<Outbound>;
}

/// One reaction rule of a [`ScriptedExecutor`]: on chain `chain`, a
/// delivered message whose payload equals `trigger` provokes the send
/// requests in `emit`, in order.
pub struct Rule {
    pub chain: u64,
    pub trigger: Vec<u8>,
    pub emit: Vec<Outbound>,
}

/// Mathematical view of a [`Rule`].
#[verifier::ext_equal]
pub struct RuleView {
    pub chain: int,
    pub trigger: Seq<u8>,
    pub emit: Seq<OutboundView>,
}

impl View for Rule {
    type V = RuleView;

    open spec fn view(&self) -> RuleView {
        RuleView {
            chain: self.chain as int,
            trigger: self.trigger@,
            emit: self.emit@.map_values(|o: Outbound| o@),
        }
    }
}

/// A deterministic, stateless executor defined by a rule table.  For each
/// delivered message the first matching rule (same chain, payload equal
/// to the trigger) fires; a message no rule matches provokes nothing.
pub struct ScriptedExecutor {
    pub rules: Vec<Rule>,
}

impl View for ScriptedExecutor {
    type V = Seq<RuleView>;

    open spec fn view(&self) -> Seq<RuleView> {
        self.rules@.map_values(|r: Rule| r@)
    }
}

/// What the first matching rule emits for one payload delivered on
/// `chain`; empty if no rule matches.
pub open spec fn rule_response(rules: Seq<RuleView>, chain: int, payload: Seq<u8>) -> Seq<
    OutboundView,
>
    decreases rules.len(),
{
    if rules.len() == 0 {
        Seq::empty()
    } else if rules[0].chain == chain && rules[0].trigger == payload {
        rules[0].emit
    } else {
        rule_response(rules.drop_first(), chain, payload)
    }
}

/// The scripted executor's whole reaction to an ordered inbound batch:
/// the per-message responses, concatenated in delivery order.
pub open spec fn scripted_out(
    rules: Seq<RuleView>,
    chain: int,
    batch: Seq<MessageView>,
) -> Seq<OutboundView>
    decreases batch.len(),
{
    if batch.len() == 0 {
        Seq::empty()
    } else {
        rule_response(rules, chain, batch[0].payload) + scripted_out(
            rules,
            chain,
            batch.drop_first(),
        )
    }
}

/// Appending one message to a batch appends that message's response.
pub proof fn lemma_scripted_out_push(
    rules: Seq<RuleView>,
    chain: int,
    batch: Seq<MessageView>,
    m: MessageView,
)
    ensures
        scripted_out(rules, chain, batch.push(m)) == scripted_out(rules, chain, batch)
            + rule_response(rules, chain, m.payload),
    decreases batch.len(),
{
    if batch.len() == 0 {
        let s = batch.push(m);
        assert(s[0] == m);
        assert(s.drop_first() =~= Seq::<MessageView>::empty());
        assert(scripted_out(rules, chain, s.drop_first()) == Seq::<OutboundView>::empty());
        assert(scripted_out(rules, chain, s) == rule_response(rules, chain, m.payload) + Seq::<
            OutboundView,
        >::empty());
        assert(rule_response(rules, chain, m.payload) + Seq::<OutboundView>::empty()
            =~= rule_response(rules, chain, m.payload));
        assert(scripted_out(rules, chain, batch) == Seq::<OutboundView>::empty());
        assert(scripted_out(rules, chain, batch) + rule_response(rules, chain, m.payload)
            =~= rule_response(rules, chain, m.payload));
    } else {
        assert(batch.push(m).drop_first() =~= batch.drop_first().push(m));
        lemma_scripted_out_push(rules, chain, batch.drop_first(), m);
        assert(scripted_out(rules, chain, batch.push(m)) =~= scripted_out(rules, chain, batch)
            + rule_response(rules, chain, m.payload));
    }
}

/// The reaction to a concatenated batch is the concatenation of the
/// reactions.
pub proof fn lemma_scripted_out_add(
    rules: Seq<RuleView>,
    chain: int,
    a: Seq<MessageView>,
    b: Seq<MessageView>,
)
    ensures
        scripted_out(rules, chain, a + b) == scripted_out(rules, chain, a) + scripted_out(
            rules,
            chain,
            b,
        ),
    decreases b.len(),
{
    if b.len() == 0 {
        assert(a + b =~= a);
        assert(scripted_out(rules, chain, a) + scripted_out(rules, chain, b) =~= scripted_out(
            rules,
            chain,
            a,
        ));
    } else {
        let b0 = b.drop_last();
        assert(b =~= b0.push(b.last()));
        assert(a + b =~= (a + b0).push(b.last()));
        lemma_scripted_out_add(rules, chain, a, b0);
        lemma_scripted_out_push(rules, chain, a + b0, b.last());
        lemma_scripted_out_push(rules, chain, b0, b.last());
        assert(scripted_out(rules, chain, a + b) =~= scripted_out(rules, chain, a)
            + scripted_out(rules, chain, b));
    }
}

impl ScriptedExecutor {
    /// Wraps a rule table as an executor.
    pub fn new(rules: Vec<Rule>) -> (r: ScriptedExecutor)
        ensures
            r@ == rules@.map_values(|x: Rule| x@),
    {
        ScriptedExecutor { rules }
    }

    /// The response to one delivered payload: what the first matching
    /// rule emits.
    pub fn respond_payload(&self, chain: u64, payload: &Vec<u8>) -> (r: Vec<Outbound>)
        ensures
            r@.map_values(|o: Outbound| o@) == rule_response(self@, chain as int, payload@),
    {
        let n = self.rules.len();
        let mut i: usize = 0;
        proof {
            assert(self@.skip(0) =~= self@);
        }
        while i < n
            invariant
                0 <= i <= n,
                n == self.rules@.len(),
                rule_response(self@, chain as int, payload@) == rule_response(
                    self@.skip(i as int),
                    chain as int,
                    payload@,
                ),
                forall|j: int|
                    0 <= j < i ==> !((#[trigger] self@[j]).chain == chain as int && self@[j].trigger
                        == payload@),
            decreases n - i,
        {
            let rule = &self.rules[i];
            proof {
                assert(self@.skip(i as int)[0] == self@[i as int]);
                assert(self@.skip(i as int).drop_first() =~= self@.skip(i as int + 1));
            }
            if rule.chain == chain && rule.trigger == *payload {
                proof {
                    assert(rule.trigger@ =~= payload@);
                    assert(self@[i as int].trigger == payload@);
                }
                let mut out: Vec<Outbound> = Vec::new();
                let m = rule.emit.len();
                let mut k: usize = 0;
                while k < m
                    invariant
                        0 <= k <= m,
                        m == rule.emit@.len(),
                        out@.map_values(|o: Outbound| o@) == rule.emit@.map_values(
                            |o: Outbound| o@,
                        ).take(k as int),
                    decreases m - k,
                {
                    let ghost pre = out@;
                    out.push(copy_outbound(&rule.emit[k]));
                    proof {
                        crate::seq_util::lemma_map_values_push(
                            pre,
                            out@[out@.len() - 1],
                            |o: Outbound| o@,
                        );
                        assert(rule.emit@.map_values(|o: Outbound| o@).take(k as int).push(
                            rule.emit@[k as int]@,
                        ) =~= rule.emit@.map_values(|o: Outbound| o@).take(k as int + 1));
                    }
                    k = k + 1;
                }
                proof {
                    assert(rule.emit@.map_values(|o: Outbound| o@).take(m as int) =~= rule.emit@
                        .map_values(|o: Outbound| o@));
                    assert(self@[i as int].emit == rule.emit@.map_values(|o: Outbound| o@));
                }
                return out;
            }
            i = i + 1;
        }
        proof {
            assert(self@.skip(n as int) =~= Seq::<RuleView>::empty());
        }
        Vec::new()
    }

    /// The response to an ordered batch of delivered messages: the
    /// per-message responses, concatenated.
    pub fn respond_seq(&self, chain: u64, batch: &Vec<Message>) -> (r: Vec<Outbound>)
        ensures
            r@.map_values(|o: Outbound| o@) == scripted_out(
                self@,
                chain as int,
                batch@.map_values(|m: Message| m@),
            ),
    {
        let ghost bv = batch@.map_values(|m: Message| m@);
        let mut out: Vec<Outbound> = Vec::new();
        let n = batch.len();
        let mut i: usize = 0;
        proof {
            assert(bv.take(0) =~= Seq::<MessageView>::empty());
        }
        while i < n
            invariant
                0 <= i <= n,
                n == batch@.len(),
                bv == batch@.map_values(|m: Message| m@),
                out@.map_values(|o: Outbound| o@) == scripted_out(
                    self@,
                    chain as int,
                    bv.take(i as int),
                ),
            decreases n - i,
        {
            let mut next = self.respond_payload(chain, &batch[i].payload);
            let ghost pre = out@;
            let ghost nextv = next@;
            out.append(&mut next);
            proof {
                crate::seq_util::lemma_map_values_add(pre, nextv, |o: Outbound| o@);
                lemma_scripted_out_push(self@, chain as int, bv.take(i as int), bv[i as int]);
                assert(bv.take(i as int).push(bv[i as int]) =~= bv.take(i as int + 1));
                assert(bv[i as int].payload == batch@[i as int].payload@);
            }
            i = i + 1;
        }
        proof {
            assert(bv.take(n as int) =~= bv);
        }
        out
    }
}

impl Executor for ScriptedExecutor {
    /// The scripted reaction to a chain's whole pending inbound batch:
    /// the three channels in fixed order, each message in delivery order.
    /// The opaque state handle is left untouched.
    fn execute(
        &mut self,
        chain: u64,
        state: &mut Vec<u8>,
        downward: &Vec<Message>,
        upward: &Vec<Message>,
        horizontal: &Vec<Message>,
    ) -> Vec<Outbound> {
        let mut out = self.respond_seq(chain, downward);
        let mut out_u = self.respond_seq(chain, upward);
        let mut out_h = self.respond_seq(chain, horizontal);
        out.append(&mut out_u);
        out.append(&mut out_h);
        out
    }
}

} // verus!
