//! The network topology: which chain ids exist, which one is the relay
//! chain, and which routes the three channel kinds admit.
//!
//! A topology is built once from an explicit list of [`ChainSpec`]
//! entries and is immutable afterwards.  Parachain ids are kept strictly
//! sorted, which fixes the deterministic dispatch order (relay first,
//! then parachains by ascending id).

use crate::types::{ChainSpec, Channel, SimError, RELAY_ID};
use vstd::prelude::*;

verus! {

/// The chain-id table: the relay id plus the strictly sorted parachain ids.
#[derive(Debug)]
pub struct Topology {
    pub relay: u64,
    pub paras: Vec<u64>,
}

/// Mathematical view of a [`Topology`].
#[verifier::ext_equal]
pub struct TopologyView {
    pub relay: int,
    pub paras: Seq<int>,
}

impl View for Topology {
    type V = TopologyView;

    open spec fn view(&self) -> TopologyView {
        TopologyView {
            relay: self.relay as int,
            paras: self.paras@.map_values(|p: u64| p as int),
        }
    }
}

impl TopologyView {
    /// Well-formedness: the relay owns the reserved id, every parachain id
    /// is a nonzero `u64`, and the parachain ids are strictly ascending.
    pub open spec fn wf(self) -> bool {
        &&& self.relay == RELAY_ID as int
        &&& forall|i: int|
            0 <= i < self.paras.len() ==> 0 < #[trigger] self.paras[i] <= u64::MAX as int
        &&& forall|i: int, j: int|
            0 <= i < j < self.paras.len() ==> #[trigger] self.paras[i] < #[trigger] self.paras[j]
    }

    /// Does `id` name a parachain of this network?
    pub open spec fn is_para(self, id: int) -> bool {
        self.paras.contains(id)
    }

    /// Does `id` name any member chain (relay or parachain)?
    pub open spec fn is_member(self, id: int) -> bool {
        id == self.relay || self.is_para(id)
    }

    /// The directed channel-existence rule: downward runs relay-to-para,
    /// upward runs para-to-relay, horizontal runs between two distinct
    /// registered parachains.
    pub open spec fn route_ok(self, from: int, to: int, channel: Channel) -> bool {
        match channel {
            Channel::Downward => from == self.relay && self.is_para(to),
            Channel::Upward => self.is_para(from) && to == self.relay,
            Channel::Horizontal => self.is_para(from) && self.is_para(to) && from != to,
        }
    }
}

/// What makes a construction list acceptable: exactly one entry
/// designates the relay, that entry carries the reserved id, no other
/// entry does, and no id repeats.
pub open spec fn specs_valid(entries: Seq<ChainSpec>) -> bool {
    &&& exists|i: int| 0 <= i < entries.len() && (#[trigger] entries[i]).is_relay
    &&& forall|i: int, j: int|
        0 <= i < entries.len() && 0 <= j < entries.len() && (#[trigger] entries[i]).is_relay
            && (#[trigger] entries[j]).is_relay ==> i == j
    &&& forall|i: int|
        0 <= i < entries.len() && (#[trigger] entries[i]).is_relay ==> entries[i].id == RELAY_ID
    &&& forall|i: int|
        0 <= i < entries.len() && !(#[trigger] entries[i]).is_relay ==> entries[i].id != RELAY_ID
    &&& forall|i: int, j: int|
        0 <= i < entries.len() && 0 <= j < entries.len() && i != j ==> (#[trigger] entries[i]).id
            != (#[trigger] entries[j]).id
}

impl Topology {
    /// Builds the topology from an explicit entry list, rejecting exactly
    /// the lists that [`specs_valid`] rejects.
    pub fn build(entries: &Vec<ChainSpec>) -> (r: Result<Topology, SimError>)
        ensures
            r is Ok <==> specs_valid(entries@),
            r is Err ==> r == Err::<Topology, SimError>(SimError::InvalidTopology),
            r is Ok ==> r->Ok_0@.wf(),
            r is Ok ==> forall|x: u64|
                r->Ok_0@.is_para(x as int) <==> exists|i: int|
                    0 <= i < entries@.len() && !(#[trigger] entries@[i]).is_relay && entries@[i].id
                        == x,
    {
        let mut paras: Vec<u64> = Vec::new();
        let mut relay_seen: bool = false;
        let mut k: usize = 0;
        while k < entries.len()
            invariant
                0 <= k <= entries@.len(),
                forall|i: int|
                    0 <= i < paras@.len() ==> 0 < #[trigger] paras@[i],
                forall|i: int, j: int|
                    0 <= i < j < paras@.len() ==> #[trigger] paras@[i] < #[trigger] paras@[j],
                forall|x: u64|
                    paras@.contains(x) <==> exists|i: int|
                        0 <= i < k && !(#[trigger] entries@[i]).is_relay && entries@[i].id == x,
                relay_seen <==> exists|i: int| 0 <= i < k && (#[trigger] entries@[i]).is_relay,
                forall|i: int|
                    0 <= i < k && (#[trigger] entries@[i]).is_relay ==> entries@[i].id == RELAY_ID,
                forall|i: int|
                    0 <= i < k && !(#[trigger] entries@[i]).is_relay ==> entries@[i].id != RELAY_ID,
                forall|i: int, j: int|
                    0 <= i < k && 0 <= j < k && (#[trigger] entries@[i]).is_relay && (#[trigger] entries@[j]).is_relay
                        ==> i == j,
                forall|i: int, j: int|
                    0 <= i < k && 0 <= j < k && i != j ==> (#[trigger] entries@[i]).id
                        != (#[trigger] entries@[j]).id,
            decreases entries@.len() - k,
        {
            let id = entries[k].id;
            let ghost k0 = k as int;
            if entries[k].is_relay {
                if relay_seen {
                    proof {
                        let w = choose|i: int| 0 <= i < k0 && (#[trigger] entries@[i]).is_relay;
                        assert(w != k0 && entries@[w].is_relay && entries@[k0].is_relay);
                    }
                    return Err(SimError::InvalidTopology);
                }
                if id != RELAY_ID {
                    return Err(SimError::InvalidTopology);
                }
                proof {
                    assert forall|i: int| 0 <= i < k0 implies (#[trigger] entries@[i]).id
                        != entries@[k0].id by {
                        if entries@[i].is_relay {
                            assert(relay_seen);
                        }
                    }
                }
                relay_seen = true;
            } else {
                if id == RELAY_ID {
                    return Err(SimError::InvalidTopology);
                }
                let pos = insert_pos(&paras, id);
                if pos < paras.len() && paras[pos] == id {
                    proof {
                        assert(paras@.contains(id));
                        let w = choose|i: int|
                            0 <= i < k0 && !(#[trigger] entries@[i]).is_relay && entries@[i].id
                                == id;
                        assert(w != k0 && entries@[w].id == entries@[k0].id);
                    }
                    return Err(SimError::InvalidTopology);
                }
                let ghost paras0 = paras@;
                proof {
                    assert(!paras0.contains(id)) by {
                        if paras0.contains(id) {
                            let w = choose|i: int| 0 <= i < paras0.len() && paras0[i] == id;
                            if w >= pos {
                                assert(pos < paras0.len());
                                if w > pos {
                                    assert(paras0[pos as int] < paras0[w]);
                                }
                            }
                        }
                    }
                    assert forall|i: int| 0 <= i < k0 implies (#[trigger] entries@[i]).id
                        != entries@[k0].id by {
                        if !entries@[i].is_relay {
                            assert(paras0.contains(entries@[i].id));
                        }
                    }
                }
                paras.insert(pos, id);
                proof {
                    assert forall|x: u64| paras@.contains(x) implies exists|i: int|
                        0 <= i <= k0 && !(#[trigger] entries@[i]).is_relay && entries@[i].id
                            == x by {
                        let w = choose|i: int| 0 <= i < paras@.len() && paras@[i] == x;
                        if w < pos {
                            assert(paras0[w] == x);
                            assert(paras0.contains(x));
                        } else if w > pos {
                            assert(paras0[w - 1] == x);
                            assert(paras0.contains(x));
                        } else {
                            assert(entries@[k0].id == x && !entries@[k0].is_relay);
                        }
                    }
                    assert forall|x: u64| (exists|i: int|
                        0 <= i <= k0 && !(#[trigger] entries@[i]).is_relay && entries@[i].id
                            == x) implies paras@.contains(x) by {
                        let w = choose|i: int|
                            0 <= i <= k0 && !(#[trigger] entries@[i]).is_relay && entries@[i].id
                                == x;
                        if w < k0 {
                            assert(paras0.contains(x));
                            let v = choose|i: int| 0 <= i < paras0.len() && paras0[i] == x;
                            if v < pos {
                                assert(paras@[v] == x);
                            } else {
                                assert(paras@[v + 1] == x);
                            }
                        } else {
                            assert(paras@[pos as int] == x);
                        }
                    }
                    assert forall|i: int, j: int| 0 <= i < j < paras@.len() implies #[trigger] paras@[i]
                        < #[trigger] paras@[j] by {
                        if j < pos {
                            assert(paras0[i] < paras0[j]);
                        } else if i > pos {
                            assert(paras0[i - 1] < paras0[j - 1]);
                        } else if i == pos && j > pos {
                            assert(paras@[j] == paras0[j - 1]);
                        } else if j == pos && i < pos {
                            assert(paras@[i] == paras0[i]);
                        } else if i < pos && j > pos {
                            assert(paras0[i] < id);
                            assert(paras@[j] == paras0[j - 1]);
                            assert(pos as int <= j - 1);
                            if pos as int == j - 1 {
                                assert(paras0[j - 1] >= id);
                                assert(paras0[j - 1] != id);
                            } else {
                                assert(paras0[pos as int] < paras0[j - 1]);
                                assert(paras0[pos as int] >= id);
                            }
                        }
                    }
                }
            }
            k = k + 1;
        }
        if !relay_seen {
            return Err(SimError::InvalidTopology);
        }
        let t = Topology { relay: RELAY_ID, paras };
        proof {
            assert forall|x: u64| t@.is_para(x as int) implies paras_witness(entries@, x) by {
                let m = t@.paras;
                let w = choose|i: int| 0 <= i < m.len() && m[i] == x as int;
                assert(t.paras@[w] == x);
                assert(t.paras@.contains(x));
            }
            assert forall|x: u64| paras_witness(entries@, x) implies t@.is_para(x as int) by {
                assert(t.paras@.contains(x));
                let w = choose|i: int| 0 <= i < t.paras@.len() && t.paras@[i] == x;
                assert(t@.paras[w] == x as int);
            }
        }
        Ok(t)
    }

    /// All member chain ids: the relay id first, then the parachain ids in
    /// ascending order — the order in which the dispatcher visits chains.
    pub fn chain_ids(&self) -> (r: Vec<u64>)
        ensures
            r@.len() == 1 + self@.paras.len(),
            r@[0] == self.relay,
            forall|i: int| 0 <= i < self@.paras.len() ==> r@[i + 1] as int == #[trigger] self@.paras[i],
    {
        let mut r: Vec<u64> = Vec::new();
        r.push(self.relay);
        let mut i: usize = 0;
        while i < self.paras.len()
            invariant
                0 <= i <= self.paras@.len(),
                r@.len() == 1 + i,
                r@[0] == self.relay,
                forall|j: int| 0 <= j < i ==> r@[j + 1] as int == #[trigger] self@.paras[j],
            decreases self.paras@.len() - i,
        {
            r.push(self.paras[i]);
            i = i + 1;
        }
        r
    }

    /// Is `id` a registered parachain?
    pub fn contains_para(&self, id: u64) -> (r: bool)
        ensures
            r == self@.is_para(id as int),
    {
        let mut i: usize = 0;
        while i < self.paras.len()
            invariant
                0 <= i <= self.paras@.len(),
                forall|j: int| 0 <= j < i ==> #[trigger] self.paras@[j] != id,
            decreases self.paras@.len() - i,
        {
            if self.paras[i] == id {
                proof {
                    assert(self@.paras[i as int] == id as int);
                }
                return true;
            }
            i = i + 1;
        }
        proof {
            if self@.is_para(id as int) {
                let w = choose|j: int| 0 <= j < self@.paras.len() && self@.paras[j] == id as int;
                assert(self.paras@[w] == id);
            }
        }
        false
    }

    /// Is `id` any member chain of the network?
    pub fn contains(&self, id: u64) -> (r: bool)
        ensures
            r == self@.is_member(id as int),
    {
        id == self.relay || self.contains_para(id)
    }

    /// Does the topology admit a message from `from` to `to` on `channel`?
    pub fn is_valid_route(&self, from: u64, to: u64, channel: Channel) -> (r: bool)
        ensures
            r == self@.route_ok(from as int, to as int, channel),
    {
        match channel {
            Channel::Downward => from == self.relay && self.contains_para(to),
            Channel::Upward => self.contains_para(from) && to == self.relay,
            Channel::Horizontal => self.contains_para(from) && self.contains_para(to) && from
                != to,
        }
    }
}

/// A route the topology admits runs between two distinct member chains.
pub proof fn lemma_route_endpoints(t: TopologyView, from: int, to: int, ch: Channel)
    requires
        t.wf(),
        t.route_ok(from, to, ch),
    ensures
        t.is_member(from),
        t.is_member(to),
        from != to,
{
    match ch {
        Channel::Downward => {
            let w = choose|i: int| 0 <= i < t.paras.len() && t.paras[i] == to;
            assert(t.paras[w] > 0);
        },
        Channel::Upward => {
            let w = choose|i: int| 0 <= i < t.paras.len() && t.paras[i] == from;
            assert(t.paras[w] > 0);
        },
        Channel::Horizontal => {},
    }
}

/// Is `x` the id of some non-relay entry of the construction list?
pub open spec fn paras_witness(entries: Seq<ChainSpec>, x: u64) -> bool {
    exists|i: int| 0 <= i < entries.len() && !(#[trigger] entries[i]).is_relay && entries[i].id == x
}

/// First position in the sorted `paras` whose entry is at least `id`.
fn insert_pos(paras: &Vec<u64>, id: u64) -> (r: usize)
    ensures
        r <= paras@.len(),
        forall|i: int| 0 <= i < r ==> #[trigger] paras@[i] < id,
        r < paras@.len() ==> paras@[r as int] >= id,
{
    let mut i: usize = 0;
    while i < paras.len()
        invariant
            0 <= i <= paras@.len(),
            forall|j: int| 0 <= j < i ==> #[trigger] paras@[j] < id,
        decreases paras@.len() - i,
    {
        if paras[i] >= id {
            return i;
        }
        i = i + 1;
    }
    i
}

} // verus!
