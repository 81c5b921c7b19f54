use std::collections::HashMap;
use vstd::prelude::*;

verus! {

broadcast use vstd::std_specs::hash::group_hash_axioms;

/// Names one bounded channel: its sender sits in one fragment's outbound set and its
/// receiver in another's inbound set.
pub type ChannelId = u64;

/// The channel reserved for the bootstrap source; the pool never hands it out.
pub const BOOTSTRAP_CHANNEL: ChannelId = 0;

/// The capacity of every channel between two local fragments.
pub const LOCAL_OUTPUT_CHANNEL_SIZE: usize = 16;

/// Channel endpoints allocated ahead of the actors, per fragment id: outbound senders (one per
/// downstream edge) and inbound receivers (one per upstream edge).
pub struct ChannelPool {
    outbound: HashMap<u32, Vec<ChannelId>>,
    inbound: HashMap<u32, Vec<ChannelId>>,
    next_channel: ChannelId,
    /// The edge, as `(from, to)`, that each channel handed out so far was declared for.
    edges: Ghost<Map<ChannelId, (u32, u32)>>,
}

/// The endpoints that `m` holds for `id`; none where it holds no entry.
pub open spec fn endpoints_of(m: Map<u32, Vec<ChannelId>>, id: u32) -> Seq<ChannelId> {
    if m.contains_key(id) {
        m[id]@
    } else {
        Seq::empty()
    }
}

/// Whether `edges` records channel `c` as declared for an edge out of `x`.
pub open spec fn edge_from(edges: Map<ChannelId, (u32, u32)>, c: ChannelId, x: u32) -> bool {
    edges.contains_key(c) && edges[c].0 == x
}

/// Whether `edges` records channel `c` as declared for an edge into `x`.
pub open spec fn edge_into(edges: Map<ChannelId, (u32, u32)>, c: ChannelId, x: u32) -> bool {
    edges.contains_key(c) && edges[c].1 == x
}

impl ChannelPool {
    /// The outbound channels of fragment `id`.
    pub closed spec fn outbound_of(&self, id: u32) -> Seq<ChannelId> {
        endpoints_of(self.outbound@, id)
    }

    /// The inbound channels of fragment `id`.
    pub closed spec fn inbound_of(&self, id: u32) -> Seq<ChannelId> {
        endpoints_of(self.inbound@, id)
    }

    /// Every channel handed out so far lies below the next id, and above the bootstrap one.
    pub closed spec fn wf(&self) -> bool {
        &&& self.next_channel > BOOTSTRAP_CHANNEL
        &&& forall|c: ChannelId| #[trigger] self.edges@.contains_key(c) ==> BOOTSTRAP_CHANNEL < c
            < self.next_channel
        &&& forall|x: u32, k: int|
            0 <= k < endpoints_of(self.outbound@, x).len() ==> edge_from(
                self.edges@,
                #[trigger] endpoints_of(self.outbound@, x)[k],
                x,
            )
        &&& forall|x: u32, k: int|
            0 <= k < endpoints_of(self.inbound@, x).len() ==> edge_into(
                self.edges@,
                #[trigger] endpoints_of(self.inbound@, x)[k],
                x,
            )
    }

    /// Whether channel `c` has been handed out for an edge.
    pub closed spec fn declared(&self, c: ChannelId) -> bool {
        self.edges@.contains_key(c)
    }

    /// The edge `(from, to)` that channel `c` was declared for.
    pub closed spec fn edge_of(&self, c: ChannelId) -> (u32, u32) {
        self.edges@[c]
    }

    /// A channel held in a fragment's outbound set was declared for an edge out of that
    /// fragment; one held in its inbound set, for an edge into it.
    pub proof fn lemma_endpoints_follow_edges(&self, x: u32)
        requires
            self.wf(),
        ensures
            forall|k: int|
                0 <= k < self.outbound_of(x).len() ==> self.declared(
                    #[trigger] self.outbound_of(x)[k],
                ) && self.edge_of(self.outbound_of(x)[k]).0 == x,
            forall|k: int|
                0 <= k < self.inbound_of(x).len() ==> self.declared(
                    #[trigger] self.inbound_of(x)[k],
                ) && self.edge_of(self.inbound_of(x)[k]).1 == x,
    {
    }

    /// The channel id that the next edge gets.
    pub closed spec fn next_id(&self) -> ChannelId {
        self.next_channel
    }

    /// An empty pool.
    pub fn new() -> (r: ChannelPool)
        ensures
            forall|id: u32| r.outbound_of(id) == Seq::<ChannelId>::empty(),
            forall|id: u32| r.inbound_of(id) == Seq::<ChannelId>::empty(),
            r.wf(),
            r.next_id() == BOOTSTRAP_CHANNEL + 1,
    {
        ChannelPool {
            outbound: HashMap::new(),
            inbound: HashMap::new(),
            next_channel: 1,
            edges: Ghost(Map::empty()),
        }
    }

    /// How many more edges the pool can still declare.
    pub fn capacity_left(&self) -> (r: u64)
        ensures
            r == u64::MAX - self.next_id(),
    {
        u64::MAX - self.next_channel
    }

    /// Allocates one channel for the edge `from -> to`: its sender joins `from`'s outbound
    /// set and its receiver `to`'s inbound set.
    pub fn declare_edge(&mut self, from: u32, to: u32) -> (r: ChannelId)
        requires
            old(self).wf(),
            old(self).next_id() < u64::MAX,
        ensures
            final(self).wf(),
            r == old(self).next_id(),
            r != BOOTSTRAP_CHANNEL,
            !old(self).declared(r),
            final(self).declared(r),
            final(self).edge_of(r) == (from, to),
            forall|c: ChannelId| #[trigger]
                old(self).declared(c) ==> final(self).declared(c) && final(self).edge_of(c)
                    == old(self).edge_of(c),
            final(self).next_id() == old(self).next_id() + 1,
            forall|id: u32| #[trigger]
                final(self).outbound_of(id) == if id == from {
                    old(self).outbound_of(id).push(r)
                } else {
                    old(self).outbound_of(id)
                },
            forall|id: u32| #[trigger]
                final(self).inbound_of(id) == if id == to {
                    old(self).inbound_of(id).push(r)
                } else {
                    old(self).inbound_of(id)
                },
    {
        let ch = self.next_channel;
        self.next_channel = self.next_channel + 1;
        let mut tx = match self.outbound.remove(&from) {
            Some(v) => v,
            None => Vec::new(),
        };
        tx.push(ch);
        self.outbound.insert(from, tx);
        let mut rx = match self.inbound.remove(&to) {
            Some(v) => v,
            None => Vec::new(),
        };
        rx.push(ch);
        self.inbound.insert(to, rx);
        let ghost old_edges = self.edges@;
        self.edges = Ghost(self.edges@.insert(ch, (from, to)));
        proof {
            assert forall|x: u32, k: int|
                0 <= k < endpoints_of(self.outbound@, x).len() implies edge_from(
                self.edges@,
                #[trigger] endpoints_of(self.outbound@, x)[k],
                x,
            ) by {
                assert(self.outbound_of(x) == endpoints_of(self.outbound@, x));
                assert(endpoints_of(self.outbound@, x) == if x == from {
                    old(self).outbound_of(x).push(ch)
                } else {
                    old(self).outbound_of(x)
                });
                if x == from && k == old(self).outbound_of(x).len() {
                    assert(endpoints_of(self.outbound@, x)[k] == ch);
                    assert(self.edges@[ch] == (from, to));
                } else {
                    assert(endpoints_of(self.outbound@, x)[k] == old(self).outbound_of(x)[k]);
                    assert(old_edges[endpoints_of(old(self).outbound@, x)[k]].0 == x);
                    let c = endpoints_of(old(self).outbound@, x)[k];
                    assert(c < ch);
                    assert(self.edges@ == old_edges.insert(ch, (from, to)));
                }
            }
            assert forall|x: u32, k: int|
                0 <= k < endpoints_of(self.inbound@, x).len() implies edge_into(
                self.edges@,
                #[trigger] endpoints_of(self.inbound@, x)[k],
                x,
            ) by {
                assert(self.inbound_of(x) == endpoints_of(self.inbound@, x));
                assert(endpoints_of(self.inbound@, x) == if x == to {
                    old(self).inbound_of(x).push(ch)
                } else {
                    old(self).inbound_of(x)
                });
                if x == to && k == old(self).inbound_of(x).len() {
                    assert(endpoints_of(self.inbound@, x)[k] == ch);
                    assert(self.edges@[ch] == (from, to));
                } else {
                    assert(endpoints_of(self.inbound@, x)[k] == old(self).inbound_of(x)[k]);
                    assert(old_edges[endpoints_of(old(self).inbound@, x)[k]].1 == x);
                    let c = endpoints_of(old(self).inbound@, x)[k];
                    assert(c < ch);
                    assert(self.edges@ == old_edges.insert(ch, (from, to)));
                }
            }
        }
        ch
    }

    /// Removes and returns every outbound channel of `id`; a second call returns none.
    pub fn take_outbound(&mut self, id: u32) -> (r: Vec<ChannelId>)
        ensures
            old(self).wf() ==> final(self).wf(),
            r@ == old(self).outbound_of(id),
            forall|c: ChannelId| #[trigger]
                final(self).declared(c) == old(self).declared(c),
            forall|c: ChannelId| #[trigger]
                final(self).edge_of(c) == old(self).edge_of(c),
            final(self).next_id() == old(self).next_id(),
            forall|x: u32| #[trigger]
                final(self).outbound_of(x) == if x == id {
                    Seq::<ChannelId>::empty()
                } else {
                    old(self).outbound_of(x)
                },
            forall|x: u32| #[trigger] final(self).inbound_of(x) == old(self).inbound_of(x),
    {
        let ghost before = self.outbound@;
        let r = match self.outbound.remove(&id) {
            Some(v) => v,
            None => Vec::new(),
        };
        proof {
            if old(self).wf() {
                assert forall|x: u32, k: int|
                    0 <= k < endpoints_of(self.outbound@, x).len() implies edge_from(
                    self.edges@,
                    #[trigger] endpoints_of(self.outbound@, x)[k],
                    x,
                ) by {
                    assert(x != id);
                    assert(endpoints_of(self.outbound@, x) == endpoints_of(before, x));
                    assert(endpoints_of(before, x)[k] == endpoints_of(self.outbound@, x)[k]);
                }
            }
        }
        r
    }

    /// Removes and returns every inbound channel of `id`; a second call returns none.
    pub fn take_inbound(&mut self, id: u32) -> (r: Vec<ChannelId>)
        ensures
            old(self).wf() ==> final(self).wf(),
            r@ == old(self).inbound_of(id),
            forall|c: ChannelId| #[trigger]
                final(self).declared(c) == old(self).declared(c),
            forall|c: ChannelId| #[trigger]
                final(self).edge_of(c) == old(self).edge_of(c),
            final(self).next_id() == old(self).next_id(),
            forall|x: u32| #[trigger]
                final(self).inbound_of(x) == if x == id {
                    Seq::<ChannelId>::empty()
                } else {
                    old(self).inbound_of(x)
                },
            forall|x: u32| #[trigger] final(self).outbound_of(x) == old(self).outbound_of(x),
    {
        let ghost before = self.inbound@;
        let r = match self.inbound.remove(&id) {
            Some(v) => v,
            None => Vec::new(),
        };
        proof {
            if old(self).wf() {
                assert forall|x: u32, k: int|
                    0 <= k < endpoints_of(self.inbound@, x).len() implies edge_into(
                    self.edges@,
                    #[trigger] endpoints_of(self.inbound@, x)[k],
                    x,
                ) by {
                    assert(x != id);
                    assert(endpoints_of(self.inbound@, x) == endpoints_of(before, x));
                    assert(endpoints_of(before, x)[k] == endpoints_of(self.inbound@, x)[k]);
                }
            }
        }
        r
    }

    /// Removes and returns the first inbound channel of `id`, leaving the others in place;
    /// `None` where it holds none.
    pub fn take_first_inbound(&mut self, id: u32) -> (r: Option<ChannelId>)
        ensures
            old(self).wf() ==> final(self).wf(),
            r == if old(self).inbound_of(id).len() == 0 {
                None::<ChannelId>
            } else {
                Some(old(self).inbound_of(id)[0])
            },
            forall|c: ChannelId| #[trigger] final(self).declared(c) == old(self).declared(c),
            forall|c: ChannelId| #[trigger] final(self).edge_of(c) == old(self).edge_of(c),
            final(self).next_id() == old(self).next_id(),
            forall|x: u32| #[trigger]
                final(self).inbound_of(x) == if x == id && old(self).inbound_of(x).len() > 0 {
                    old(self).inbound_of(x).drop_first()
                } else {
                    old(self).inbound_of(x)
                },
            forall|x: u32| #[trigger] final(self).outbound_of(x) == old(self).outbound_of(x),
    {
        let ghost before = self.inbound@;
        match self.inbound.remove(&id) {
            None => {
                assert(self.inbound@ =~= before);
                None
            },
            Some(mut v) => {
                if v.len() == 0 {
                    self.inbound.insert(id, v);
                    assert(self.inbound@ =~= before);
                    None
                } else {
                    let first = v.remove(0);
                    let ghost rest = v@;
                    self.inbound.insert(id, v);
                    proof {
                        assert(rest =~= before[id]@.drop_first());
                        assert forall|x: u32| #[trigger]
                            endpoints_of(self.inbound@, x) == if x == id {
                                endpoints_of(before, x).drop_first()
                            } else {
                                endpoints_of(before, x)
                            } by {}
                        if old(self).wf() {
                            assert forall|x: u32, k: int|
                                0 <= k < endpoints_of(self.inbound@, x).len() implies edge_into(
                                self.edges@,
                                #[trigger] endpoints_of(self.inbound@, x)[k],
                                x,
                            ) by {
                                if x == id {
                                    assert(endpoints_of(self.inbound@, x)[k] == endpoints_of(
                                        before,
                                        x,
                                    )[k + 1]);
                                } else {
                                    assert(endpoints_of(self.inbound@, x) == endpoints_of(before, x));
                                }
                            }
                        }
                    }
                    Some(first)
                }
            },
        }
    }

    /// How many outbound channels `id` holds.
    pub fn outbound_len(&self, id: u32) -> (r: usize)
        ensures
            r == self.outbound_of(id).len(),
    {
        match self.outbound.get(&id) {
            Some(v) => v.len(),
            None => 0,
        }
    }

    /// How many inbound channels `id` holds.
    pub fn inbound_len(&self, id: u32) -> (r: usize)
        ensures
            r == self.inbound_of(id).len(),
    {
        match self.inbound.get(&id) {
            Some(v) => v.len(),
            None => 0,
        }
    }
}

} // verus!
