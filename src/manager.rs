use std::collections::HashMap;
use std::collections::HashSet;
use vstd::prelude::*;

use crate::dispatch::{arity_ok, check_arity, DispatchKind};
use crate::error::{Feature, StreamError};
use crate::plan::{chain_built, chain_error, check_chain, create_nodes, NodeDesc, Operator};
use crate::pool::{ChannelId, ChannelPool, BOOTSTRAP_CHANNEL};

verus! {

broadcast use vstd::std_specs::hash::group_hash_axioms;

/// The upstream id that stands for the bootstrap source.
pub const BOOTSTRAP_FRAGMENT: u32 = 0;

/// Where the actor of a fragment runs.
#[derive(Debug)]
pub struct ActorInfo {
    pub fragment_id: u32,
    pub host: String,
    pub port: u32,
}

/// Whether an actor runs in this process.
pub open spec fn is_local(info: ActorInfo) -> bool {
    info.host@ == "127.0.0.1"@
}

/// A fragment of the streaming plan: an operator chain (root first, each node reading the
/// next), a dispatch policy, and its upstream and downstream fragment ids.
#[derive(Debug)]
pub struct Fragment {
    pub fragment_id: u32,
    pub nodes: Vec<NodeDesc>,
    pub dispatcher: DispatchKind,
    pub upstream: Vec<u32>,
    pub downstream: Vec<u32>,
}

/// The first id in `ids` that is already in `existing` or occurs earlier in `ids`.
pub open spec fn first_duplicate(existing: Set<u32>, ids: Seq<u32>) -> Option<u32>
    decreases ids.len(),
{
    if ids.len() == 0 {
        None
    } else {
        match first_duplicate(existing, ids.drop_last()) {
            Some(d) => Some(d),
            None => if existing.contains(ids.last()) || ids.drop_last().contains(ids.last()) {
                Some(ids.last())
            } else {
                None
            },
        }
    }
}

/// The fragment ids of a batch, in order.
pub open spec fn fragment_ids(batch: Seq<Fragment>) -> Seq<u32> {
    batch.map_values(|f: Fragment| f.fragment_id)
}

/// The actor ids of a batch, in order.
pub open spec fn actor_ids(batch: Seq<ActorInfo>) -> Seq<u32> {
    batch.map_values(|a: ActorInfo| a.fragment_id)
}

/// How many times `x` occurs in `s`.
pub open spec fn count_of(s: Seq<u32>, x: u32) -> nat
    decreases s.len(),
{
    if s.len() == 0 {
        0
    } else {
        count_of(s.drop_last(), x) + if s.last() == x {
            1nat
        } else {
            0nat
        }
    }
}

/// How many edges a batch declares.
pub open spec fn total_edges(batch: Seq<Fragment>) -> nat
    decreases batch.len(),
{
    if batch.len() == 0 {
        0
    } else {
        total_edges(batch.drop_last()) + batch.last().downstream@.len()
    }
}

/// How many edges of a batch leave fragment `x`.
pub open spec fn out_edges(batch: Seq<Fragment>, x: u32) -> nat
    decreases batch.len(),
{
    if batch.len() == 0 {
        0
    } else {
        out_edges(batch.drop_last(), x) + if batch.last().fragment_id == x {
            batch.last().downstream@.len()
        } else {
            0nat
        }
    }
}

/// How many edges of a batch enter fragment `x`.
pub open spec fn in_edges(batch: Seq<Fragment>, x: u32) -> nat
    decreases batch.len(),
{
    if batch.len() == 0 {
        0
    } else {
        in_edges(batch.drop_last(), x) + count_of(batch.last().downstream@, x)
    }
}

/// `after` is `before` with the fragments of `batch` added, each under its id.
pub open spec fn fragments_added(
    before: Map<u32, Fragment>,
    after: Map<u32, Fragment>,
    batch: Seq<Fragment>,
) -> bool {
    &&& forall|id: u32|
        #[trigger] after.contains_key(id) <==> before.contains_key(id) || exists|i: int|
            0 <= i < batch.len() && batch[i].fragment_id == id
    &&& forall|id: u32| #[trigger] before.contains_key(id) ==> after[id] == before[id]
    &&& forall|i: int| 0 <= i < batch.len() ==> after[batch[i].fragment_id] == #[trigger] batch[i]
}

/// `after`'s outbound channels are `before`'s, each fragment's followed by the edges that
/// `batch` declares from it, and `extra` more for fragment `from`.
pub open spec fn outbound_grown(
    before: ChannelPool,
    after: ChannelPool,
    batch: Seq<Fragment>,
    from: u32,
    extra: nat,
) -> bool {
    &&& forall|x: u32|
        (#[trigger] after.outbound_of(x)).len() == before.outbound_of(x).len() + out_edges(batch, x)
            + if x == from {
            extra
        } else {
            0nat
        }
    &&& forall|x: u32, k: int|
        0 <= k < before.outbound_of(x).len() ==> #[trigger] after.outbound_of(x)[k]
            == before.outbound_of(x)[k]
}

/// `after`'s inbound channels are `before`'s, each fragment's followed by the edges that
/// `batch` declares into it, and one more for each time it occurs in `extra`.
pub open spec fn inbound_grown(
    before: ChannelPool,
    after: ChannelPool,
    batch: Seq<Fragment>,
    extra: Seq<u32>,
) -> bool {
    &&& forall|x: u32|
        (#[trigger] after.inbound_of(x)).len() == before.inbound_of(x).len() + in_edges(batch, x)
            + count_of(extra, x)
    &&& forall|x: u32, k: int|
        0 <= k < before.inbound_of(x).len() ==> #[trigger] after.inbound_of(x)[k]
            == before.inbound_of(x)[k]
}

/// Every channel handed out between `before` and `after` is paired: its sender sits in the
/// outbound set of the fragment its edge leaves, and its receiver in the inbound set of the
/// fragment its edge enters.
pub open spec fn fresh_paired(before: ChannelPool, after: ChannelPool) -> bool {
    forall|c: ChannelId|
        before.next_id() <= c < after.next_id() ==> #[trigger] after.declared(c)
            && after.outbound_of(after.edge_of(c).0).contains(c) && after.inbound_of(
            after.edge_of(c).1,
        ).contains(c)
}

/// The channels that each fragment's sets gained between `before` and `after` were handed
/// out between them.
pub open spec fn suffix_fresh(before: ChannelPool, after: ChannelPool) -> bool {
    &&& forall|x: u32, k: int|
        before.outbound_of(x).len() <= k < after.outbound_of(x).len() ==> before.next_id()
            <= #[trigger] after.outbound_of(x)[k] < after.next_id()
    &&& forall|x: u32, k: int|
        before.inbound_of(x).len() <= k < after.inbound_of(x).len() ==> before.next_id()
            <= #[trigger] after.inbound_of(x)[k] < after.next_id()
}

/// `after` is `before` with the placements of `batch` added, each under its fragment id.
pub open spec fn placements_added(
    before: Map<u32, ActorInfo>,
    after: Map<u32, ActorInfo>,
    batch: Seq<ActorInfo>,
) -> bool {
    &&& forall|id: u32|
        #[trigger] after.contains_key(id) <==> before.contains_key(id) || exists|i: int|
            0 <= i < batch.len() && batch[i].fragment_id == id
    &&& forall|id: u32| #[trigger] before.contains_key(id) ==> after[id] == before[id]
    &&& forall|i: int| 0 <= i < batch.len() ==> after[batch[i].fragment_id] == #[trigger] batch[i]
}

/// The topology registry and channel pool behind one lock: fragments waiting to be built,
/// actor placements, the channels between fragments, and the actors built so far.
pub struct StreamManagerCore {
    pool: ChannelPool,
    actors: HashMap<u32, ActorInfo>,
    fragments: HashMap<u32, Fragment>,
    source_available: bool,
    built: Vec<ActorPlan>,
}

/// What a fragment's operator chain reads: one channel, or the first-ready merge of several.
#[derive(Debug)]
pub enum MergeInput {
    Receiver(ChannelId),
    Merge(Vec<ChannelId>),
}

/// A built actor: its input, its operators (innermost first) and its dispatcher with the
/// channels it writes to.
#[derive(Debug)]
pub struct ActorPlan {
    pub fragment_id: u32,
    pub input: MergeInput,
    pub operators: Vec<Operator>,
    pub dispatcher: DispatchKind,
    pub outputs: Vec<ChannelId>,
}

/// The upstream ids a fragment reads: those it declares, or the bootstrap source where it
/// declares none.
pub open spec fn sources_of(upstream: Seq<u32>) -> Seq<u32> {
    if upstream.len() == 0 {
        seq![BOOTSTRAP_FRAGMENT]
    } else {
        upstream
    }
}

/// The fault of one upstream id: an unknown placement, or one on another host.
pub open spec fn upstream_fault(fragment_id: u32, u: u32, actors: Map<u32, ActorInfo>) -> Option<
    StreamError,
> {
    if u == BOOTSTRAP_FRAGMENT {
        None
    } else if !actors.contains_key(u) {
        Some(StreamError::UnknownUpstream { fragment_id, upstream: u })
    } else if !is_local(actors[u]) {
        Some(StreamError::UnsupportedFeature { fragment_id, feature: Feature::RemoteUpstream })
    } else {
        None
    }
}

/// The fault of the first upstream id that has one.
pub open spec fn first_upstream_fault(
    fragment_id: u32,
    ups: Seq<u32>,
    actors: Map<u32, ActorInfo>,
) -> Option<StreamError>
    decreases ups.len(),
{
    if ups.len() == 0 {
        None
    } else {
        match first_upstream_fault(fragment_id, ups.drop_last(), actors) {
            Some(e) => Some(e),
            None => upstream_fault(fragment_id, ups.last(), actors),
        }
    }
}

impl StreamManagerCore {
    /// Whether a fragment with upstreams `upstream` reads the bootstrap source.
    pub open spec fn reads_bootstrap(upstream: Seq<u32>) -> bool {
        count_of(sources_of(upstream), BOOTSTRAP_FRAGMENT) > 0
    }

    /// Whether building a fragment with upstreams `upstream` takes the bootstrap receiver.
    pub open spec fn takes_bootstrap(&self, upstream: Seq<u32>) -> bool {
        Self::reads_bootstrap(upstream) && self.source_available_view()
    }

    /// How many pool receivers a fragment with upstreams `upstream` needs: one per upstream
    /// that is not the bootstrap source.
    pub open spec fn receivers_required(upstream: Seq<u32>) -> nat {
        (sources_of(upstream).len() - count_of(sources_of(upstream), BOOTSTRAP_FRAGMENT)) as nat
    }

    /// The channels the merge of fragment `id` reads: its pool receivers, then the bootstrap
    /// receiver where it takes it.
    pub open spec fn merge_channels(&self, id: u32, upstream: Seq<u32>) -> Seq<ChannelId> {
        self.pool_view().inbound_of(id) + if self.takes_bootstrap(upstream) {
            seq![BOOTSTRAP_CHANNEL]
        } else {
            Seq::empty()
        }
    }

    /// The error that resolving the merge input of fragment `id` raises, if any.
    pub open spec fn merge_error(&self, id: u32, upstream: Seq<u32>) -> Option<StreamError> {
        match first_upstream_fault(id, upstream, self.actors_view()) {
            Some(e) => Some(e),
            None => if count_of(sources_of(upstream), BOOTSTRAP_FRAGMENT) > 1 {
                Some(
                    StreamError::TopologyMismatch {
                        fragment_id: id,
                        required: count_of(sources_of(upstream), BOOTSTRAP_FRAGMENT) as usize,
                        found: 1,
                    },
                )
            } else if Self::reads_bootstrap(upstream) && !self.source_available_view() {
                Some(StreamError::BootstrapSourceTaken { fragment_id: id })
            } else if self.pool_view().inbound_of(id).len() != Self::receivers_required(upstream) {
                Some(
                    StreamError::TopologyMismatch {
                        fragment_id: id,
                        required: Self::receivers_required(upstream) as usize,
                        found: self.pool_view().inbound_of(id).len() as usize,
                    },
                )
            } else {
                None
            },
        }
    }

    /// The error that wiring the dispatcher of fragment `id` raises, if any.
    pub open spec fn dispatch_error(&self, id: u32, kind: DispatchKind, downstream: nat) -> Option<
        StreamError,
    > {
        let outputs = self.pool_view().outbound_of(id).len();
        if outputs != downstream {
            Some(
                StreamError::TopologyMismatch {
                    fragment_id: id,
                    required: downstream as usize,
                    found: outputs as usize,
                },
            )
        } else if !arity_ok(kind, outputs) {
            Some(StreamError::InvalidDispatchArity { fragment_id: id, outputs: outputs as usize })
        } else {
            None
        }
    }

    /// The error that building fragment `id` raises, if any: merge first, then the operator
    /// chain, then the dispatcher.
    pub open spec fn build_error(&self, id: u32) -> Option<StreamError> {
        if !self.fragments_view().contains_key(id) {
            Some(StreamError::FragmentAlreadyBuilt { fragment_id: id })
        } else {
            let f = self.fragments_view()[id];
            match self.merge_error(id, f.upstream@) {
                Some(e) => Some(e),
                None => match chain_error(id, f.nodes@) {
                    Some(e) => Some(e),
                    None => self.dispatch_error(id, f.dispatcher, f.downstream@.len()),
                },
            }
        }
    }

    /// Whether `t` is a state that building fragment `id` from this state leads to, where that
    /// succeeds: the fragment leaves the registry, its channels leave the pool, and its actor,
    /// as `plan_of` describes it, is queued.
    pub open spec fn build_step(&self, id: u32, t: StreamManagerCore) -> bool {
        &&& t.wf()
        &&& t.actors_view() == self.actors_view()
        &&& t.fragments_view() == self.fragments_view().remove(id)
        &&& t.built_view().len() == self.built_view().len() + 1
        &&& t.built_view().drop_last() == self.built_view()
        &&& self.plan_of(id, t.built_view().last())
        &&& t.source_available_view() == (self.source_available_view() && !self.takes_bootstrap(
            self.fragments_view()[id].upstream@,
        ))
        &&& t.pool_view().next_id() == self.pool_view().next_id()
        &&& forall|x: u32| #[trigger]
            t.pool_view().outbound_of(x) == if x == id {
                Seq::<ChannelId>::empty()
            } else {
                self.pool_view().outbound_of(x)
            }
        &&& forall|x: u32| #[trigger]
            t.pool_view().inbound_of(x) == if x == id {
                Seq::<ChannelId>::empty()
            } else {
                self.pool_view().inbound_of(x)
            }
    }

    /// Whether `plan` is the actor that building fragment `id` in this state gives.
    pub open spec fn plan_of(&self, id: u32, plan: ActorPlan) -> bool {
        let f = self.fragments_view()[id];
        let chs = self.merge_channels(id, f.upstream@);
        &&& plan.fragment_id == id
        &&& plan.dispatcher == f.dispatcher
        &&& plan.outputs@ == self.pool_view().outbound_of(id)
        &&& chain_built(f.nodes@, plan.operators@)
        &&& match plan.input {
            MergeInput::Receiver(c) => chs.len() == 1 && c == chs[0],
            MergeInput::Merge(v) => chs.len() != 1 && v@ == chs,
        }
    }
}

impl StreamManagerCore {
    pub closed spec fn wf(&self) -> bool {
        self.pool.wf()
    }

    /// The channel pool.
    pub closed spec fn pool_view(&self) -> ChannelPool {
        self.pool
    }

    /// The registered actor placements.
    pub closed spec fn actors_view(&self) -> Map<u32, ActorInfo> {
        self.actors@
    }

    /// The registered fragments not yet built.
    pub closed spec fn fragments_view(&self) -> Map<u32, Fragment> {
        self.fragments@
    }

    /// Whether the bootstrap source's receiver is still to be taken.
    pub closed spec fn source_available_view(&self) -> bool {
        self.source_available
    }

    /// The actors built so far and not yet taken.
    pub closed spec fn built_view(&self) -> Seq<ActorPlan> {
        self.built@
    }

    /// An empty registry.
    pub fn new() -> (r: StreamManagerCore)
        ensures
            r.wf(),
            r.fragments_view() == Map::<u32, Fragment>::empty(),
            r.actors_view() == Map::<u32, ActorInfo>::empty(),
            r.source_available_view(),
            r.built_view() == Seq::<ActorPlan>::empty(),
            r.pool_view().next_id() == BOOTSTRAP_CHANNEL + 1,
            forall|id: u32| r.pool_view().outbound_of(id) == Seq::<ChannelId>::empty(),
            forall|id: u32| r.pool_view().inbound_of(id) == Seq::<ChannelId>::empty(),
    {
        StreamManagerCore {
            pool: ChannelPool::new(),
            actors: HashMap::new(),
            fragments: HashMap::new(),
            source_available: true,
            built: Vec::new(),
        }
    }

    /// Registers a batch of fragments, all or none: an id already present, or twice in the
    /// batch, fails the batch with `DuplicateFragment` and leaves the registry as it was.
    /// Otherwise every fragment is stored, and each of its downstream ids gets one new channel
    /// whose sender joins the fragment's outbound set and whose receiver joins the downstream
    /// fragment's inbound set; whether the downstream fragment is ever registered is not
    /// checked here.
    pub fn update_fragment(&mut self, fragments: Vec<Fragment>) -> (r: Result<(), StreamError>)
        requires
            old(self).wf(),
        ensures
            final(self).wf(),
            final(self).actors_view() == old(self).actors_view(),
            final(self).source_available_view() == old(self).source_available_view(),
            final(self).built_view() == old(self).built_view(),
            match first_duplicate(old(self).fragments_view().dom(), fragment_ids(fragments@)) {
                Some(d) => r == Err::<(), StreamError>(
                    StreamError::DuplicateFragment { fragment_id: d },
                ) && final(self).fragments_view() == old(self).fragments_view()
                    && final(self).pool_view() == old(self).pool_view(),
                None => if total_edges(fragments@) > u64::MAX - old(self).pool_view().next_id() {
                    r == Err::<(), StreamError>(StreamError::ChannelIdsExhausted)
                        && final(self).fragments_view() == old(self).fragments_view()
                        && final(self).pool_view() == old(self).pool_view()
                } else {
                    &&& r is Ok
                    &&& fragments_added(
                        old(self).fragments_view(),
                        final(self).fragments_view(),
                        fragments@,
                    )
                    &&& outbound_grown(
                        old(self).pool_view(),
                        final(self).pool_view(),
                        fragments@,
                        0,
                        0,
                    )
                    &&& inbound_grown(
                        old(self).pool_view(),
                        final(self).pool_view(),
                        fragments@,
                        Seq::empty(),
                    )
                    &&& fresh_paired(old(self).pool_view(), final(self).pool_view())
                    &&& suffix_fresh(old(self).pool_view(), final(self).pool_view())
                    &&& forall|c: ChannelId| #[trigger]
                        old(self).pool_view().declared(c) ==> final(self).pool_view().declared(c)
                            && final(self).pool_view().edge_of(c) == old(
                            self,
                        ).pool_view().edge_of(c)
                },
            },
    {
        let ghost ids = fragment_ids(fragments@);
        let mut seen: HashSet<u32> = HashSet::new();
        let mut i: usize = 0;
        while i < fragments.len()
            invariant
                i <= fragments@.len(),
                ids == fragment_ids(fragments@),
                *self == *old(self),
                self.pool.wf(),
                seen@ == ids.take(i as int).to_set(),
                first_duplicate(self.fragments@.dom(), ids.take(i as int)) is None,
            decreases fragments.len() - i,
        {
            let id = fragments[i].fragment_id;
            assert(ids.take(i + 1).drop_last() =~= ids.take(i as int));
            assert(ids.take(i as int).to_set().contains(id) <==> ids.take(i as int).contains(id));
            if self.fragments.contains_key(&id) || seen.contains(&id) {
                proof {
                    assert(first_duplicate(self.fragments@.dom(), ids.take(i + 1)) == Some(id));
                    lemma_first_duplicate_prefix(self.fragments@.dom(), ids, i + 1);
                }
                return Err(StreamError::DuplicateFragment { fragment_id: id });
            }
            seen.insert(id);
            i = i + 1;
            assert(ids.take(i as int) =~= ids.take(i - 1).push(id));
            assert(seen@ =~= ids.take(i as int).to_set());
        }
        assert(ids.take(i as int) =~= ids);
        // Count the edges before declaring any, so that the batch fails as a whole.
        let capacity = self.pool.capacity_left();
        let mut total: u64 = 0;
        let mut i: usize = 0;
        while i < fragments.len()
            invariant
                i <= fragments@.len(),
                *self == *old(self),
                self.pool.wf(),
                capacity == u64::MAX - self.pool.next_id(),
                first_duplicate(old(self).fragments@.dom(), fragment_ids(fragments@)) is None,
                total == total_edges(fragments@.take(i as int)),
                total <= capacity,
            decreases fragments.len() - i,
        {
            proof {
                lemma_edges_step(fragments@, i as int);
            }
            let n = fragments[i].downstream.len();
            if n as u64 > capacity - total {
                proof {
                    lemma_total_edges_prefix(fragments@, i + 1);
                }
                return Err(StreamError::ChannelIdsExhausted);
            }
            total = total + n as u64;
            i = i + 1;
        }
        assert(fragments@.take(i as int) =~= fragments@);
        let ghost pool0 = self.pool;
        let mut i: usize = 0;
        while i < fragments.len()
            invariant
                i <= fragments@.len(),
                self.pool.wf(),
                self.fragments@ == old(self).fragments@,
                self.actors@ == old(self).actors@,
                self.source_available == old(self).source_available,
                self.built@ == old(self).built@,
                pool0 == old(self).pool,
                total_edges(fragments@) <= u64::MAX - pool0.next_id(),
                self.pool.next_id() == pool0.next_id() + total_edges(fragments@.take(i as int)),
                outbound_grown(pool0, self.pool, fragments@.take(i as int), 0, 0),
                inbound_grown(pool0, self.pool, fragments@.take(i as int), Seq::empty()),
                fresh_paired(pool0, self.pool),
                suffix_fresh(pool0, self.pool),
                forall|c: ChannelId| #[trigger]
                    pool0.declared(c) ==> self.pool.declared(c) && self.pool.edge_of(c)
                        == pool0.edge_of(c),
            decreases fragments.len() - i,
        {
            proof {
                lemma_edges_step(fragments@, i as int);
                lemma_total_edges_prefix(fragments@, i + 1);
            }
            let from = fragments[i].fragment_id;
            let ghost ds = fragments@[i as int].downstream@;
            let mut j: usize = 0;
            while j < fragments[i].downstream.len()
                invariant
                    i < fragments@.len(),
                    ds == fragments@[i as int].downstream@,
                    from == fragments@[i as int].fragment_id,
                    j <= ds.len(),
                    self.pool.wf(),
                    self.fragments@ == old(self).fragments@,
                    self.actors@ == old(self).actors@,
                    self.source_available == old(self).source_available,
                    self.built@ == old(self).built@,
                    pool0 == old(self).pool,
                    total_edges(fragments@.take(i + 1)) <= u64::MAX - pool0.next_id(),
                    total_edges(fragments@.take(i + 1)) == total_edges(fragments@.take(i as int))
                        + ds.len(),
                    self.pool.next_id() == pool0.next_id() + total_edges(fragments@.take(i as int))
                        + j,
                    outbound_grown(pool0, self.pool, fragments@.take(i as int), from, j as nat),
                    inbound_grown(pool0, self.pool, fragments@.take(i as int), ds.take(j as int)),
                    fresh_paired(pool0, self.pool),
                    suffix_fresh(pool0, self.pool),
                    forall|c: ChannelId| #[trigger]
                        pool0.declared(c) ==> self.pool.declared(c) && self.pool.edge_of(c)
                            == pool0.edge_of(c),
                decreases ds.len() - j,
            {
                proof {
                    lemma_count_step(ds, j as int);
                }
                let to = fragments[i].downstream[j];
                let ghost mid = self.pool;
                let ch = self.pool.declare_edge(from, to);
                proof {
                    assert forall|c: ChannelId|
                        pool0.next_id() <= c < self.pool.next_id() implies #[trigger] self.pool.declared(c)
                        && self.pool.outbound_of(self.pool.edge_of(c).0).contains(c)
                        && self.pool.inbound_of(self.pool.edge_of(c).1).contains(c) by {
                        if c == ch {
                            assert(self.pool.outbound_of(from).last() == ch);
                            assert(self.pool.inbound_of(to).last() == ch);
                        } else {
                            assert(mid.declared(c));
                            let (a, b) = mid.edge_of(c);
                            assert(mid.outbound_of(a).contains(c));
                            let ka = choose|ka: int| 0 <= ka < mid.outbound_of(a).len() && mid.outbound_of(a)[ka] == c;
                            assert(self.pool.outbound_of(a)[ka] == c);
                            assert(mid.inbound_of(b).contains(c));
                            let kb = choose|kb: int| 0 <= kb < mid.inbound_of(b).len() && mid.inbound_of(b)[kb] == c;
                            assert(self.pool.inbound_of(b)[kb] == c);
                        }
                    }
                    assert forall|x: u32, k: int|
                        pool0.outbound_of(x).len() <= k < self.pool.outbound_of(x).len() implies pool0.next_id()
                        <= #[trigger] self.pool.outbound_of(x)[k] < self.pool.next_id() by {
                        if k < mid.outbound_of(x).len() {
                            assert(self.pool.outbound_of(x)[k] == mid.outbound_of(x)[k]);
                        }
                    }
                    assert forall|x: u32, k: int|
                        pool0.inbound_of(x).len() <= k < self.pool.inbound_of(x).len() implies pool0.next_id()
                        <= #[trigger] self.pool.inbound_of(x)[k] < self.pool.next_id() by {
                        if k < mid.inbound_of(x).len() {
                            assert(self.pool.inbound_of(x)[k] == mid.inbound_of(x)[k]);
                        }
                    }
                }
                j = j + 1;
            }
            assert(ds.take(j as int) =~= ds);
            i = i + 1;
        }
        assert(fragments@.take(i as int) =~= fragments@);
        let ghost old_frags = self.fragments@;
        let ghost all = fragments@;
        let ghost pool1 = self.pool;
        let mut rest = fragments;
        while rest.len() > 0
            invariant
                all == fragments@,
                self.pool == pool1,
                self.pool.wf(),
                self.actors@ == old(self).actors@,
                self.source_available == old(self).source_available,
                self.built@ == old(self).built@,
                old_frags == old(self).fragments@,
                rest@.len() <= all.len(),
                rest@ == all.take(rest@.len() as int),
                first_duplicate(old_frags.dom(), fragment_ids(all)) is None,
                forall|x: u32|
                    #[trigger] self.fragments@.contains_key(x) <==> old_frags.contains_key(x) || exists|j: int|
                        rest@.len() <= j < all.len() && all[j].fragment_id == x,
                forall|id: u32| #[trigger]
                    old_frags.contains_key(id) ==> self.fragments@[id] == old_frags[id],
                forall|j: int|
                    rest@.len() <= j < all.len() ==> self.fragments@[all[j].fragment_id] == #[trigger] all[j],
            decreases rest@.len(),
        {
            let ghost before = rest@;
            let frag = rest.pop().unwrap();
            let id = frag.fragment_id;
            let ghost k = rest@.len() as int;
            proof {
                lemma_no_duplicate(old_frags.dom(), fragment_ids(all));
                assert(before[k] == all[k]);
                assert(frag == all[k]);
                assert(fragment_ids(all)[k] == id);
                assert(rest@ =~= all.take(k));
            }
            self.fragments.insert(id, frag);
            proof {
                assert forall|j: int| k < j < all.len() implies all[j].fragment_id != id by {
                    assert(fragment_ids(all)[j] == all[j].fragment_id);
                }
            }
        }
        Ok(())
    }

    /// Registers actor placements, all or none: an id already present, or twice in the
    /// batch, fails the batch with `DuplicateActor` and leaves the registry as it was.
    pub fn update_actor_info(&mut self, table: Vec<ActorInfo>) -> (r: Result<(), StreamError>)
        ensures
            final(self).wf() == old(self).wf(),
            final(self).fragments_view() == old(self).fragments_view(),
            final(self).pool_view() == old(self).pool_view(),
            final(self).source_available_view() == old(self).source_available_view(),
            final(self).built_view() == old(self).built_view(),
            match first_duplicate(old(self).actors_view().dom(), actor_ids(table@)) {
                Some(d) => r == Err::<(), StreamError>(StreamError::DuplicateActor { fragment_id: d })
                    && final(self).actors_view() == old(self).actors_view(),
                None => r is Ok && placements_added(
                    old(self).actors_view(),
                    final(self).actors_view(),
                    table@,
                ),
            },
    {
        let mut seen: HashSet<u32> = HashSet::new();
        let mut i: usize = 0;
        while i < table.len()
            invariant
                i <= table@.len(),
                *self == *old(self),
                seen@ == actor_ids(table@).take(i as int).to_set(),
                first_duplicate(self.actors@.dom(), actor_ids(table@).take(i as int)) is None,
            decreases table.len() - i,
        {
            let id = table[i].fragment_id;
            let ghost ids = actor_ids(table@);
            assert(ids.take(i + 1).drop_last() =~= ids.take(i as int));
            assert(ids.take(i as int).to_set().contains(id) <==> ids.take(i as int).contains(id));
            if self.actors.contains_key(&id) || seen.contains(&id) {
                proof {
                    assert(first_duplicate(self.actors@.dom(), ids.take(i + 1)) == Some(id));
                    lemma_first_duplicate_prefix(self.actors@.dom(), ids, i + 1);
                }
                return Err(StreamError::DuplicateActor { fragment_id: id });
            }
            seen.insert(id);
            i = i + 1;
            assert(ids.take(i as int) =~= ids.take(i - 1).push(id));
            assert(seen@ =~= ids.take(i as int).to_set());
        }
        assert(actor_ids(table@).take(i as int) =~= actor_ids(table@));
        let ghost old_actors = self.actors@;
        let ghost all = table@;
        let mut rest = table;
        while rest.len() > 0
            invariant
                all == table@,
                self.pool == old(self).pool,
                self.fragments@ == old(self).fragments@,
                self.source_available == old(self).source_available,
                self.built@ == old(self).built@,
                old_actors == old(self).actors@,
                rest@.len() <= all.len(),
                rest@ == all.take(rest@.len() as int),
                first_duplicate(old_actors.dom(), actor_ids(all)) is None,
                forall|x: u32|
                    #[trigger] self.actors@.contains_key(x) <==> old_actors.contains_key(x) || exists|j: int|
                        rest@.len() <= j < all.len() && all[j].fragment_id == x,
                forall|id: u32| #[trigger]
                    old_actors.contains_key(id) ==> self.actors@[id] == old_actors[id],
                forall|j: int|
                    rest@.len() <= j < all.len() ==> self.actors@[all[j].fragment_id] == #[trigger] all[j],
            decreases rest@.len(),
        {
            let ghost before = rest@;
            let info = rest.pop().unwrap();
            let id = info.fragment_id;
            let ghost k = rest@.len() as int;
            proof {
                lemma_no_duplicate(old_actors.dom(), actor_ids(all));
                assert(before[k] == all[k]);
                assert(info == all[k]);
                assert(actor_ids(all)[k] == id);
                assert(rest@ =~= all.take(k));
            }
            self.actors.insert(id, info);
            proof {
                assert forall|j: int| k < j < all.len() implies all[j].fragment_id != id by {
                    assert(actor_ids(all)[j] == all[j].fragment_id);
                }
            }
        }
        Ok(())
    }
}

/// A duplicate found in a prefix is the first duplicate of the whole sequence.
pub proof fn lemma_first_duplicate_prefix(existing: Set<u32>, ids: Seq<u32>, n: int)
    requires
        0 <= n <= ids.len(),
        first_duplicate(existing, ids.take(n)) is Some,
    ensures
        first_duplicate(existing, ids) == first_duplicate(existing, ids.take(n)),
    decreases ids.len(),
{
    if n < ids.len() {
        let init = ids.drop_last();
        assert(init.take(n) =~= ids.take(n));
        lemma_first_duplicate_prefix(existing, init, n);
    } else {
        assert(ids.take(n) =~= ids);
    }
}

/// Unfolds the edge counts of a batch prefix by one fragment.
pub proof fn lemma_edges_step(batch: Seq<Fragment>, i: int)
    requires
        0 <= i < batch.len(),
    ensures
        total_edges(batch.take(i + 1)) == total_edges(batch.take(i)) + batch[i].downstream@.len(),
        forall|x: u32|
            #[trigger] out_edges(batch.take(i + 1), x) == out_edges(batch.take(i), x) + if batch[i].fragment_id
                == x {
                batch[i].downstream@.len()
            } else {
                0nat
            },
        forall|x: u32|
            #[trigger] in_edges(batch.take(i + 1), x) == in_edges(batch.take(i), x) + count_of(
                batch[i].downstream@,
                x,
            ),
{
    assert(batch.take(i + 1).drop_last() =~= batch.take(i));
}

/// Unfolds `count_of` on a prefix by one element.
pub proof fn lemma_count_step(s: Seq<u32>, j: int)
    requires
        0 <= j < s.len(),
    ensures
        forall|x: u32|
            #[trigger] count_of(s.take(j + 1), x) == count_of(s.take(j), x) + if s[j] == x {
                1nat
            } else {
                0nat
            },
{
    assert(s.take(j + 1).drop_last() =~= s.take(j));
}

/// A prefix of a batch declares no more edges than the batch.
pub proof fn lemma_total_edges_prefix(batch: Seq<Fragment>, n: int)
    requires
        0 <= n <= batch.len(),
    ensures
        total_edges(batch.take(n)) <= total_edges(batch),
    decreases batch.len(),
{
    if n < batch.len() {
        let init = batch.drop_last();
        assert(init.take(n) =~= batch.take(n));
        lemma_total_edges_prefix(init, n);
    } else {
        assert(batch.take(n) =~= batch);
    }
}

/// Without a duplicate, no id of `ids` is in `existing` and no two ids are equal.
pub proof fn lemma_no_duplicate(existing: Set<u32>, ids: Seq<u32>)
    requires
        first_duplicate(existing, ids) is None,
    ensures
        forall|i: int| 0 <= i < ids.len() ==> !existing.contains(#[trigger] ids[i]),
        forall|i: int, j: int| 0 <= i < j < ids.len() ==> ids[i] != ids[j],
    decreases ids.len(),
{
    if ids.len() > 0 {
        let init = ids.drop_last();
        lemma_no_duplicate(existing, init);
        assert forall|i: int| 0 <= i < ids.len() implies !existing.contains(#[trigger] ids[i]) by {
            if i < init.len() {
                assert(init[i] == ids[i]);
            }
        }
        assert forall|i: int, j: int| 0 <= i < j < ids.len() implies ids[i] != ids[j] by {
            if j < init.len() {
                assert(init[i] == ids[i] && init[j] == ids[j]);
            } else {
                assert(init[i] == ids[i]);
                assert(init.contains(ids[i]));
            }
        }
    }
}

/// How many of the upstream ids a fragment reads are the bootstrap source.
pub fn bootstrap_count(ups: &Vec<u32>) -> (r: usize)
    ensures
        r == count_of(sources_of(ups@), BOOTSTRAP_FRAGMENT),
        r <= sources_of(ups@).len(),
{
    if ups.len() == 0 {
        proof {
            assert(sources_of(ups@).drop_last() =~= Seq::<u32>::empty());
            reveal_with_fuel(count_of, 2);
        }
        return 1;
    }
    let mut n: usize = 0;
    let mut i: usize = 0;
    while i < ups.len()
        invariant
            i <= ups@.len(),
            n <= i,
            n == count_of(ups@.take(i as int), BOOTSTRAP_FRAGMENT),
        decreases ups.len() - i,
    {
        proof {
            lemma_count_step(ups@, i as int);
        }
        if ups[i] == BOOTSTRAP_FRAGMENT {
            n = n + 1;
        }
        i = i + 1;
    }
    assert(ups@.take(i as int) =~= ups@);
    n
}

/// Whether `host` names this process's own address.
pub fn is_local_host(host: &String) -> (r: bool)
    ensures
        r == (host@ == "127.0.0.1"@),
{
    let local: String = "127.0.0.1".to_owned();
    *host == local
}

impl StreamManagerCore {
    /// The fault of the first upstream id that has one.
    fn check_upstreams(&self, id: u32, ups: &Vec<u32>) -> (r: Option<StreamError>)
        ensures
            r == first_upstream_fault(id, ups@, self.actors_view()),
    {
        let mut i: usize = 0;
        while i < ups.len()
            invariant
                i <= ups@.len(),
                first_upstream_fault(id, ups@.take(i as int), self.actors@) is None,
            decreases ups.len() - i,
        {
            assert(ups@.take(i + 1).drop_last() =~= ups@.take(i as int));
            let u = ups[i];
            if u != BOOTSTRAP_FRAGMENT {
                match self.actors.get(&u) {
                    None => {
                        let e = StreamError::UnknownUpstream { fragment_id: id, upstream: u };
                        proof {
                            lemma_upstream_fault_prefix(id, ups@, self.actors@, i + 1);
                        }
                        return Some(e);
                    },
                    Some(info) => {
                        if !is_local_host(&info.host) {
                            proof {
                                lemma_upstream_fault_prefix(id, ups@, self.actors@, i + 1);
                            }
                            return Some(
                                StreamError::UnsupportedFeature {
                                    fragment_id: id,
                                    feature: Feature::RemoteUpstream,
                                },
                            );
                        }
                    },
                }
            }
            i = i + 1;
        }
        assert(ups@.take(i as int) =~= ups@);
        None
    }

    /// Whether building a fragment with upstreams `ups` takes the bootstrap receiver.
    fn check_takes_bootstrap(&self, ups: &Vec<u32>) -> (r: bool)
        ensures
            r == self.takes_bootstrap(ups@),
    {
        self.source_available && bootstrap_count(ups) > 0
    }

    /// The error that resolving the merge input of fragment `id` would raise.
    fn check_merge(&self, id: u32, ups: &Vec<u32>) -> (r: Option<StreamError>)
        ensures
            r == self.merge_error(id, ups@),
    {
        let fault = self.check_upstreams(id, ups);
        if fault.is_some() {
            return fault;
        }
        let sources: usize = if ups.len() == 0 {
            1
        } else {
            ups.len()
        };
        let zeros = bootstrap_count(ups);
        if zeros > 1 {
            // there is one bootstrap receiver, so it can stand for one upstream only
            return Some(StreamError::TopologyMismatch { fragment_id: id, required: zeros, found: 1 });
        }
        if zeros > 0 && !self.source_available {
            return Some(StreamError::BootstrapSourceTaken { fragment_id: id });
        }
        let required: usize = sources - zeros;
        let found = self.pool.inbound_len(id);
        if found != required {
            Some(StreamError::TopologyMismatch { fragment_id: id, required, found })
        } else {
            None
        }
    }

    /// The error that wiring the dispatcher of fragment `id` would raise.
    fn check_dispatch(&self, id: u32, kind: DispatchKind, downstream: usize) -> (r: Option<
        StreamError,
    >)
        ensures
            r == self.dispatch_error(id, kind, downstream as nat),
    {
        let outputs = self.pool.outbound_len(id);
        if outputs != downstream {
            Some(StreamError::TopologyMismatch { fragment_id: id, required: downstream, found: outputs })
        } else if !check_arity(kind, outputs) {
            Some(StreamError::InvalidDispatchArity { fragment_id: id, outputs })
        } else {
            None
        }
    }

    /// The error that building fragment `id` would raise, found without changing anything.
    pub fn check_build(&self, id: u32) -> (r: Option<StreamError>)
        ensures
            r == self.build_error(id),
    {
        match self.fragments.get(&id) {
            None => Some(StreamError::FragmentAlreadyBuilt { fragment_id: id }),
            Some(f) => {
                let m = self.check_merge(id, &f.upstream);
                if m.is_some() {
                    return m;
                }
                let c = check_chain(id, &f.nodes);
                if c.is_some() {
                    return c;
                }
                self.check_dispatch(id, f.dispatcher, f.downstream.len())
            },
        }
    }

    /// Builds the actor of fragment `id`: takes the fragment out of the registry, takes its
    /// channels out of the pool, resolves its merge input, builds its operator chain and
    /// dispatcher, and queues the actor. On an error nothing changes.
    pub fn build_actor(&mut self, id: u32) -> (r: Result<(), StreamError>)
        requires
            old(self).wf(),
        ensures
            final(self).wf(),
            final(self).actors_view() == old(self).actors_view(),
            match old(self).build_error(id) {
                Some(e) => r == Err::<(), StreamError>(e) && *final(self) == *old(self),
                None => r is Ok && old(self).build_step(id, *final(self)),
            },
    {
        if let Some(e) = self.check_build(id) {
            return Err(e);
        }
        let ghost s0 = *self;
        let frag = self.fragments.remove(&id).unwrap();
        let takes = self.check_takes_bootstrap(&frag.upstream);
        let mut chs = self.pool.take_inbound(id);
        if takes {
            chs.push(BOOTSTRAP_CHANNEL);
            self.source_available = false;
        }
        assert(chs@ =~= s0.merge_channels(id, frag.upstream@));
        let input = if chs.len() == 1 {
            MergeInput::Receiver(chs[0])
        } else {
            MergeInput::Merge(chs)
        };
        let outputs = self.pool.take_outbound(id);
        let dispatcher = frag.dispatcher;
        let operators = match create_nodes(id, frag.nodes) {
            Ok(ops) => ops,
            Err(e) => return Err(e),
        };
        let plan = ActorPlan { fragment_id: id, input, operators, dispatcher, outputs };
        self.built.push(plan);
        assert(self.built@.drop_last() =~= s0.built@);
        Ok(())
    }

    /// Builds the fragments `ids` in order, each as `build_actor` does. On the first error the
    /// fragments before it stay built, that one and those after it stay registered with
    /// their channels, and the error is returned.
    pub fn build_fragment(&mut self, ids: &Vec<u32>) -> (r: Result<(), StreamError>)
        requires
            old(self).wf(),
        ensures
            final(self).wf(),
            exists|states: Seq<StreamManagerCore>|
                #[trigger] build_run(states, ids@, r) && states[0] == *old(self) && states.last()
                    == *final(self),
    {
        let ghost mut states: Seq<StreamManagerCore> = seq![*self];
        let mut i: usize = 0;
        while i < ids.len()
            invariant
                i <= ids@.len(),
                self.wf(),
                states.len() == i + 1,
                states[0] == *old(self),
                states.last() == *self,
                forall|k: int|
                    0 <= k < i ==> (#[trigger] states[k]).build_error(ids@[k]) is None
                        && states[k].build_step(ids@[k], states[k + 1]),
            decreases ids.len() - i,
        {
            let ghost before = states;
            match self.build_actor(ids[i]) {
                Ok(()) => {
                    proof {
                        states = states.push(*self);
                        assert forall|k: int|
                            0 <= k < i + 1 implies (#[trigger] states[k]).build_error(ids@[k]) is None
                            && states[k].build_step(ids@[k], states[k + 1]) by {
                            if k < i {
                                assert(states[k] == before[k] && states[k + 1] == before[k + 1]);
                            }
                        }
                    }
                    i = i + 1;
                },
                Err(e) => {
                    assert(build_run(states, ids@, Err::<(), StreamError>(e)));
                    return Err(e);
                },
            }
        }
        assert(build_run(states, ids@, Ok::<(), StreamError>(())));
        Ok(())
    }

    /// Hands out the actors built so far, in build order.
    pub fn take_built(&mut self) -> (r: Vec<ActorPlan>)
        ensures
            final(self).wf() == old(self).wf(),
            r@ == old(self).built_view(),
            final(self).built_view() == Seq::<ActorPlan>::empty(),
            final(self).fragments_view() == old(self).fragments_view(),
            final(self).actors_view() == old(self).actors_view(),
            final(self).pool_view() == old(self).pool_view(),
            final(self).source_available_view() == old(self).source_available_view(),
    {
        let mut out: Vec<ActorPlan> = Vec::new();
        std::mem::swap(&mut out, &mut self.built);
        out
    }

    /// Removes and returns the first receiver that waits at fragment `id`, for a consumer
    /// outside the built actors; the other receivers stay in the pool.
    pub fn take_sink(&mut self, id: u32) -> (r: Option<ChannelId>)
        ensures
            old(self).wf() ==> final(self).wf(),
            r == if old(self).pool_view().inbound_of(id).len() == 0 {
                None::<ChannelId>
            } else {
                Some(old(self).pool_view().inbound_of(id)[0])
            },
            forall|x: u32| #[trigger]
                final(self).pool_view().inbound_of(x) == if x == id && old(
                    self,
                ).pool_view().inbound_of(x).len() > 0 {
                    old(self).pool_view().inbound_of(x).drop_first()
                } else {
                    old(self).pool_view().inbound_of(x)
                },
            forall|x: u32| #[trigger]
                final(self).pool_view().outbound_of(x) == old(self).pool_view().outbound_of(x),
            final(self).fragments_view() == old(self).fragments_view(),
            final(self).actors_view() == old(self).actors_view(),
            final(self).built_view() == old(self).built_view(),
            final(self).source_available_view() == old(self).source_available_view(),
    {
        self.pool.take_first_inbound(id)
    }
}

/// Whether `states` is a run of building `ids` in order with result `r`: `states[0]` is the
/// state before, and each `states[k + 1]` is what building `ids[k]` from `states[k]` leads
/// to, as `build_step` says, while no id fails. The run stops at the first id with a
/// `build_error`, which becomes the result; the state is then left as it was before that
/// id, so it and every later id keep their fragments and channels. Where no id fails, every
/// id is built and the result is `Ok`.
pub open spec fn build_run(
    states: Seq<StreamManagerCore>,
    ids: Seq<u32>,
    r: Result<(), StreamError>,
) -> bool {
    let n = states.len() - 1;
    &&& states.len() >= 1
    &&& n <= ids.len()
    &&& forall|k: int|
        0 <= k < n ==> (#[trigger] states[k]).build_error(ids[k]) is None && states[k].build_step(
            ids[k],
            states[k + 1],
        )
    &&& match r {
        Ok(()) => n == ids.len(),
        Err(e) => n < ids.len() && states[n].build_error(ids[n]) == Some(e),
    }
}

/// A batch rejected for a duplicate id leaves the registry as it was, so building a fragment
/// of the batch that was not registered before fails afterwards with `FragmentAlreadyBuilt`
/// and builds nothing.
pub proof fn lemma_rejected_batch_not_buildable(
    before: StreamManagerCore,
    after: StreamManagerCore,
    batch: Seq<Fragment>,
    i: int,
    states: Seq<StreamManagerCore>,
    r: Result<(), StreamError>,
)
    requires
        first_duplicate(before.fragments_view().dom(), fragment_ids(batch)) is Some,
        after.fragments_view() == before.fragments_view(),
        0 <= i < batch.len(),
        !before.fragments_view().contains_key(batch[i].fragment_id),
        build_run(states, seq![batch[i].fragment_id], r),
        states[0] == after,
    ensures
        r == Err::<(), StreamError>(
            StreamError::FragmentAlreadyBuilt { fragment_id: batch[i].fragment_id },
        ),
        states.len() == 1,
{
    assert(after.build_error(batch[i].fragment_id) is Some);
    if states.len() > 1 {
        assert(states[0].build_error(seq![batch[i].fragment_id][0]) is None);
    }
}

/// A merge that resolves without error reads one channel per upstream it reads from: more
/// than one upstream gives a fan-in merge over that many channels, one gives a passthrough.
pub proof fn lemma_merge_reads_every_upstream(core: StreamManagerCore, id: u32, upstream: Seq<u32>)
    requires
        core.merge_error(id, upstream) is None,
    ensures
        core.merge_channels(id, upstream).len() == sources_of(upstream).len(),
{
}

/// A built actor reads through a passthrough exactly when its fragment reads one upstream,
/// and otherwise through a fan-in merge over one channel per upstream.
pub proof fn lemma_built_input_width(core: StreamManagerCore, id: u32, plan: ActorPlan)
    requires
        core.build_error(id) is None,
        core.plan_of(id, plan),
    ensures
        match plan.input {
            MergeInput::Receiver(_) => sources_of(core.fragments_view()[id].upstream@).len() == 1,
            MergeInput::Merge(v) => v@.len() == sources_of(
                core.fragments_view()[id].upstream@,
            ).len() && v@.len() > 1,
        },
{
    lemma_merge_reads_every_upstream(core, id, core.fragments_view()[id].upstream@);
}

/// Built actors are wired along the declared edges: every channel an actor writes to was
/// declared for an edge out of its fragment, and every channel its merge reads is the bootstrap
/// source or was declared for an edge into its fragment. Each channel has one sender and one
/// receiver, so whatever the upstream end sends on it is what the downstream merge receives.
pub proof fn lemma_built_channels_follow_edges(core: StreamManagerCore, id: u32, plan: ActorPlan)
    requires
        core.wf(),
        core.build_error(id) is None,
        core.plan_of(id, plan),
    ensures
        forall|k: int|
            0 <= k < plan.outputs@.len() ==> core.pool_view().declared(#[trigger] plan.outputs@[k])
                && core.pool_view().edge_of(plan.outputs@[k]).0 == id,
        forall|k: int|
            0 <= k < core.merge_channels(id, core.fragments_view()[id].upstream@).len() ==> {
                let c = #[trigger] core.merge_channels(id, core.fragments_view()[id].upstream@)[k];
                c == BOOTSTRAP_CHANNEL || (core.pool_view().declared(c)
                    && core.pool_view().edge_of(c).1 == id)
            },
{
    core.pool.lemma_endpoints_follow_edges(id);
    let chs = core.merge_channels(id, core.fragments_view()[id].upstream@);
    let inb = core.pool_view().inbound_of(id);
    assert forall|k: int| 0 <= k < chs.len() implies {
        let c = #[trigger] chs[k];
        c == BOOTSTRAP_CHANNEL || (core.pool_view().declared(c) && core.pool_view().edge_of(c).1
            == id)
    } by {
        if k < inb.len() {
            assert(chs[k] == inb[k]);
        }
    }
}

/// A fault found in a prefix of the upstream ids is the first fault of all of them.
pub proof fn lemma_upstream_fault_prefix(
    fragment_id: u32,
    ups: Seq<u32>,
    actors: Map<u32, ActorInfo>,
    n: int,
)
    requires
        0 <= n <= ups.len(),
        first_upstream_fault(fragment_id, ups.take(n), actors) is Some,
    ensures
        first_upstream_fault(fragment_id, ups, actors) == first_upstream_fault(
            fragment_id,
            ups.take(n),
            actors,
        ),
    decreases ups.len(),
{
    if n < ups.len() {
        let init = ups.drop_last();
        assert(init.take(n) =~= ups.take(n));
        lemma_upstream_fault_prefix(fragment_id, init, actors, n);
    } else {
        assert(ups.take(n) =~= ups);
    }
}

} // verus!
