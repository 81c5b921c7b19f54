use vstd::prelude::*;

verus! {

/// A feature that the topology builder deliberately does not provide.
#[derive(Clone, Copy, Debug, PartialEq, Eq, Structural)]
pub enum Feature {
    /// An aggregate call with two or more arguments.
    MultipleAggregationArgs,
    /// An upstream actor placed on another host.
    RemoteUpstream,
}

/// Every failure names the fragment concerned and the kind of fault.
#[derive(Clone, Copy, Debug, PartialEq, Eq, Structural)]
pub enum StreamError {
    /// A fragment id was registered twice.
    DuplicateFragment { fragment_id: u32 },
    /// An actor placement was registered twice.
    DuplicateActor { fragment_id: u32 },
    /// A fragment is not (or no longer) in the registry when it is built.
    FragmentAlreadyBuilt { fragment_id: u32 },
    /// The channel endpoints collected for a fragment disagree with its declared edges.
    TopologyMismatch { fragment_id: u32, required: usize, found: usize },
    /// An operator or dispatch kind that cannot be built.
    UnsupportedOperator { fragment_id: u32, kind: OperatorKind },
    /// A feature that is explicitly not supported.
    UnsupportedFeature { fragment_id: u32, feature: Feature },
    /// A dispatch policy wired to a number of outputs it cannot serve.
    InvalidDispatchArity { fragment_id: u32, outputs: usize },
    /// A fragment reads the bootstrap source after another fragment has taken it.
    BootstrapSourceTaken { fragment_id: u32 },
    /// Registering the batch would exhaust the channel ids.
    ChannelIdsExhausted,
    /// An upstream fragment has no registered actor placement.
    UnknownUpstream { fragment_id: u32, upstream: u32 },
}

/// The kinds of operator nodes a fragment may describe.
#[derive(Clone, Copy, Debug, PartialEq, Eq, Structural)]
pub enum OperatorKind {
    Projection,
    Filter,
    LocalSimpleAgg,
    GlobalSimpleAgg,
    LocalHashAgg,
    GlobalHashAgg,
    MaterializedView,
}

} // verus!
