use stream_manager::dispatch::{hash_key, DispatchKind, Router};
use stream_manager::error::{Feature, OperatorKind, StreamError};
use stream_manager::manager::{ActorInfo, ActorPlan, Fragment, MergeInput, StreamManagerCore};
use stream_manager::plan::{
    apply_chain, build_agg_call, filter_passes, project_row, ChainFault, AggArgDesc, AggArgs, AggCallDesc, AggKind,
    DataType, Expr, NodeDesc, Operator,
};

fn local(id: u32) -> ActorInfo {
    ActorInfo { fragment_id: id, host: "127.0.0.1".to_string(), port: 5688 }
}

fn fragment(id: u32, nodes: Vec<NodeDesc>, d: DispatchKind, up: Vec<u32>, down: Vec<u32>) -> Fragment {
    Fragment { fragment_id: id, nodes, dispatcher: d, upstream: up, downstream: down }
}

fn pass_through() -> Vec<NodeDesc> {
    vec![NodeDesc::Projection { exprs: vec![Expr::Column(0)] }]
}

#[test]
fn simple_dispatch_with_two_downstreams_fails() {
    let mut core = StreamManagerCore::new();
    core.update_actor_info(vec![local(1), local(2), local(3)]).unwrap();
    core.update_fragment(vec![fragment(1, pass_through(), DispatchKind::Simple, vec![0], vec![2, 3])])
        .unwrap();
    assert_eq!(
        core.build_fragment(&vec![1]),
        Err(StreamError::InvalidDispatchArity { fragment_id: 1, outputs: 2 })
    );
}

#[test]
fn simple_dispatch_with_one_downstream_succeeds() {
    let mut core = StreamManagerCore::new();
    core.update_fragment(vec![fragment(1, pass_through(), DispatchKind::Simple, vec![0], vec![2])])
        .unwrap();
    assert_eq!(core.build_fragment(&vec![1]), Ok(()));
    let built = core.take_built();
    assert_eq!(built.len(), 1);
    assert_eq!(built[0].fragment_id, 1);
    assert_eq!(built[0].outputs.len(), 1);
}

#[test]
fn duplicate_fragment_fails_whole_batch() {
    let mut core = StreamManagerCore::new();
    let r = core.update_fragment(vec![
        fragment(7, pass_through(), DispatchKind::Blackhole, vec![0], vec![]),
        fragment(7, pass_through(), DispatchKind::Blackhole, vec![0], vec![]),
    ]);
    assert_eq!(r, Err(StreamError::DuplicateFragment { fragment_id: 7 }));
    assert_eq!(core.check_build(7), Some(StreamError::FragmentAlreadyBuilt { fragment_id: 7 }));
    assert_eq!(
        core.build_fragment(&vec![7]),
        Err(StreamError::FragmentAlreadyBuilt { fragment_id: 7 })
    );
}

#[test]
fn duplicate_against_registered_fragment_keeps_registry() {
    let mut core = StreamManagerCore::new();
    core.update_fragment(vec![fragment(1, pass_through(), DispatchKind::Blackhole, vec![0], vec![])])
        .unwrap();
    let r = core.update_fragment(vec![
        fragment(2, pass_through(), DispatchKind::Blackhole, vec![0], vec![]),
        fragment(1, pass_through(), DispatchKind::Blackhole, vec![0], vec![]),
    ]);
    assert_eq!(r, Err(StreamError::DuplicateFragment { fragment_id: 1 }));
    assert_eq!(core.check_build(2), Some(StreamError::FragmentAlreadyBuilt { fragment_id: 2 }));
    assert_eq!(core.check_build(1), None);
}

#[test]
fn duplicate_actor_is_rejected() {
    let mut core = StreamManagerCore::new();
    core.update_actor_info(vec![local(1)]).unwrap();
    assert_eq!(
        core.update_actor_info(vec![local(2), local(1)]),
        Err(StreamError::DuplicateActor { fragment_id: 1 })
    );
}

fn plan_for(plans: &[ActorPlan], id: u32) -> &ActorPlan {
    plans.iter().find(|p| p.fragment_id == id).unwrap()
}

#[test]
fn end_to_end_projection_filter_blackhole() {
    let mut core = StreamManagerCore::new();
    core.update_actor_info(vec![local(1), local(2)]).unwrap();
    let a = fragment(1, pass_through(), DispatchKind::Simple, vec![], vec![2]);
    let cond = Expr::GreaterThan(Box::new(Expr::Column(0)), Box::new(Expr::Constant(0)));
    let b = fragment(2, vec![NodeDesc::Filter { condition: cond }], DispatchKind::Blackhole, vec![1], vec![]);
    core.update_fragment(vec![a, b]).unwrap();
    assert_eq!(core.build_fragment(&vec![1, 2]), Ok(()));
    let plans = core.take_built();
    let pa = plan_for(&plans, 1);
    let pb = plan_for(&plans, 2);
    // A reads the bootstrap source; B reads the one channel A writes to.
    assert!(matches!(pa.input, MergeInput::Receiver(0)));
    let link = pa.outputs[0];
    assert!(matches!(pb.input, MergeInput::Receiver(c) if c == link));

    let mut router_a = Router::new(pa.dispatcher, pa.outputs.len());
    let mut router_b = Router::new(pb.dispatcher, pb.outputs.len());
    let mut processed: Vec<i64> = Vec::new();
    let mut discarded = 0;
    for v in [1i64, -1, 2] {
        let row = vec![v];
        let Operator::Projection { exprs } = &pa.operators[0] else { panic!("projection") };
        let out = project_row(exprs, &row).unwrap();
        let targets = router_a.route(&out);
        assert_eq!(targets, vec![0]);
        let Operator::Filter { condition } = &pb.operators[0] else { panic!("filter") };
        if filter_passes(condition, &out) {
            processed.push(out[0]);
            assert!(router_b.route(&out).is_empty());
            discarded += 1;
        }
    }
    assert_eq!(processed, vec![1, 2]);
    assert_eq!(discarded, 2);
}

#[test]
fn missing_upstream_channel_is_topology_mismatch() {
    let mut core = StreamManagerCore::new();
    core.update_actor_info(vec![local(1), local(2), local(3)]).unwrap();
    core.update_fragment(vec![
        fragment(1, pass_through(), DispatchKind::Simple, vec![0], vec![3]),
        fragment(3, pass_through(), DispatchKind::Blackhole, vec![1, 2], vec![]),
    ])
    .unwrap();
    assert_eq!(
        core.build_fragment(&vec![3]),
        Err(StreamError::TopologyMismatch { fragment_id: 3, required: 2, found: 1 })
    );
}

#[test]
fn failed_build_keeps_earlier_builds_and_later_fragments() {
    let mut core = StreamManagerCore::new();
    core.update_actor_info(vec![local(1), local(2), local(3)]).unwrap();
    core.update_fragment(vec![
        fragment(1, pass_through(), DispatchKind::Simple, vec![0], vec![3]),
        fragment(3, pass_through(), DispatchKind::Blackhole, vec![1, 2], vec![]),
        fragment(4, pass_through(), DispatchKind::Blackhole, vec![1], vec![]),
    ])
    .unwrap();
    assert!(core.build_fragment(&vec![1, 3, 4]).is_err());
    let built = core.take_built();
    assert_eq!(built.len(), 1);
    assert_eq!(built[0].fragment_id, 1);
    assert_eq!(core.check_build(1), Some(StreamError::FragmentAlreadyBuilt { fragment_id: 1 }));
    assert_eq!(
        core.check_build(4),
        Some(StreamError::TopologyMismatch { fragment_id: 4, required: 1, found: 0 })
    );
}

#[test]
fn fragment_cannot_be_built_twice() {
    let mut core = StreamManagerCore::new();
    core.update_fragment(vec![fragment(1, pass_through(), DispatchKind::Blackhole, vec![0], vec![])])
        .unwrap();
    assert_eq!(core.build_fragment(&vec![1]), Ok(()));
    assert_eq!(
        core.build_fragment(&vec![1]),
        Err(StreamError::FragmentAlreadyBuilt { fragment_id: 1 })
    );
}

#[test]
fn remote_upstream_is_unsupported() {
    let mut core = StreamManagerCore::new();
    let remote = ActorInfo { fragment_id: 1, host: "10.0.0.7".to_string(), port: 5688 };
    core.update_actor_info(vec![remote]).unwrap();
    core.update_fragment(vec![
        fragment(1, pass_through(), DispatchKind::Simple, vec![0], vec![2]),
        fragment(2, pass_through(), DispatchKind::Blackhole, vec![1], vec![]),
    ])
    .unwrap();
    assert_eq!(
        core.build_fragment(&vec![2]),
        Err(StreamError::UnsupportedFeature { fragment_id: 2, feature: Feature::RemoteUpstream })
    );
}

#[test]
fn unknown_upstream_is_reported() {
    let mut core = StreamManagerCore::new();
    core.update_fragment(vec![fragment(2, pass_through(), DispatchKind::Blackhole, vec![9], vec![])])
        .unwrap();
    assert_eq!(
        core.build_fragment(&vec![2]),
        Err(StreamError::UnknownUpstream { fragment_id: 2, upstream: 9 })
    );
}

#[test]
fn unsupported_global_aggregation() {
    let mut core = StreamManagerCore::new();
    core.update_fragment(vec![fragment(1, vec![NodeDesc::GlobalSimpleAgg], DispatchKind::Blackhole, vec![0], vec![])])
        .unwrap();
    assert_eq!(
        core.build_fragment(&vec![1]),
        Err(StreamError::UnsupportedOperator { fragment_id: 1, kind: OperatorKind::GlobalSimpleAgg })
    );
    assert_eq!(core.check_build(1), Some(StreamError::UnsupportedOperator { fragment_id: 1, kind: OperatorKind::GlobalSimpleAgg }));
}

#[test]
fn multiple_aggregation_args_unsupported() {
    let arg = AggArgDesc { data_type: DataType::Int64, column: 0 };
    let desc = AggCallDesc { kind: AggKind::Sum, args: vec![arg, arg], return_type: DataType::Int64 };
    assert_eq!(
        build_agg_call(5, &desc),
        Err(StreamError::UnsupportedFeature { fragment_id: 5, feature: Feature::MultipleAggregationArgs })
    );
    let one = AggCallDesc { kind: AggKind::Sum, args: vec![AggArgDesc { data_type: DataType::Int32, column: 3 }], return_type: DataType::Int64 };
    let c = build_agg_call(5, &one).unwrap();
    assert_eq!(c.args, AggArgs::Unary(DataType::Int32, 3));
    assert_eq!(c.kind, AggKind::Sum);
    let none = AggCallDesc { kind: AggKind::Count, args: vec![], return_type: DataType::Int64 };
    assert_eq!(build_agg_call(5, &none).unwrap().args, AggArgs::NoArgs);
}

#[test]
fn operator_chain_is_built_innermost_first() {
    let mut core = StreamManagerCore::new();
    let calls = vec![AggCallDesc { kind: AggKind::Count, args: vec![], return_type: DataType::Int64 }];
    let nodes = vec![
        NodeDesc::MaterializedView { pk_columns: vec![0, 2] },
        NodeDesc::LocalHashAgg { group_keys: vec![1], calls },
        NodeDesc::Filter { condition: Expr::Constant(1) },
    ];
    core.update_fragment(vec![fragment(1, nodes, DispatchKind::Blackhole, vec![0], vec![])]).unwrap();
    core.build_fragment(&vec![1]).unwrap();
    let built = core.take_built();
    let ops = &built[0].operators;
    assert_eq!(ops.len(), 3);
    assert!(matches!(ops[0], Operator::Filter { .. }));
    match &ops[1] {
        Operator::HashAgg { group_keys, calls } => {
            assert_eq!(group_keys, &vec![1usize]);
            assert_eq!(calls.len(), 1);
        }
        _ => panic!("hash aggregation expected"),
    }
    match &ops[2] {
        Operator::MaterializedView { pk_columns } => assert_eq!(pk_columns, &vec![0usize, 2]),
        _ => panic!("materialized view expected"),
    }
}

#[test]
fn blackhole_with_outputs_is_invalid() {
    let mut core = StreamManagerCore::new();
    core.update_fragment(vec![fragment(1, pass_through(), DispatchKind::Blackhole, vec![0], vec![2])])
        .unwrap();
    assert_eq!(
        core.build_fragment(&vec![1]),
        Err(StreamError::InvalidDispatchArity { fragment_id: 1, outputs: 1 })
    );
}

#[test]
fn round_robin_without_outputs_is_invalid() {
    let mut core = StreamManagerCore::new();
    core.update_fragment(vec![fragment(1, pass_through(), DispatchKind::RoundRobin, vec![0], vec![])])
        .unwrap();
    assert_eq!(
        core.build_fragment(&vec![1]),
        Err(StreamError::InvalidDispatchArity { fragment_id: 1, outputs: 0 })
    );
}

#[test]
fn two_upstreams_build_a_merge() {
    let mut core = StreamManagerCore::new();
    core.update_actor_info(vec![local(1), local(2), local(3)]).unwrap();
    core.update_fragment(vec![
        fragment(1, pass_through(), DispatchKind::Simple, vec![0], vec![3]),
        fragment(2, pass_through(), DispatchKind::Simple, vec![0], vec![3]),
        fragment(3, pass_through(), DispatchKind::Blackhole, vec![1, 2], vec![]),
    ])
    .unwrap();
    core.build_fragment(&vec![3]).unwrap();
    let built = core.take_built();
    match &built[0].input {
        MergeInput::Merge(chs) => assert_eq!(chs.len(), 2),
        _ => panic!("merge expected"),
    }
}

#[test]
fn bootstrap_source_is_taken_once() {
    let mut core = StreamManagerCore::new();
    core.update_fragment(vec![
        fragment(1, pass_through(), DispatchKind::Blackhole, vec![0], vec![]),
        fragment(2, pass_through(), DispatchKind::Blackhole, vec![0], vec![]),
    ])
    .unwrap();
    assert_eq!(core.build_fragment(&vec![1]), Ok(()));
    assert_eq!(
        core.build_fragment(&vec![2]),
        Err(StreamError::BootstrapSourceTaken { fragment_id: 2 })
    );
}

#[test]
fn bootstrap_upstream_needs_no_pool_receiver() {
    let mut core = StreamManagerCore::new();
    core.update_actor_info(vec![local(1)]).unwrap();
    core.update_fragment(vec![
        fragment(1, pass_through(), DispatchKind::Simple, vec![0], vec![2]),
        fragment(2, pass_through(), DispatchKind::Blackhole, vec![0, 1], vec![]),
    ])
    .unwrap();
    assert_eq!(core.build_fragment(&vec![2]), Ok(()));
    let built = core.take_built();
    match &built[0].input {
        MergeInput::Merge(chs) => assert_eq!(chs.len(), 2),
        _ => panic!("merge expected"),
    }
}

#[test]
fn sink_receivers_are_taken_one_at_a_time() {
    let mut core = StreamManagerCore::new();
    core.update_fragment(vec![fragment(1, pass_through(), DispatchKind::Broadcast, vec![0], vec![233, 233])])
        .unwrap();
    let first = core.take_sink(233).unwrap();
    let second = core.take_sink(233).unwrap();
    assert_ne!(first, second);
    assert!(first < second);
    assert_eq!(core.take_sink(233), None);
}

#[test]
fn round_robin_balances_rows() {
    let mut r = Router::new(DispatchKind::RoundRobin, 3);
    let mut counts = [0usize; 3];
    for k in 0..7usize {
        let t = r.route(&vec![k as i64]);
        assert_eq!(t, vec![k % 3]);
        counts[t[0]] += 1;
    }
    assert_eq!(counts, [3, 2, 2]);
}

#[test]
fn hash_dispatch_is_deterministic() {
    let mut r1 = Router::new(DispatchKind::Hash { column: 1 }, 4);
    let mut r2 = Router::new(DispatchKind::Hash { column: 1 }, 4);
    let a = r1.route(&vec![10, 42]);
    r2.route(&vec![0, 7]);
    let b = r2.route(&vec![99, 42]);
    assert_eq!(a, b);
    assert_eq!(a.len(), 1);
    assert!(a[0] < 4);
    assert_eq!(a[0] as u64, hash_key(42) % 4);
}

#[test]
fn hash_key_exact_value() {
    assert_eq!(hash_key(0), 0);
    assert_eq!(hash_key(1), 2654435761);
    assert_eq!(hash_key(2), (2u64 * 2654435761) % 4294967291);
}

#[test]
fn broadcast_reaches_every_output() {
    let mut r = Router::new(DispatchKind::Broadcast, 3);
    assert_eq!(r.route(&vec![5]), vec![0, 1, 2]);
}

#[test]
fn expression_evaluation() {
    let gt = Expr::GreaterThan(Box::new(Expr::Column(0)), Box::new(Expr::Constant(0)));
    assert_eq!(gt.eval(&vec![3]), Some(1));
    assert_eq!(gt.eval(&vec![-3]), Some(0));
    assert_eq!(gt.eval(&vec![]), None);
    assert!(!filter_passes(&gt, &vec![]));
    assert_eq!(project_row(&vec![Expr::Column(1), Expr::Constant(9)], &vec![4, 5]), Some(vec![5, 9]));
    assert_eq!(project_row(&vec![Expr::Column(2)], &vec![4, 5]), None);
}

#[test]
fn merge_reads_exactly_the_upstream_output_channels() {
    let mut core = StreamManagerCore::new();
    core.update_actor_info(vec![local(1), local(2), local(3)]).unwrap();
    core.update_fragment(vec![
        fragment(3, pass_through(), DispatchKind::Blackhole, vec![1, 2], vec![]),
        fragment(1, pass_through(), DispatchKind::RoundRobin, vec![0], vec![3, 2]),
    ])
    .unwrap();
    core.update_fragment(vec![fragment(2, vec![], DispatchKind::Simple, vec![1], vec![3])]).unwrap();
    core.build_fragment(&vec![1, 2, 3]).unwrap();
    let plans = core.take_built();
    assert_eq!(plans.len(), 3);
    let p1 = plan_for(&plans, 1);
    let p2 = plan_for(&plans, 2);
    assert_eq!(p1.outputs.len(), 2);
    assert!(matches!(p2.input, MergeInput::Receiver(c) if c == p1.outputs[1]));
    let mut sent = vec![p1.outputs[0], p2.outputs[0]];
    sent.sort();
    let mut read = match &plan_for(&plans, 3).input {
        MergeInput::Merge(chs) => chs.clone(),
        _ => panic!("merge expected"),
    };
    read.sort();
    assert_eq!(sent, read);
}

#[test]
fn chain_runs_projection_then_filter() {
    let ops = vec![
        Operator::Projection { exprs: vec![Expr::Column(1), Expr::Column(0)] },
        Operator::Filter {
            condition: Expr::GreaterThan(Box::new(Expr::Column(0)), Box::new(Expr::Constant(0))),
        },
    ];
    assert_eq!(apply_chain(&ops, vec![7, 3]), Ok(Some(vec![3, 7])));
    assert_eq!(apply_chain(&ops, vec![7, -3]), Ok(None));
    assert_eq!(apply_chain(&ops, vec![7]), Err(ChainFault::Unevaluable));
    let stateful = vec![Operator::MaterializedView { pk_columns: vec![0] }];
    assert_eq!(apply_chain(&stateful, vec![1]), Err(ChainFault::Stateful));
    assert_eq!(apply_chain(&vec![], vec![4]), Ok(Some(vec![4])));
}

#[test]
fn bootstrap_listed_twice_is_rejected() {
    let mut core = StreamManagerCore::new();
    core.update_fragment(vec![fragment(1, pass_through(), DispatchKind::Blackhole, vec![0, 0], vec![])])
        .unwrap();
    assert_eq!(
        core.build_fragment(&vec![1]),
        Err(StreamError::TopologyMismatch { fragment_id: 1, required: 2, found: 1 })
    );
    assert_eq!(core.check_build(1), Some(StreamError::TopologyMismatch { fragment_id: 1, required: 2, found: 1 }));
}
