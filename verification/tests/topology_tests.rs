use obzenflow_topology::builder::TopologyBuilder;
use obzenflow_topology::{DirectedEdge, EdgeKind, StageId, StageInfo, StageType, Topology, TopologyError, ValidationLevel};

/// Deterministic test ids, 1, 2, 3, ... from a starting offset.
struct TestIds {
    next: u128,
}

impl TestIds {
    fn new() -> TestIds {
        TestIds { next: 0 }
    }

    fn next_stage_id(&mut self) -> StageId {
        self.next += 1;
        StageId::from_bytes(self.next.to_be_bytes())
    }
}

#[test]
fn test_simple_pipeline() {
    let mut builder = TopologyBuilder::new();
    let source = builder.add_stage(Some("source".to_string()));
    let transform = builder.add_stage(Some("transform".to_string()));
    let sink = builder.add_stage(Some("sink".to_string()));

    let topology = builder.build_unchecked().unwrap();

    assert_eq!(topology.num_stages(), 3);
    assert_eq!(topology.upstream_stages(transform), &[source]);
    assert_eq!(topology.downstream_stages(transform), &[sink]);
    assert_eq!(topology.source_stages(), vec![source]);
    assert_eq!(topology.sink_stages(), vec![sink]);
}

#[test]
fn test_fan_out_topology() {
    let mut builder = TopologyBuilder::new();
    let source = builder.add_stage(Some("source".to_string()));

    builder.reset_current();
    let transform1 = builder.add_stage(Some("transform1".to_string()));
    let transform2 = builder.add_stage(Some("transform2".to_string()));

    builder.add_edge(source, transform1);
    builder.add_edge(source, transform2);

    let topology = builder.build_unchecked().unwrap();

    assert_eq!(topology.downstream_stages(source).len(), 2);
    assert!(topology.downstream_stages(source).contains(&transform1));
    assert!(topology.downstream_stages(source).contains(&transform2));
}

#[test]
fn test_self_cycle_rejected() {
    let mut ids = TestIds::new();
    let stage_id = ids.next_stage_id();
    let stage = StageInfo::new(stage_id, "processor", StageType::Transform);
    let stages = vec![stage.clone()];

    let edges = vec![DirectedEdge::new(stage.id, stage.id, EdgeKind::Forward)];

    let result = Topology::new_unvalidated(stages, edges);
    assert!(result.is_err());

    match result {
        Err(TopologyError::SelfCycle { stage: name }) => {
            assert_eq!(name, "processor");
        }
        _ => panic!("Expected SelfCycle error"),
    }
}

#[test]
fn test_multi_stage_cycle_allowed() {
    let mut ids = TestIds::new();
    let validator_id = ids.next_stage_id();
    let fixer_id = ids.next_stage_id();
    let validator = StageInfo::new(validator_id, "validator", StageType::Transform);
    let fixer = StageInfo::new(fixer_id, "fixer", StageType::Transform);
    let stages = vec![validator.clone(), fixer.clone()];

    let edges = vec![
        DirectedEdge::new(validator.id, fixer.id, EdgeKind::Forward),
        DirectedEdge::new(fixer.id, validator.id, EdgeKind::Backward),
    ];

    let result = Topology::new_unvalidated(stages, edges);
    assert!(result.is_ok());

    let topology = result.unwrap();
    assert!(topology.has_edge(validator.id, fixer.id));
    assert!(topology.has_edge(fixer.id, validator.id));

    assert!(topology.is_in_cycle(validator.id));
    assert!(topology.is_in_cycle(fixer.id));
}

#[test]
fn test_scc_cycle_detection() {
    let mut ids = TestIds::new();
    let a_id = ids.next_stage_id();
    let b_id = ids.next_stage_id();
    let c_id = ids.next_stage_id();
    let d_id = ids.next_stage_id();

    let a = StageInfo::new(a_id, "a", StageType::Transform);
    let b = StageInfo::new(b_id, "b", StageType::Transform);
    let c = StageInfo::new(c_id, "c", StageType::Transform);
    let d = StageInfo::new(d_id, "d", StageType::Transform);

    let stages = vec![a.clone(), b.clone(), c.clone(), d.clone()];

    let edges = vec![
        DirectedEdge::new(a.id, b.id, EdgeKind::Forward),
        DirectedEdge::new(b.id, c.id, EdgeKind::Forward),
        DirectedEdge::new(c.id, d.id, EdgeKind::Forward),
        DirectedEdge::new(d.id, b.id, EdgeKind::Backward),
    ];

    let result = Topology::new_unvalidated(stages, edges);
    assert!(result.is_ok());

    let topology = result.unwrap();

    assert!(!topology.is_in_cycle(a.id));
    assert_eq!(topology.scc_id(a.id), None);

    assert!(topology.is_in_cycle(b.id));
    assert!(topology.is_in_cycle(c.id));
    assert!(topology.is_in_cycle(d.id));

    let scc_id = topology.scc_id(b.id).expect("b should have scc_id");
    assert_eq!(topology.scc_id(c.id), Some(scc_id));
    assert_eq!(topology.scc_id(d.id), Some(scc_id));

    let members = topology.scc_members(scc_id).expect("scc_members should exist");
    assert_eq!(members.len(), 3);
    assert!(members.contains(&b.id));
    assert!(members.contains(&c.id));
    assert!(members.contains(&d.id));
}

#[test]
fn test_two_disjoint_sccs_get_distinct_ids() {
    let mut ids = TestIds::new();
    let src_id = ids.next_stage_id();
    let a_id = ids.next_stage_id();
    let b_id = ids.next_stage_id();
    let c_id = ids.next_stage_id();
    let d_id = ids.next_stage_id();
    let snk_id = ids.next_stage_id();

    let src = StageInfo::new(src_id, "src", StageType::FiniteSource);
    let a = StageInfo::new(a_id, "a", StageType::Transform);
    let b = StageInfo::new(b_id, "b", StageType::Transform);
    let c = StageInfo::new(c_id, "c", StageType::Transform);
    let d = StageInfo::new(d_id, "d", StageType::Transform);
    let snk = StageInfo::new(snk_id, "snk", StageType::Sink);

    let stages = vec![src.clone(), a.clone(), b.clone(), c.clone(), d.clone(), snk.clone()];

    let edges = vec![
        DirectedEdge::new(src.id, a.id, EdgeKind::Forward),
        DirectedEdge::new(a.id, b.id, EdgeKind::Forward),
        DirectedEdge::new(b.id, a.id, EdgeKind::Backward),
        DirectedEdge::new(b.id, c.id, EdgeKind::Forward),
        DirectedEdge::new(c.id, d.id, EdgeKind::Forward),
        DirectedEdge::new(d.id, c.id, EdgeKind::Backward),
        DirectedEdge::new(d.id, snk.id, EdgeKind::Forward),
    ];

    let topology = Topology::new_unvalidated(stages, edges).unwrap();

    assert_eq!(topology.scc_id(src.id), None);
    assert_eq!(topology.scc_id(snk.id), None);

    let scc_ab = topology.scc_id(a.id).expect("a should be in an SCC");
    let scc_cd = topology.scc_id(c.id).expect("c should be in an SCC");
    assert_ne!(scc_ab, scc_cd, "disjoint SCCs must have distinct ids");

    assert_eq!(topology.scc_id(b.id), Some(scc_ab));
    assert_eq!(topology.scc_id(d.id), Some(scc_cd));

    let members_ab = topology.scc_members(scc_ab).unwrap();
    assert_eq!(members_ab.len(), 2);
    assert!(members_ab.contains(&a.id));
    assert!(members_ab.contains(&b.id));
    assert!(!members_ab.contains(&c.id));

    let members_cd = topology.scc_members(scc_cd).unwrap();
    assert_eq!(members_cd.len(), 2);
    assert!(members_cd.contains(&c.id));
    assert!(members_cd.contains(&d.id));
    assert!(!members_cd.contains(&a.id));
}

#[test]
fn test_minimal_two_stage_scc() {
    let mut ids = TestIds::new();
    let x_id = ids.next_stage_id();
    let y_id = ids.next_stage_id();

    let x = StageInfo::new(x_id, "x", StageType::Transform);
    let y = StageInfo::new(y_id, "y", StageType::Transform);

    let edges = vec![
        DirectedEdge::new(x.id, y.id, EdgeKind::Forward),
        DirectedEdge::new(y.id, x.id, EdgeKind::Backward),
    ];

    let topology = Topology::new_unvalidated(vec![x.clone(), y.clone()], edges).unwrap();

    let scc_id = topology.scc_id(x.id).expect("x should be in SCC");
    assert_eq!(topology.scc_id(y.id), Some(scc_id));

    let members = topology.scc_members(scc_id).unwrap();
    assert_eq!(members.len(), 2);
    assert!(members.contains(&x.id));
    assert!(members.contains(&y.id));
}

#[test]
fn test_dag_has_no_sccs() {
    let topology = {
        let mut builder = TopologyBuilder::new();
        let _src = builder.add_stage(Some("src".to_string()));
        let _a = builder.add_stage(Some("a".to_string()));
        let _b = builder.add_stage(Some("b".to_string()));
        let _snk = builder.add_stage(Some("snk".to_string()));
        builder.build_unchecked().unwrap()
    };

    for stage in topology.stages() {
        assert!(!topology.is_in_cycle(stage.id), "stage {:?} should not be in a cycle", stage.name);
        assert_eq!(topology.scc_id(stage.id), None, "stage {:?} should have no scc_id", stage.name);
    }

    assert_eq!(topology.scc_members(0), None);
}

#[test]
fn test_scc_id_is_deterministic_across_constructions() {
    let mut ids = TestIds::new();
    let a_id = ids.next_stage_id();
    let b_id = ids.next_stage_id();
    let c_id = ids.next_stage_id();

    let build = || {
        let a = StageInfo::new(a_id, "a", StageType::Transform);
        let b = StageInfo::new(b_id, "b", StageType::Transform);
        let c = StageInfo::new(c_id, "c", StageType::Transform);

        let edges = vec![
            DirectedEdge::new(a.id, b.id, EdgeKind::Forward),
            DirectedEdge::new(b.id, c.id, EdgeKind::Forward),
            DirectedEdge::new(c.id, a.id, EdgeKind::Backward),
        ];
        Topology::new_unvalidated(vec![a, b, c], edges).unwrap()
    };

    let t1 = build();
    let t2 = build();

    assert_eq!(t1.scc_id(a_id), t2.scc_id(a_id));
    assert_eq!(t1.scc_id(b_id), t2.scc_id(b_id));
    assert_eq!(t1.scc_id(c_id), t2.scc_id(c_id));
}

#[test]
fn test_scc_members_out_of_bounds_returns_none() {
    let topology = {
        let mut builder = TopologyBuilder::new();
        let _src = builder.add_stage(Some("src".to_string()));
        let _snk = builder.add_stage(Some("snk".to_string()));
        builder.build_unchecked().unwrap()
    };

    assert_eq!(topology.scc_members(0), None);
    assert_eq!(topology.scc_members(999), None);
    assert_eq!(topology.scc_members(u32::MAX), None);
}

#[test]
fn test_is_in_cycle_agrees_with_scc_id() {
    let mut ids = TestIds::new();
    let src_id = ids.next_stage_id();
    let entry_id = ids.next_stage_id();
    let iter_id = ids.next_stage_id();
    let snk_id = ids.next_stage_id();

    let src = StageInfo::new(src_id, "src", StageType::FiniteSource);
    let entry = StageInfo::new(entry_id, "entry", StageType::Transform);
    let iter = StageInfo::new(iter_id, "iter", StageType::Transform);
    let snk = StageInfo::new(snk_id, "snk", StageType::Sink);

    let stages = vec![src.clone(), entry.clone(), iter.clone(), snk.clone()];
    let edges = vec![
        DirectedEdge::new(src.id, entry.id, EdgeKind::Forward),
        DirectedEdge::new(entry.id, iter.id, EdgeKind::Forward),
        DirectedEdge::new(iter.id, entry.id, EdgeKind::Backward),
        DirectedEdge::new(entry.id, snk.id, EdgeKind::Forward),
    ];

    let topology = Topology::new_unvalidated(stages, edges).unwrap();

    for stage in topology.stages() {
        assert_eq!(
            topology.is_in_cycle(stage.id),
            topology.scc_id(stage.id).is_some(),
            "is_in_cycle and scc_id disagree for stage {:?}",
            stage.name
        );
    }

    assert!(!topology.is_in_cycle(src.id));
    assert!(topology.is_in_cycle(entry.id));
    assert!(topology.is_in_cycle(iter.id));
    assert!(!topology.is_in_cycle(snk.id));
}

#[test]
fn scc_ids_follow_least_member_order() {
    let ids: Vec<StageId> = (1..=5u128).map(|n| StageId::from_bytes(n.to_be_bytes())).collect();
    let stages: Vec<StageInfo> = ids.iter().map(|&i| StageInfo::new(i, "s", StageType::Transform)).collect();
    // {5, 4} listed first in the edges, {2, 3} second; 1 feeds both.
    let edges = vec![
        DirectedEdge::new(ids[4], ids[3], EdgeKind::Forward),
        DirectedEdge::new(ids[3], ids[4], EdgeKind::Backward),
        DirectedEdge::new(ids[1], ids[2], EdgeKind::Forward),
        DirectedEdge::new(ids[2], ids[1], EdgeKind::Backward),
        DirectedEdge::new(ids[0], ids[1], EdgeKind::Forward),
        DirectedEdge::new(ids[0], ids[4], EdgeKind::Forward),
    ];
    let t = Topology::new_unvalidated(stages, edges).unwrap();
    assert_eq!(t.scc_id(ids[1]), Some(0));
    assert_eq!(t.scc_id(ids[2]), Some(0));
    assert_eq!(t.scc_id(ids[3]), Some(1));
    assert_eq!(t.scc_id(ids[4]), Some(1));
    assert_eq!(t.scc_id(ids[0]), None);
}

#[test]
fn later_stage_with_same_id_replaces_earlier_in_place() {
    let a = StageId::from_bytes(1u128.to_be_bytes());
    let b = StageId::from_bytes(2u128.to_be_bytes());
    let stages = vec![
        StageInfo::new(a, "first", StageType::Transform),
        StageInfo::new(b, "b", StageType::Sink),
        StageInfo::new(a, "second", StageType::FiniteSource),
    ];
    let edges = vec![DirectedEdge::new(a, b, EdgeKind::Forward)];
    let t = Topology::new(stages, edges).unwrap();
    assert_eq!(t.num_stages(), 2);
    assert_eq!(t.stage_name(a), Some("second"));
    assert_eq!(t.stages()[0].id, a);
    assert_eq!(t.stage_info(a).unwrap().stage_type, StageType::FiniteSource);
    assert!(t.stage_info(StageId::from_bytes(3u128.to_be_bytes())).is_none());
}

#[test]
fn validation_levels_report_the_first_failing_check() {
    let a = StageId::from_bytes(1u128.to_be_bytes());
    let b = StageId::from_bytes(2u128.to_be_bytes());
    let stages = vec![
        StageInfo::new(a, "a", StageType::Transform),
        StageInfo::new(b, "b", StageType::Sink),
    ];
    let edges = vec![DirectedEdge::new(a, b, EdgeKind::Forward)];
    let t = Topology::new_unvalidated(stages, edges).unwrap();
    assert!(t.validate_with_level(ValidationLevel::StructuralOnly).is_ok());
    assert!(t.validate_with_level(ValidationLevel::Semantic).is_ok());
    assert!(matches!(t.validate_with_level(ValidationLevel::Full), Err(TopologyError::NoSources)));
    assert!(matches!(t.validate_semantics(), Err(TopologyError::NoSources)));
}

#[test]
fn semantic_level_rejects_backflow_into_a_source() {
    let a = StageId::from_bytes(1u128.to_be_bytes());
    let b = StageId::from_bytes(2u128.to_be_bytes());
    let stages = vec![
        StageInfo::new(a, "src", StageType::FiniteSource),
        StageInfo::new(b, "proc", StageType::Transform),
    ];
    let edges = vec![
        DirectedEdge::new(a, b, EdgeKind::Forward),
        DirectedEdge::new(b, a, EdgeKind::Backward),
    ];
    let t = Topology::new_unvalidated(stages, edges).unwrap();
    assert!(t.validate_with_level(ValidationLevel::StructuralOnly).is_ok());
    match t.validate_with_level(ValidationLevel::Semantic) {
        Err(TopologyError::InvalidConnection { from, to, operator, .. }) => {
            assert_eq!(from, b);
            assert_eq!(to, a);
            assert_eq!(operator, "<|");
        }
        other => panic!("expected InvalidConnection, got {:?}", other),
    }
}

#[test]
fn fingerprint_ignores_input_order_and_annotations() {
    let a = StageId::from_bytes(1u128.to_be_bytes());
    let b = StageId::from_bytes(2u128.to_be_bytes());
    let c = StageId::from_bytes(3u128.to_be_bytes());
    let sa = StageInfo::new(a, "a", StageType::FiniteSource);
    let sb = StageInfo::new(b, "b", StageType::Transform);
    let sc = StageInfo::new(c, "c", StageType::Sink);
    let t1 = Topology::new_unvalidated(
        vec![sa.clone(), sb.clone(), sc.clone()],
        vec![DirectedEdge::new(a, b, EdgeKind::Forward), DirectedEdge::new(b, c, EdgeKind::Forward)],
    )
    .unwrap();
    let t2 = Topology::new_unvalidated(
        vec![sc.clone(), sa.clone().with_is_cycle_member(false), sb.clone()],
        vec![DirectedEdge::new(b, c, EdgeKind::Forward), DirectedEdge::new(a, b, EdgeKind::Forward)],
    )
    .unwrap();
    assert_eq!(t1.topology_fingerprint(), t2.topology_fingerprint());
    assert_eq!(t1.fingerprint_stage_order(), vec![0, 1, 2]);
    assert_eq!(t2.fingerprint_stage_order(), vec![1, 2, 0]);
    assert_eq!(t2.fingerprint_edge_order(), vec![1, 0]);

    let t3 = Topology::new_unvalidated(
        vec![sa.clone(), StageInfo::new(b, "renamed", StageType::Transform), sc.clone()],
        vec![DirectedEdge::new(a, b, EdgeKind::Forward), DirectedEdge::new(b, c, EdgeKind::Forward)],
    )
    .unwrap();
    assert_ne!(t1.topology_fingerprint(), t3.topology_fingerprint());
    let t4 = Topology::new_unvalidated(
        vec![sa, sb, sc],
        vec![DirectedEdge::new(a, b, EdgeKind::Forward), DirectedEdge::new(b, c, EdgeKind::Backward)],
    )
    .unwrap();
    assert_ne!(t1.topology_fingerprint(), t4.topology_fingerprint());
}

#[test]
fn metrics_measure_depth_along_simple_paths() {
    // src -> a -> b -> a (cycle) and b -> sink: the longest simple path from
    // the source is src -> a -> b -> sink.
    let ids: Vec<StageId> = (1..=4u128).map(|n| StageId::from_bytes(n.to_be_bytes())).collect();
    let stages = vec![
        StageInfo::new(ids[0], "src", StageType::FiniteSource),
        StageInfo::new(ids[1], "a", StageType::Transform),
        StageInfo::new(ids[2], "b", StageType::Transform),
        StageInfo::new(ids[3], "sink", StageType::Sink),
    ];
    let edges = vec![
        DirectedEdge::new(ids[0], ids[1], EdgeKind::Forward),
        DirectedEdge::new(ids[1], ids[2], EdgeKind::Forward),
        DirectedEdge::new(ids[2], ids[1], EdgeKind::Backward),
        DirectedEdge::new(ids[2], ids[3], EdgeKind::Forward),
    ];
    let t = Topology::new(stages, edges).unwrap();
    let m = t.metrics();
    assert_eq!(m.num_stages, 4);
    assert_eq!(m.num_edges, 4);
    assert_eq!(m.num_sources, 1);
    assert_eq!(m.num_sinks, 1);
    assert_eq!(m.max_fan_out, 2);
    assert_eq!(m.max_fan_in, 2);
    assert_eq!(m.max_depth, 3);
    assert_eq!(t.flow_name(), "src_flow");
    assert_eq!(t.source_stage_name(), "src");
    assert_eq!(t.sink_stage_name(), "sink");
    assert_eq!(t.semantic_source_stages(), vec![ids[0]]);
    assert_eq!(t.semantic_sink_stages(), vec![ids[3]]);
    assert_eq!(t.edges().len(), 4);
    assert!(!t.is_empty());
}

#[test]
fn names_fall_back_without_a_single_source_or_sink() {
    let ids: Vec<StageId> = (1..=3u128).map(|n| StageId::from_bytes(n.to_be_bytes())).collect();
    let stages = vec![
        StageInfo::new(ids[0], "s1", StageType::FiniteSource),
        StageInfo::new(ids[1], "s2", StageType::FiniteSource),
        StageInfo::new(ids[2], "j", StageType::Join),
    ];
    let edges = vec![
        DirectedEdge::new(ids[0], ids[2], EdgeKind::Forward),
        DirectedEdge::new(ids[1], ids[2], EdgeKind::Forward),
    ];
    let t = Topology::new_unvalidated(stages, edges).unwrap();
    assert_eq!(t.flow_name(), "multi_source_flow");
    assert_eq!(t.source_stage_name(), "unknown_source");
    assert_eq!(t.sink_stage_name(), "j");
    let m = t.metrics();
    assert_eq!(m.max_depth, 1);
    assert_eq!(m.max_fan_in, 2);
    assert_eq!(m.max_fan_out, 1);
}

#[test]
fn depth_of_a_long_chain_of_diamonds() {
    // 40 diamonds in series: 2^40 distinct source-to-sink paths, each with
    // 80 edges.
    let mut stages = vec![StageInfo::new(StageId::new_const(1), "source", StageType::FiniteSource)];
    let mut edges = Vec::new();
    let mut next: u128 = 2;
    let mut join = StageId::new_const(1);
    for _ in 0..40 {
        let a = StageId::new_const(next);
        let b = StageId::new_const(next + 1);
        let y = StageId::new_const(next + 2);
        next += 3;
        stages.push(StageInfo::new(a, "a", StageType::Transform));
        stages.push(StageInfo::new(b, "b", StageType::Transform));
        stages.push(StageInfo::new(y, "y", StageType::Transform));
        edges.push(DirectedEdge::new(join, a, EdgeKind::Forward));
        edges.push(DirectedEdge::new(join, b, EdgeKind::Forward));
        edges.push(DirectedEdge::new(a, y, EdgeKind::Forward));
        edges.push(DirectedEdge::new(b, y, EdgeKind::Forward));
        join = y;
    }
    let topology = Topology::new_unvalidated(stages, edges).expect("structure");
    let metrics = topology.metrics();
    assert_eq!(metrics.max_depth, 80);
    assert_eq!(metrics.num_sources, 1);
    assert_eq!(metrics.max_fan_out, 2);
    assert_eq!(metrics.max_fan_in, 2);
}

#[test]
fn depth_counts_the_longest_acyclic_path_through_a_cycle() {
    // source -> a -> b -> sink, with b -> a closing a loop
    let ids: Vec<StageId> = (1..=4).map(StageId::new_const).collect();
    let stages = vec![
        StageInfo::new(ids[0], "source", StageType::FiniteSource),
        StageInfo::new(ids[1], "a", StageType::Transform),
        StageInfo::new(ids[2], "b", StageType::Transform),
        StageInfo::new(ids[3], "sink", StageType::Sink),
    ];
    let edges = vec![
        DirectedEdge::new(ids[0], ids[1], EdgeKind::Forward),
        DirectedEdge::new(ids[1], ids[2], EdgeKind::Forward),
        DirectedEdge::new(ids[2], ids[1], EdgeKind::Backward),
        DirectedEdge::new(ids[2], ids[3], EdgeKind::Forward),
    ];
    let topology = Topology::new(stages, edges).expect("valid");
    assert_eq!(topology.metrics().max_depth, 3);
}
