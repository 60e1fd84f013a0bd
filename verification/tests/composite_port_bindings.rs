use obzenflow_topology::{
    BoundaryPortSpec, CompositePortRef, DirectedEdge, EdgeKind, PortDirection, StageId, StageInfo, StageType,
    Topology, TopologyError, TopologySubgraphInfo, ValidationLevel,
};

fn stage_id(n: u128) -> StageId {
    StageId::from_bytes(n.to_be_bytes())
}

fn stages(source: StageId, entry: StageId, exit: StageId, sink: StageId) -> Vec<StageInfo> {
    vec![
        StageInfo::new(source, "source", StageType::FiniteSource),
        StageInfo::new(entry, "entry", StageType::Transform),
        StageInfo::new(exit, "exit", StageType::Transform),
        StageInfo::new(sink, "sink", StageType::Sink),
    ]
}

fn branch(entry: StageId, exit: StageId) -> TopologySubgraphInfo {
    TopologySubgraphInfo::new("test:branch", "test", "branch", "branch", vec![entry, exit], vec![], vec![entry], vec![exit], true)
        .with_boundary_ports(vec![
            BoundaryPortSpec::new("in", PortDirection::Input, entry, vec!["test.input.v1".into()], true),
            BoundaryPortSpec::new("out", PortDirection::Output, exit, vec!["test.output.v1".into()], true),
        ])
}

fn fixture(annotate_input: bool, annotate_output: bool) -> (Topology, StageId, StageId, StageId, StageId) {
    let source = stage_id(1);
    let entry = stage_id(2);
    let exit = stage_id(3);
    let sink = stage_id(4);
    let input_refs = if annotate_input { vec![CompositePortRef::new("test:branch", "in")] } else { Vec::new() };
    let output_refs = if annotate_output { vec![CompositePortRef::new("test:branch", "out")] } else { Vec::new() };
    let topology = Topology::new_unvalidated(
        stages(source, entry, exit, sink),
        vec![
            DirectedEdge::new(source, entry, EdgeKind::Forward).with_composite_ports(input_refs),
            DirectedEdge::new(entry, exit, EdgeKind::Forward),
            DirectedEdge::new(exit, sink, EdgeKind::Forward).with_composite_ports(output_refs),
        ],
    )
    .expect("structural topology")
    .with_subgraphs(vec![branch(entry, exit)]);
    (topology, source, entry, exit, sink)
}

#[test]
fn named_cut_bindings_validate() {
    let (topology, ..) = fixture(true, true);
    topology
        .validate_with_level(ValidationLevel::StructuralOnly)
        .expect("every crossing edge has the correct named port");
}

#[test]
fn crossing_edge_without_binding_fails_loud() {
    let (topology, _, _, exit, sink) = fixture(true, false);
    let error = topology
        .validate_with_level(ValidationLevel::StructuralOnly)
        .expect_err("unbound output cut must fail");
    match error {
        TopologyError::UnboundCompositeCrossing { from, to, subgraph_id } => {
            assert_eq!((from, to), (exit, sink));
            assert_eq!(subgraph_id, "test:branch");
        },
        other => panic!("expected a missing port binding, got {:?}", other),
    }
}

#[test]
fn internal_edge_cannot_claim_a_boundary_port() {
    let (topology, source, entry, exit, sink) = fixture(true, true);
    let subgraphs = topology.subgraphs().to_vec();
    let malformed = Topology::new_unvalidated(
        stages(source, entry, exit, sink),
        vec![
            DirectedEdge::new(source, entry, EdgeKind::Forward)
                .with_composite_ports(vec![CompositePortRef::new("test:branch", "in")]),
            DirectedEdge::new(entry, exit, EdgeKind::Forward)
                .with_composite_ports(vec![CompositePortRef::new("test:branch", "out")]),
            DirectedEdge::new(exit, sink, EdgeKind::Forward)
                .with_composite_ports(vec![CompositePortRef::new("test:branch", "out")]),
        ],
    )
    .expect("structural topology")
    .with_subgraphs(subgraphs);

    let error = malformed.validate_composite_boundaries().expect_err("internal annotation must fail");
    match error {
        TopologyError::CompositePortMismatch { from, to, port_name, direction, .. } => {
            assert_eq!((from, to), (entry, exit));
            assert_eq!(port_name, "out");
            assert_eq!(direction, PortDirection::Output);
        },
        other => panic!("expected a port that is not crossed, got {:?}", other),
    }
}

#[test]
fn overlapping_payload_ownership_fails_loud() {
    let (topology, source, entry, exit, sink) = fixture(true, true);
    let mut subgraph = topology.subgraphs()[0].clone();
    subgraph.boundary_ports.push(BoundaryPortSpec::new(
        "also_out",
        PortDirection::Output,
        exit,
        vec!["test.output.v1".into()],
        false,
    ));
    let malformed = Topology::new_unvalidated(stages(source, entry, exit, sink), topology.edges().to_vec())
        .expect("structural topology")
        .with_subgraphs(vec![subgraph]);

    let error = malformed
        .validate_composite_boundaries()
        .expect_err("one payload cannot have two same-direction owners");
    match error {
        TopologyError::OverlappingPayloadOwnership { payload, direction, first_port, second_port, .. } => {
            assert_eq!(payload, "test.output.v1");
            assert_eq!(direction, PortDirection::Output);
            assert_eq!((first_port.as_str(), second_port.as_str()), ("out", "also_out"));
        },
        other => panic!("expected overlapping payload owners, got {:?}", other),
    }
}

#[test]
fn canonical_json_pins_multi_output_and_composite_to_composite_cut_refs() {
    let source = stage_id(20);
    let branch_entry = stage_id(21);
    let completed = stage_id(22);
    let failed = stage_id(23);
    let audit_entry = stage_id(24);
    let audit_exit = stage_id(25);
    let sink = stage_id(26);

    let branch = TopologySubgraphInfo::new(
        "saga:checkout", "saga", "checkout", "checkout",
        vec![branch_entry, completed, failed], vec![], vec![branch_entry], vec![completed, failed], true,
    )
    .with_boundary_ports(vec![
        BoundaryPortSpec::new("commands", PortDirection::Input, branch_entry, vec!["checkout.command.v1".into()], true),
        BoundaryPortSpec::new("completed", PortDirection::Output, completed, vec!["checkout.completed.v1".into()], true),
        BoundaryPortSpec::new("failed", PortDirection::Output, failed, vec!["checkout.failed.v1".into()], false),
    ]);
    let audit = TopologySubgraphInfo::new(
        "audit:orders", "audit", "orders", "orders",
        vec![audit_entry, audit_exit], vec![], vec![audit_entry], vec![audit_exit], true,
    )
    .with_boundary_ports(vec![
        BoundaryPortSpec::new("in", PortDirection::Input, audit_entry, vec!["checkout.completed.v1".into()], true),
        BoundaryPortSpec::new("out", PortDirection::Output, audit_exit, vec!["audit.recorded.v1".into()], true),
    ]);

    let crossing = DirectedEdge::new(completed, audit_entry, EdgeKind::Forward).with_composite_ports(vec![
        CompositePortRef::new("saga:checkout", "completed"),
        CompositePortRef::new("audit:orders", "in"),
    ]);
    let all_stages = vec![
        StageInfo::new(source, "source", StageType::FiniteSource),
        StageInfo::new(branch_entry, "branch_entry", StageType::Transform),
        StageInfo::new(completed, "completed", StageType::Transform),
        StageInfo::new(failed, "failed", StageType::Transform),
        StageInfo::new(audit_entry, "audit_entry", StageType::Transform),
        StageInfo::new(audit_exit, "audit_exit", StageType::Transform),
        StageInfo::new(sink, "sink", StageType::Sink),
    ];
    let edges = vec![
        DirectedEdge::new(source, branch_entry, EdgeKind::Forward)
            .with_composite_ports(vec![CompositePortRef::new("saga:checkout", "commands")]),
        DirectedEdge::new(branch_entry, completed, EdgeKind::Forward),
        DirectedEdge::new(branch_entry, failed, EdgeKind::Forward),
        crossing,
        DirectedEdge::new(failed, sink, EdgeKind::Forward)
            .with_composite_ports(vec![CompositePortRef::new("saga:checkout", "failed")]),
        DirectedEdge::new(audit_entry, audit_exit, EdgeKind::Forward),
        DirectedEdge::new(audit_exit, sink, EdgeKind::Forward)
            .with_composite_ports(vec![CompositePortRef::new("audit:orders", "out")]),
    ];
    let topology = Topology::new_unvalidated(all_stages.clone(), edges.clone())
        .unwrap()
        .with_subgraphs(vec![branch.clone(), audit.clone()]);
    topology
        .validate_composite_boundaries()
        .expect("named multi-output and composite-to-composite cuts validate");
    let crossing = topology.edges().iter().find(|e| e.from == completed && e.to == audit_entry).unwrap();
    assert_eq!(
        crossing.composite_ports,
        vec![CompositePortRef::new("saga:checkout", "completed"), CompositePortRef::new("audit:orders", "in")]
    );

    // the same graph with every binding removed no longer validates
    let legacy_edges: Vec<DirectedEdge> = edges.into_iter().map(|e| e.with_composite_ports(Vec::new())).collect();
    let legacy = Topology::new_unvalidated(all_stages, legacy_edges).unwrap().with_subgraphs(vec![branch, audit]);
    assert!(legacy.edges().iter().all(|e| e.composite_ports.is_empty()));
    assert!(legacy.validate_composite_boundaries().is_err());
}

#[test]
fn binding_to_an_undeclared_port_is_unknown() {
    let (topology, source, entry, exit, sink) = fixture(true, true);
    let subgraphs = topology.subgraphs().to_vec();
    let malformed = Topology::new_unvalidated(
        stages(source, entry, exit, sink),
        vec![
            DirectedEdge::new(source, entry, EdgeKind::Forward)
                .with_composite_ports(vec![CompositePortRef::new("test:branch", "inbox")]),
            DirectedEdge::new(entry, exit, EdgeKind::Forward),
            DirectedEdge::new(exit, sink, EdgeKind::Forward)
                .with_composite_ports(vec![CompositePortRef::new("test:branch", "out")]),
        ],
    )
    .unwrap()
    .with_subgraphs(subgraphs);
    match malformed.validate_with_level(ValidationLevel::Full) {
        Err(TopologyError::UnknownCompositePort { from, to, subgraph_id, port_name }) => {
            assert_eq!((from, to), (source, entry));
            assert_eq!((subgraph_id.as_str(), port_name.as_str()), ("test:branch", "inbox"));
        },
        other => panic!("expected an unknown port, got {:?}", other),
    }
}

#[test]
fn subgraphs_without_ports_need_no_bindings() {
    let (topology, source, entry, exit, sink) = fixture(false, false);
    let plain = TopologySubgraphInfo::new("test:plain", "test", "plain", "plain", vec![entry, exit], vec![], vec![entry], vec![exit], true);
    let legacy = Topology::new_unvalidated(stages(source, entry, exit, sink), topology.edges().to_vec())
        .unwrap()
        .with_subgraphs(vec![plain]);
    legacy.validate_with_level(ValidationLevel::Full).expect("a port-less registry entry binds nothing");
}

#[test]
fn bindings_are_checked_before_crossings() {
    let source = stage_id(1);
    let entry = stage_id(2);
    let exit = stage_id(3);
    let sink = stage_id(4);
    let topology = Topology::new_unvalidated(
        stages(source, entry, exit, sink),
        vec![
            DirectedEdge::new(source, entry, EdgeKind::Forward),
            DirectedEdge::new(entry, exit, EdgeKind::Forward),
            DirectedEdge::new(exit, sink, EdgeKind::Forward)
                .with_composite_ports(vec![CompositePortRef::new("test:branch", "missing")]),
        ],
    )
    .expect("structural topology")
    .with_subgraphs(vec![branch(entry, exit)]);
    match topology.validate_with_level(ValidationLevel::StructuralOnly) {
        Err(TopologyError::UnknownCompositePort { from, to, port_name, .. }) => {
            assert_eq!((from, to), (exit, sink));
            assert_eq!(port_name, "missing");
        },
        other => panic!("expected the unknown port first, got {:?}", other),
    }
}

#[test]
fn first_unbound_crossing_is_reported() {
    let (topology, source, entry, ..) = fixture(false, false);
    match topology.validate_composite_boundaries() {
        Err(TopologyError::UnboundCompositeCrossing { from, to, .. }) => {
            assert_eq!((from, to), (source, entry));
        },
        other => panic!("expected the inbound crossing first, got {:?}", other),
    }
}
