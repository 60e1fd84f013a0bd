use obzenflow_topology::annotations::{is_schema_version_one, schema_version_one};
use obzenflow_topology::{
    BoundaryPortSpec, CompositePortRef, ContractInfo, DirectedEdge, EdgeKind, JoinMetadataInfo, MiddlewareInfo,
    PortDirection, PortId, Shape, StageId, StageInfo, StageRole, StageStatus, StageSubgraphMembership,
    StageTypingInfo, StageType, SubgraphInternalEdge, TopologySubgraphInfo, TypeHintInfo,
};

fn id(n: u128) -> StageId {
    StageId::from_bytes(n.to_be_bytes())
}

#[test]
fn stage_type_names_and_roles() {
    let all = [
        (StageType::FiniteSource, "finite_source", StageRole::Producer),
        (StageType::InfiniteSource, "infinite_source", StageRole::Producer),
        (StageType::Transform, "transform", StageRole::Processor),
        (StageType::Sink, "sink", StageRole::Consumer),
        (StageType::Stateful, "stateful", StageRole::Processor),
        (StageType::Join, "join", StageRole::Processor),
    ];
    for (t, name, role) in all {
        assert_eq!(t.as_str(), name);
        assert_eq!(t.role(), role);
        assert_eq!(t.is_source(), role == StageRole::Producer);
        assert_eq!(t.generates_events(), t.is_source());
        assert_eq!(t.consumes_events(), !t.is_source());
        assert_eq!(t.is_terminal(), t == StageType::Sink);
    }
    assert!(StageType::FiniteSource.is_finite_source());
    assert!(!StageType::InfiniteSource.is_finite_source());
    assert!(StageType::InfiniteSource.is_infinite_source());
    assert_eq!(StageRole::Processor.debug_name(), "Processor");
}

#[test]
fn status_names() {
    assert_eq!(StageStatus::Running.as_str(), "running");
    assert_eq!(StageStatus::Completed.as_str(), "completed");
    assert_eq!(StageStatus::Failed.as_str(), "failed");
    assert_eq!(StageStatus::Pending.as_str(), "pending");
}

#[test]
fn edge_text_and_equality() {
    let e = DirectedEdge::new(id(1), id(2), EdgeKind::Backward);
    assert_eq!(e.to_string(), "00000000000000000000000001 <| 00000000000000000000000002");
    assert_eq!(EdgeKind::Forward.as_str(), "|>");
    let annotated = e.clone().with_contracts(vec![ContractInfo::new("schema")]);
    assert_eq!(annotated, e);
    assert_ne!(DirectedEdge::new(id(1), id(2), EdgeKind::Forward), e);
}

#[test]
fn shapes_list_their_ports() {
    let s = id(7);
    let source = Shape::new_source(s);
    assert_eq!(source.inlets().len(), 0);
    assert_eq!(source.outlets(), vec![&PortId::new(s, 0)]);
    assert_eq!(source.stage_type(), StageType::InfiniteSource);
    let flow = Shape::new_flow(s);
    assert_eq!(flow.inlets(), vec![&PortId::new(s, 0)]);
    assert_eq!(flow.outlets(), vec![&PortId::new(s, 1)]);
    assert_eq!(flow.stage_type(), StageType::Transform);
    let sink = Shape::new_sink(s);
    assert_eq!(sink.outlets().len(), 0);
    assert_eq!(sink.stage_type(), StageType::Sink);
    let merge = Shape::Merge { ins: vec![PortId::new(s, 0), PortId::new(s, 1)], out: PortId::new(s, 2) };
    assert_eq!(merge.inlets().len(), 2);
    assert_eq!(merge.outlets(), vec![&PortId::new(s, 2)]);
}

#[test]
fn stage_info_builders_set_one_field() {
    let info = StageInfo::new(id(3), "x", StageType::Join);
    assert!(info.status.is_none());
    let info = info.with_status(StageStatus::Failed).with_is_cycle_member(true);
    assert_eq!(info.status, Some(StageStatus::Failed));
    assert_eq!(info.is_cycle_member, Some(true));
    assert_eq!(info.name, "x");
    let auto = StageInfo::auto_named(id(3), StageType::Sink);
    assert_eq!(auto.name, "stage_00000000000000000000000003");
    let typed = auto.with_typing(StageTypingInfo::empty());
    assert_eq!(typed.typing, Some(StageTypingInfo::empty()));
    assert_eq!(StageTypingInfo::empty().input_type, TypeHintInfo::Unspecified);
}

#[test]
fn annotation_constructors() {
    let config: serde_json::Value = serde_json::from_str("{\"a\":1}").unwrap();
    let c = ContractInfo::new("schema").with_config(config.clone());
    assert_eq!(c.name, "schema");
    assert_eq!(c.config, Some(config));
    let j = JoinMetadataInfo::new(vec![id(1)], vec![id(2), id(3)]);
    assert_eq!(j.stream_source_ids.len(), 2);
    let m = MiddlewareInfo::new(vec!["retry".to_string()]);
    assert!(m.retry.is_none() && m.circuit_breaker.is_none() && m.rate_limiter.is_none());
    assert_eq!(schema_version_one(), 1);
    assert!(is_schema_version_one(&1));
    assert!(!is_schema_version_one(&2));
    let mem = StageSubgraphMembership::new("sg", "kind", "b", "role", 2, true, false).with_class("leg");
    assert_eq!(mem.class.as_deref(), Some("leg"));
    assert_eq!(mem.order, 2);
    let port = CompositePortRef::new("sg", "out");
    assert_eq!(port.port_name, "out");
    let spec = BoundaryPortSpec::new("in", PortDirection::Input, id(4), vec![], true);
    let info = TopologySubgraphInfo::new("sg", "k", "b", "label", vec![id(4)], vec![SubgraphInternalEdge::new(id(4), id(5), "main")], vec![id(4)], vec![id(5)], true)
        .with_parent_subgraph_id("parent")
        .with_boundary_ports(vec![spec.clone()]);
    assert_eq!(info.schema_version, 1);
    assert_eq!(info.parent_subgraph_id.as_deref(), Some("parent"));
    assert_eq!(info.boundary_ports, vec![spec]);
}

#[test]
fn edges_hash_by_endpoints_and_kind() {
    let plain = DirectedEdge::new(id(1), id(2), EdgeKind::Forward);
    let annotated = DirectedEdge::new(id(1), id(2), EdgeKind::Forward)
        .with_composite_ports(vec![CompositePortRef::new("sg", "out")]);
    let backward = DirectedEdge::new(id(1), id(2), EdgeKind::Backward);
    let set: std::collections::HashSet<DirectedEdge> = vec![plain.clone(), annotated, backward].into_iter().collect();
    assert_eq!(set.len(), 2);
    assert!(set.contains(&plain));
}
