use obzenflow_topology::{
    DirectedEdge, EdgeTypingInfo, EdgeTypingLabelSource, EdgeTypingRole, StageInfo, StageStatus, StageType,
    StageTypingInfo, Topology, TopologyBuilder, TopologySubgraphInfo, TypeHintInfo,
};

fn build_minimal_topology() -> Topology {
    let mut builder = TopologyBuilder::new();
    let source = builder.add_stage(Some("orders".to_string()));
    builder.reset_current();
    let transform = builder.add_stage(Some("validated".to_string()));
    builder.reset_current();
    let sink = builder.add_stage(Some("printer".to_string()));
    builder.reset_current();
    builder.add_edge(source, transform);
    builder.add_edge(transform, sink);
    builder
        .build_unchecked()
        .expect("topology should build with structural validation")
}

#[test]
fn structural_algorithms_ignore_annotations() {
    let bare = build_minimal_topology();
    let bare_fingerprint = bare.topology_fingerprint();
    let bare_metrics = bare.metrics();

    let stages: Vec<StageInfo> = bare
        .stages()
        .iter()
        .cloned()
        .map(|s| {
            s.with_status(StageStatus::Running)
                .with_role(StageType::Transform.role())
                .with_is_cycle_member(false)
                .with_typing(StageTypingInfo {
                    input_type: TypeHintInfo::exact("Foo"),
                    output_type: TypeHintInfo::exact("Bar"),
                    boundary_in_type: TypeHintInfo::Unspecified,
                    boundary_out_type: TypeHintInfo::Unspecified,
                    reference_type: TypeHintInfo::Unspecified,
                    stream_type: TypeHintInfo::Unspecified,
                    is_placeholder: false,
                    placeholder_message: None,
                })
        })
        .collect();
    let edges: Vec<DirectedEdge> = bare
        .edges()
        .iter()
        .cloned()
        .map(|e| {
            e.with_typing(EdgeTypingInfo::new(
                EdgeTypingRole::Input,
                EdgeTypingLabelSource::UpstreamOutputType,
                TypeHintInfo::exact("Bar"),
            ))
        })
        .collect();

    let annotated = Topology::new_unvalidated(stages, edges).expect("annotated");

    assert_eq!(annotated.topology_fingerprint(), bare_fingerprint);

    let annotated_metrics = annotated.metrics();
    assert_eq!(annotated_metrics.num_stages, bare_metrics.num_stages);
    assert_eq!(annotated_metrics.num_edges, bare_metrics.num_edges);
    assert_eq!(annotated_metrics.num_sources, bare_metrics.num_sources);
    assert_eq!(annotated_metrics.num_sinks, bare_metrics.num_sinks);
    assert_eq!(annotated_metrics.max_fan_in, bare_metrics.max_fan_in);
    assert_eq!(annotated_metrics.max_fan_out, bare_metrics.max_fan_out);
    assert_eq!(annotated_metrics.max_depth, bare_metrics.max_depth);

    for stage in annotated.stages() {
        assert!(!annotated.is_in_cycle(stage.id));
        assert!(annotated.scc_id(stage.id).is_none());
    }
}

#[test]
fn populate_derived_stage_annotations_sets_role_and_cycle_membership() {
    let topology = build_minimal_topology().populate_derived_stage_annotations();
    for stage in topology.stages() {
        assert_eq!(stage.is_cycle_member, Some(false));
        assert_eq!(stage.role, Some(stage.stage_type.role()));
    }
}

#[test]
fn flow_name_prefers_annotation_over_derived() {
    let topology = build_minimal_topology().with_flow_name("custom_flow");
    assert_eq!(topology.flow_name(), "custom_flow");

    let unannotated = build_minimal_topology();
    // Falls back to "<source>_flow" because there is one source.
    assert!(unannotated.flow_name().ends_with("_flow"));
    assert_ne!(unannotated.flow_name(), "custom_flow");
}

#[test]
fn derived_annotations_mark_cycle_members_and_keep_structure() {
    let mut builder = TopologyBuilder::new();
    let source = builder.add_stage_with_id(obzenflow_topology::StageId::new_const(1), None, StageType::FiniteSource);
    let a = builder.add_stage_with_id(obzenflow_topology::StageId::new_const(2), None, StageType::Transform);
    let b = builder.add_stage_with_id(obzenflow_topology::StageId::new_const(3), None, StageType::Transform);
    let sink = builder.add_stage_with_id(obzenflow_topology::StageId::new_const(4), None, StageType::Sink);
    builder.add_edge(b, a);
    let topology = builder.build_unchecked().expect("structure");
    let fingerprint = topology.topology_fingerprint();
    let derived = topology.populate_derived_stage_annotations();
    assert_eq!(derived.topology_fingerprint(), fingerprint);
    for stage in derived.stages() {
        let expect_cycle = stage.id == a || stage.id == b;
        assert_eq!(stage.is_cycle_member, Some(expect_cycle));
        assert_eq!(stage.role, Some(stage.stage_type.role()));
    }
    assert!(derived.stages().iter().any(|s| s.id == source && s.role == Some(obzenflow_topology::StageRole::Producer)));
    assert!(derived.stages().iter().any(|s| s.id == sink && s.role == Some(obzenflow_topology::StageRole::Consumer)));
}

#[test]
fn subgraph_registry_is_carried_unchanged() {
    let topology = build_minimal_topology();
    assert!(topology.subgraphs().is_empty());
    let ids: Vec<_> = topology.stages().iter().map(|s| s.id).collect();
    let info = TopologySubgraphInfo::new("sg", "kind", "binding", "label", ids.clone(), vec![], vec![ids[0]], vec![ids[2]], true);
    let with = topology.with_subgraphs(vec![info.clone()]).with_flow_name("named");
    assert_eq!(with.subgraphs(), &[info][..]);
    assert_eq!(with.flow_name(), "named");
}
