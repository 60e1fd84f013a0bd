use obzenflow_topology::{
    DirectedEdge, EdgeTypingLabelSource, EdgeTypingRole, JoinMetadataInfo, StageId, StageInfo, StageType,
    StageTypingInfo, Topology, TopologyBuilder, TypeHintInfo,
};

fn build_three_stage_with_join() -> Topology {
    let mut builder = TopologyBuilder::new();
    let stream = builder.add_stage_with_id(
        StageId::from_bytes(2_001_u128.to_be_bytes()),
        Some("orders".to_string()),
        StageType::FiniteSource,
    );
    builder.reset_current();
    let catalog = builder.add_stage_with_id(
        StageId::from_bytes(2_002_u128.to_be_bytes()),
        Some("promotions".to_string()),
        StageType::FiniteSource,
    );
    builder.reset_current();
    let join = builder.add_stage_with_id(
        StageId::from_bytes(2_003_u128.to_be_bytes()),
        Some("promo_enriched".to_string()),
        StageType::Join,
    );
    builder.reset_current();
    builder.add_edge(stream, join);
    builder.add_edge(catalog, join);
    builder.build_unchecked().expect("topology should build")
}

#[test]
fn derive_edge_typings_classifies_join_legs_and_forwards() {
    let topology = build_three_stage_with_join();
    let stage_ids: Vec<_> = topology.stages().iter().map(|s| s.id).collect();
    let stream_id = stage_ids.iter().copied().find(|id| topology.stage_name(*id) == Some("orders")).unwrap();
    let catalog_id = stage_ids.iter().copied().find(|id| topology.stage_name(*id) == Some("promotions")).unwrap();
    let join_id = stage_ids.iter().copied().find(|id| topology.stage_name(*id) == Some("promo_enriched")).unwrap();

    let mut stages: Vec<StageInfo> = topology.stages().to_vec();
    if let Some(info) = stages.iter_mut().find(|s| s.id == join_id) {
        *info = info
            .clone()
            .with_join_metadata(JoinMetadataInfo::new(vec![catalog_id], vec![stream_id]))
            .with_typing(StageTypingInfo {
                input_type: TypeHintInfo::Unspecified,
                output_type: TypeHintInfo::exact("EnrichedOrderWithPromo"),
                boundary_in_type: TypeHintInfo::Unspecified,
                boundary_out_type: TypeHintInfo::Unspecified,
                reference_type: TypeHintInfo::exact("Promotion"),
                stream_type: TypeHintInfo::exact("EnrichedOrder"),
                is_placeholder: false,
                placeholder_message: None,
            });
    }

    let edges: Vec<DirectedEdge> = topology.edges().to_vec();
    let derived = Topology::new_unvalidated(stages, edges).expect("rebuild").derive_edge_typings();

    let catalog_edge = derived.edges().iter().find(|e| e.from == catalog_id && e.to == join_id).unwrap();
    let typing = catalog_edge.typing.as_ref().expect("catalog edge typing");
    assert_eq!(typing.role, EdgeTypingRole::Reference);
    assert_eq!(typing.label_source, EdgeTypingLabelSource::DownstreamReferenceType);
    assert_eq!(typing.payload_type, TypeHintInfo::exact("Promotion"));

    let stream_edge = derived.edges().iter().find(|e| e.from == stream_id && e.to == join_id).unwrap();
    let typing = stream_edge.typing.as_ref().expect("stream edge typing");
    assert_eq!(typing.role, EdgeTypingRole::Stream);
    assert_eq!(typing.payload_type, TypeHintInfo::exact("EnrichedOrder"));
}

fn typed(output: TypeHintInfo, input: TypeHintInfo) -> StageTypingInfo {
    let mut t = StageTypingInfo::empty();
    t.output_type = output;
    t.input_type = input;
    t
}

#[test]
fn forward_edges_take_the_upstream_output_then_the_downstream_input() {
    let a = StageId::new_const(1);
    let b = StageId::new_const(2);
    let c = StageId::new_const(3);
    let d = StageId::new_const(4);
    let stages = vec![
        StageInfo::new(a, "a", StageType::FiniteSource).with_typing(typed(TypeHintInfo::exact("Order"), TypeHintInfo::Unspecified)),
        StageInfo::new(b, "b", StageType::Transform).with_typing(typed(TypeHintInfo::Unspecified, TypeHintInfo::exact("Order"))),
        StageInfo::new(c, "c", StageType::Transform).with_typing(typed(TypeHintInfo::Unspecified, TypeHintInfo::Mixed)),
        StageInfo::new(d, "d", StageType::Sink),
    ];
    let edges = vec![
        DirectedEdge::new(a, b, obzenflow_topology::EdgeKind::Forward),
        DirectedEdge::new(b, c, obzenflow_topology::EdgeKind::Forward),
        DirectedEdge::new(c, d, obzenflow_topology::EdgeKind::Forward),
    ];
    let derived = Topology::new_unvalidated(stages, edges).unwrap().derive_edge_typings();
    let e = derived.edges();
    let t0 = e[0].typing.as_ref().unwrap();
    assert_eq!((t0.role, t0.label_source), (EdgeTypingRole::Input, EdgeTypingLabelSource::UpstreamOutputType));
    assert_eq!(t0.payload_type, TypeHintInfo::exact("Order"));
    let t1 = e[1].typing.as_ref().unwrap();
    assert_eq!((t1.role, t1.label_source), (EdgeTypingRole::Input, EdgeTypingLabelSource::DownstreamInputType));
    assert_eq!(t1.payload_type, TypeHintInfo::Mixed);
    // neither side of c -> d declares anything usable: c's output is
    // unspecified and d declares no typing, so the edge keeps none
    assert!(e[2].typing.is_none());
}
