use obzenflow_topology::builder::TopologyBuilder;
use obzenflow_topology::{EdgeKind, StageId, StageType};

#[test]
fn test_builder_chaining() {
    let mut builder = TopologyBuilder::new();

    let s1 = builder.add_stage(Some("stage1".to_string()));
    let s2 = builder.add_stage(Some("stage2".to_string()));
    let s3 = builder.add_stage(Some("stage3".to_string()));

    let topology = builder.build_unchecked().unwrap();

    assert_eq!(topology.downstream_stages(s1), &[s2]);
    assert_eq!(topology.downstream_stages(s2), &[s3]);
    assert_eq!(topology.upstream_stages(s3), &[s2]);
}

#[test]
fn test_builder_fan_in() {
    let mut builder = TopologyBuilder::new();

    let source1 = builder.add_stage(Some("source1".to_string()));
    builder.reset_current();
    let source2 = builder.add_stage(Some("source2".to_string()));
    builder.reset_current();

    let merger = builder.add_stage(Some("merger".to_string()));

    builder.add_edge(source1, merger);
    builder.add_edge(source2, merger);

    let topology = builder.build_unchecked().unwrap();

    let upstream = topology.upstream_stages(merger);
    assert_eq!(upstream.len(), 2);
    assert!(upstream.contains(&source1));
    assert!(upstream.contains(&source2));
}

#[test]
fn generated_ids_count_up_from_one() {
    let mut builder = TopologyBuilder::default();
    let a = builder.add_stage(None);
    let b = builder.add_stage(None);
    assert_eq!(a, StageId::from_bytes(1u128.to_be_bytes()));
    assert_eq!(b, StageId::from_bytes(2u128.to_be_bytes()));
    let t = builder.build_unchecked().unwrap();
    assert_eq!(t.stage_name(a), Some("stage_00000000000000000000000001"));
    assert_eq!(t.stage_info(b).unwrap().stage_type, StageType::Transform);
    assert_eq!(t.edges()[0].kind, EdgeKind::Forward);
}

#[test]
fn explicit_ids_and_types_build_a_valid_flow() {
    let mut builder = TopologyBuilder::new();
    let src = builder.add_stage_with_id(StageId::from_bytes(10u128.to_be_bytes()), Some("src".to_string()), StageType::FiniteSource);
    let sink = builder.add_stage_with_id(StageId::from_bytes(11u128.to_be_bytes()), Some("sink".to_string()), StageType::Sink);
    let t = builder.build().unwrap();
    assert_eq!(t.downstream_stages(src), vec![sink]);
    assert_eq!(t.semantic_source_stages(), vec![src]);
}

#[test]
fn set_current_links_the_next_stage() {
    let mut builder = TopologyBuilder::new();
    let a = builder.add_stage(Some("a".to_string()));
    let _b = builder.add_stage(Some("b".to_string()));
    builder.set_current(a);
    let c = builder.add_stage(Some("c".to_string()));
    let t = builder.build_unchecked().unwrap();
    assert!(t.has_edge(a, c));
    assert_eq!(t.downstream_stages(a).len(), 2);
}

#[test]
fn generated_stages_are_transforms_so_full_validation_finds_no_producer() {
    let mut builder = TopologyBuilder::new();
    let _a = builder.add_stage(Some("a".to_string()));
    let _b = builder.add_stage(Some("b".to_string()));
    match builder.build() {
        Err(obzenflow_topology::TopologyError::NoSources) => {},
        other => panic!("expected NoSources, got {:?}", other.map(|t| t.num_stages())),
    }
}
