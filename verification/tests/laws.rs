use std::hash::{Hash, Hasher};
use obzenflow_topology::{DirectedEdge, EdgeKind, StageId, StageInfo, StageType, Topology, Ulid, ValidationLevel};

fn id(n: u128) -> StageId {
    StageId::from_bytes(n.to_be_bytes())
}

fn pipeline() -> (Vec<StageInfo>, Vec<DirectedEdge>) {
    let stages = vec![
        StageInfo::new(id(3), "source", StageType::FiniteSource),
        StageInfo::new(id(1), "left", StageType::Transform),
        StageInfo::new(id(4), "right", StageType::Transform),
        StageInfo::new(id(2), "sink", StageType::Sink),
    ];
    let edges = vec![
        DirectedEdge::new(id(3), id(1), EdgeKind::Forward),
        DirectedEdge::new(id(3), id(4), EdgeKind::Forward),
        DirectedEdge::new(id(1), id(2), EdgeKind::Forward),
        DirectedEdge::new(id(4), id(2), EdgeKind::Forward),
    ];
    (stages, edges)
}

#[test]
fn fingerprint_ignores_input_order() {
    let (stages, edges) = pipeline();
    let mut stages_rev = stages.clone();
    stages_rev.reverse();
    let mut edges_rev = edges.clone();
    edges_rev.reverse();
    let t1 = Topology::new_unvalidated(stages, edges).unwrap();
    let t2 = Topology::new_unvalidated(stages_rev, edges_rev).unwrap();
    assert_eq!(t1.topology_fingerprint(), t2.topology_fingerprint());
}

#[test]
fn fingerprint_reads_names() {
    let (mut stages, edges) = pipeline();
    let t1 = Topology::new_unvalidated(stages.clone(), edges.clone()).unwrap();
    stages[1] = StageInfo::new(id(1), "renamed", StageType::Transform);
    let t2 = Topology::new_unvalidated(stages, edges).unwrap();
    assert_ne!(t1.topology_fingerprint(), t2.topology_fingerprint());
}

#[test]
fn fan_out_and_fan_in_count_neighbours() {
    let (stages, edges) = pipeline();
    let t = Topology::new_unvalidated(stages, edges).unwrap();
    let m = t.metrics();
    assert_eq!(m.max_fan_out, t.downstream_stages(id(3)).len());
    assert_eq!(m.max_fan_in, t.upstream_stages(id(2)).len());
    assert_eq!(m.max_fan_out, 2);
    assert_eq!(m.max_fan_in, 2);
    assert_eq!(m.num_sources, t.source_stages().len());
    assert_eq!(m.num_sinks, t.sink_stages().len());
}

#[test]
fn stages_keep_the_given_order() {
    let (stages, edges) = pipeline();
    let ids: Vec<StageId> = stages.iter().map(|s| s.id).collect();
    let t = Topology::new_unvalidated(stages, edges).unwrap();
    let kept: Vec<StageId> = t.stages().iter().map(|s| s.id).collect();
    assert_eq!(kept, ids);
    assert_eq!(t.stage_info(id(4)).map(|s| s.name.clone()), Some("right".to_string()));
}

#[test]
fn connection_error_is_the_same_at_every_level_that_checks_it() {
    let stages = vec![
        StageInfo::new(id(1), "source", StageType::FiniteSource),
        StageInfo::new(id(2), "sink", StageType::Sink),
        StageInfo::new(id(3), "late", StageType::FiniteSource),
    ];
    let edges = vec![
        DirectedEdge::new(id(1), id(2), EdgeKind::Forward),
        DirectedEdge::new(id(2), id(3), EdgeKind::Forward),
    ];
    let t = Topology::new_unvalidated(stages.clone(), edges.clone()).unwrap();
    assert!(t.validate_with_level(ValidationLevel::StructuralOnly).is_ok());
    let semantic = t.validate_with_level(ValidationLevel::Semantic).unwrap_err();
    let full = t.validate_with_level(ValidationLevel::Full).unwrap_err();
    assert_eq!(format!("{:?}", semantic), format!("{:?}", full));
    let built = Topology::new(stages, edges).unwrap_err();
    assert_eq!(format!("{:?}", built), format!("{:?}", full));
}

#[test]
fn structural_error_of_new_is_that_of_the_unvalidated_constructor() {
    let stages = vec![
        StageInfo::new(id(1), "source", StageType::FiniteSource),
        StageInfo::new(id(2), "sink", StageType::Sink),
        StageInfo::new(id(3), "alone", StageType::Transform),
    ];
    let edges = vec![DirectedEdge::new(id(1), id(2), EdgeKind::Forward)];
    let unvalidated = Topology::new_unvalidated(stages.clone(), edges.clone()).unwrap_err();
    let built = Topology::new(stages, edges).unwrap_err();
    assert_eq!(format!("{:?}", unvalidated), format!("{:?}", built));
}

#[test]
fn scc_components_are_disjoint_and_have_two_stages() {
    let stages = vec![
        StageInfo::new(id(1), "source", StageType::FiniteSource),
        StageInfo::new(id(2), "a", StageType::Transform),
        StageInfo::new(id(3), "b", StageType::Transform),
        StageInfo::new(id(4), "c", StageType::Transform),
        StageInfo::new(id(5), "d", StageType::Transform),
        StageInfo::new(id(6), "sink", StageType::Sink),
    ];
    let edges = vec![
        DirectedEdge::new(id(1), id(2), EdgeKind::Forward),
        DirectedEdge::new(id(2), id(3), EdgeKind::Forward),
        DirectedEdge::new(id(3), id(2), EdgeKind::Backward),
        DirectedEdge::new(id(3), id(4), EdgeKind::Forward),
        DirectedEdge::new(id(4), id(5), EdgeKind::Forward),
        DirectedEdge::new(id(5), id(4), EdgeKind::Backward),
        DirectedEdge::new(id(5), id(6), EdgeKind::Forward),
    ];
    let t = Topology::new_unvalidated(stages, edges).unwrap();
    let first = t.scc_members(0).unwrap().clone();
    let second = t.scc_members(1).unwrap().clone();
    assert!(t.scc_members(2).is_none());
    assert_eq!(first.len(), 2);
    assert_eq!(second.len(), 2);
    assert!(first.iter().all(|x| !second.contains(x)));
    assert_eq!(t.scc_id(id(2)), Some(0));
    assert_eq!(t.scc_id(id(5)), Some(1));
    assert_eq!(t.scc_id(id(1)), None);
}

#[test]
fn ulid_bytes_read_back_to_the_ulid() {
    let u = Ulid::from_u128(0x0123_4567_89ab_cdef_0011_2233_4455_6677);
    let back = Ulid::from_u128(u128::from_be_bytes(u.as_bytes()));
    assert_eq!(back, u);
    assert_eq!(u.as_bytes()[0], 0x01);
    assert_eq!(u.as_bytes()[15], 0x77);
}

#[test]
fn fingerprint_is_the_std_hash_of_the_sorted_structure() {
    let (stages, edges) = pipeline();
    let t = Topology::new_unvalidated(stages.clone(), edges.clone()).unwrap();
    let mut sorted_stages = stages;
    sorted_stages.sort_by_key(|s| s.id.to_bytes());
    let mut sorted_edges = edges;
    sorted_edges.sort_by_key(|e| (e.from.to_bytes(), e.to.to_bytes()));
    let mut h = std::collections::hash_map::DefaultHasher::new();
    for s in &sorted_stages {
        s.id.to_bytes().hash(&mut h);
        s.name.hash(&mut h);
        s.stage_type.as_str().hash(&mut h);
    }
    for e in &sorted_edges {
        e.from.to_bytes().hash(&mut h);
        e.to.to_bytes().hash(&mut h);
        std::mem::discriminant(&e.kind).hash(&mut h);
    }
    assert_eq!(t.topology_fingerprint(), h.finish());
}
