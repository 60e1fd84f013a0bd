use obzenflow_topology::{DirectedEdge, EdgeKind, StageId, StageInfo, StageType, Topology, TopologyError};

/// Deterministic test ids.
struct TestIds {
    next: u128,
}

impl TestIds {
    fn new() -> TestIds {
        TestIds { next: 0 }
    }

    /// A StageInfo with the next id and the given type.
    fn mk_stage(&mut self, name: &str, stage_type: StageType) -> StageInfo {
        self.next += 1;
        let id = StageId::from_bytes(self.next.to_be_bytes());
        StageInfo::new(id, name, stage_type)
    }
}

#[test]
fn test_semantic_valid_source_processor_sink() {
    let mut ids = TestIds::new();
    let source = ids.mk_stage("source", StageType::FiniteSource);
    let proc = ids.mk_stage("proc", StageType::Transform);
    let sink = ids.mk_stage("sink", StageType::Sink);

    let stages = vec![source.clone(), proc.clone(), sink.clone()];
    let edges = vec![
        DirectedEdge::new(source.id, proc.id, EdgeKind::Forward),
        DirectedEdge::new(proc.id, sink.id, EdgeKind::Forward),
    ];

    let topo = Topology::new(stages, edges).expect("valid source->proc->sink topology");

    assert_eq!(topo.semantic_source_stages(), vec![source.id]);
    assert_eq!(topo.semantic_sink_stages(), vec![sink.id]);
}

#[test]
fn test_semantic_sink_to_source_forward_rejected() {
    let mut ids = TestIds::new();
    let sink = ids.mk_stage("sink", StageType::Sink);
    let source = ids.mk_stage("source", StageType::FiniteSource);

    let stages = vec![sink.clone(), source.clone()];
    let edges = vec![DirectedEdge::new(sink.id, source.id, EdgeKind::Forward)];

    match Topology::new(stages, edges) {
        Err(TopologyError::InvalidConnection { operator, from_name, to_name, .. }) => {
            assert_eq!(operator, "|>");
            assert_eq!(from_name, "sink");
            assert_eq!(to_name, "source");
        }
        Ok(_) => panic!("Expected InvalidConnection error for sink |> source"),
        Err(e) => panic!("Unexpected error: {:?}", e),
    }
}

#[test]
fn test_semantic_no_sources_error() {
    let mut ids = TestIds::new();
    let proc = ids.mk_stage("proc", StageType::Transform);
    let sink = ids.mk_stage("sink", StageType::Sink);

    let stages = vec![proc.clone(), sink.clone()];
    let edges = vec![DirectedEdge::new(proc.id, sink.id, EdgeKind::Forward)];

    match Topology::new(stages, edges) {
        Err(TopologyError::NoSources) => {}
        Ok(_) => panic!("Expected NoSources error"),
        Err(e) => panic!("Unexpected error: {:?}", e),
    }
}

#[test]
fn test_semantic_no_sinks_error() {
    let mut ids = TestIds::new();
    let source = ids.mk_stage("source", StageType::FiniteSource);
    let proc = ids.mk_stage("proc", StageType::Transform);

    let stages = vec![source.clone(), proc.clone()];
    let edges = vec![DirectedEdge::new(source.id, proc.id, EdgeKind::Forward)];

    match Topology::new(stages, edges) {
        Err(TopologyError::NoSinks) => {}
        Ok(_) => panic!("Expected NoSinks error"),
        Err(e) => panic!("Unexpected error: {:?}", e),
    }
}

#[test]
fn test_semantic_unreachable_stages_error() {
    let mut ids = TestIds::new();
    let source1 = ids.mk_stage("source1", StageType::FiniteSource);
    let proc1 = ids.mk_stage("proc1", StageType::Transform);
    let proc2 = ids.mk_stage("proc2", StageType::Transform);
    let sink2 = ids.mk_stage("sink2", StageType::Sink);

    let stages = vec![source1.clone(), proc1.clone(), proc2.clone(), sink2.clone()];
    let edges = vec![
        DirectedEdge::new(source1.id, proc1.id, EdgeKind::Forward),
        DirectedEdge::new(proc2.id, sink2.id, EdgeKind::Forward),
    ];

    match Topology::new(stages, edges) {
        Err(TopologyError::UnreachableStages { stages }) => {
            assert!(stages.contains(&proc2.id));
            assert!(stages.contains(&sink2.id));
        }
        Ok(_) => panic!("Expected UnreachableStages error"),
        Err(e) => panic!("Unexpected error: {:?}", e),
    }
}

#[test]
fn test_semantic_unproductive_stages_error() {
    let mut ids = TestIds::new();
    let source = ids.mk_stage("source", StageType::FiniteSource);
    let proc1 = ids.mk_stage("proc1", StageType::Transform);
    let proc2 = ids.mk_stage("proc2", StageType::Transform);
    let sink = ids.mk_stage("sink", StageType::Sink);

    let stages = vec![source.clone(), proc1.clone(), proc2.clone(), sink.clone()];
    let edges = vec![
        DirectedEdge::new(source.id, proc1.id, EdgeKind::Forward),
        DirectedEdge::new(proc1.id, sink.id, EdgeKind::Forward),
        DirectedEdge::new(source.id, proc2.id, EdgeKind::Forward),
    ];

    match Topology::new(stages, edges) {
        Err(TopologyError::UnproductiveStages { stages }) => {
            assert!(stages.contains(&proc2.id));
        }
        Ok(_) => panic!("Expected UnproductiveStages error"),
        Err(e) => panic!("Unexpected error: {:?}", e),
    }
}
