use obzenflow_topology::builder::TopologyBuilder;
use obzenflow_topology::validation::TopologyError;

#[test]
fn test_valid_topology_creation() {
    let mut builder = TopologyBuilder::new();
    let _s1 = builder.add_stage(Some("source".to_string()));
    let _s2 = builder.add_stage(Some("transform".to_string()));
    let _s3 = builder.add_stage(Some("sink".to_string()));

    match builder.build_unchecked() {
        Ok(topology) => {
            let metrics = topology.metrics();
            assert_eq!(metrics.num_stages, 3);
            assert_eq!(metrics.num_edges, 2);
        }
        Err(e) => panic!("Unexpected error creating valid topology: {:?}", e),
    }
}

#[test]
fn test_cycles_allowed() {
    let mut builder = TopologyBuilder::new();
    let s1 = builder.add_stage(Some("stage1".to_string()));
    let s2 = builder.add_stage(Some("stage2".to_string()));
    let s3 = builder.add_stage(Some("stage3".to_string()));
    builder.add_edge(s3, s1);

    match builder.build_unchecked() {
        Ok(topology) => {
            let metrics = topology.metrics();
            assert_eq!(metrics.num_stages, 3);
            assert_eq!(metrics.num_edges, 3);

            assert!(topology.has_edge(s1, s2));
            assert!(topology.has_edge(s2, s3));
            assert!(topology.has_edge(s3, s1));
        }
        Err(e) => panic!("Cycles should be allowed, but got error: {:?}", e),
    }
}

#[test]
fn test_duplicate_edge_detection() {
    let mut builder = TopologyBuilder::new();
    let s1 = builder.add_stage(Some("source".to_string()));
    let s2 = builder.add_stage(Some("sink".to_string()));
    builder.add_edge(s1, s2);

    match builder.build() {
        Err(TopologyError::DuplicateEdge { from, to }) => {
            assert_eq!(from, s1);
            assert_eq!(to, s2);
        }
        Ok(_) => panic!("Expected duplicate edge detection to fail"),
        Err(e) => panic!("Unexpected error: {:?}", e),
    }
}

#[test]
fn test_explicit_duplicate_edge_detection() {
    let mut builder = TopologyBuilder::new();
    let s1 = builder.add_stage(Some("source".to_string()));
    builder.reset_current();
    let s2 = builder.add_stage(Some("sink".to_string()));

    builder.add_edge(s1, s2);
    builder.add_edge(s1, s2);

    match builder.build() {
        Err(TopologyError::DuplicateEdge { from, to }) => {
            assert_eq!(from, s1);
            assert_eq!(to, s2);
        }
        Ok(_) => panic!("Expected duplicate edge detection to fail"),
        Err(e) => panic!("Unexpected error: {:?}", e),
    }
}

#[test]
fn test_disconnected_stages_detection() {
    let mut builder = TopologyBuilder::new();
    let _s1 = builder.add_stage(Some("source".to_string()));
    let _s2 = builder.add_stage(Some("transform".to_string()));

    builder.reset_current();
    let _s3 = builder.add_stage(Some("disconnected".to_string()));

    match builder.build() {
        Err(TopologyError::DisconnectedStages { stages }) => {
            assert_eq!(stages.len(), 1);
        }
        Ok(_) => panic!("Expected disconnected stage detection to fail"),
        Err(e) => panic!("Unexpected error: {:?}", e),
    }
}

#[test]
fn test_complex_topology_metrics() {
    let mut builder = TopologyBuilder::new();
    let source = builder.add_stage(Some("source".to_string()));

    builder.reset_current();
    let t1 = builder.add_stage(Some("transform1".to_string()));
    builder.reset_current();
    let t2 = builder.add_stage(Some("transform2".to_string()));
    builder.reset_current();
    let t3 = builder.add_stage(Some("transform3".to_string()));

    builder.add_edge(source, t1);
    builder.add_edge(source, t2);
    builder.add_edge(source, t3);

    builder.reset_current();
    let sink = builder.add_stage(Some("sink".to_string()));

    builder.add_edge(t1, sink);
    builder.add_edge(t2, sink);
    builder.add_edge(t3, sink);

    match builder.build_unchecked() {
        Ok(topology) => {
            let metrics = topology.metrics();
            assert_eq!(metrics.num_stages, 5);
            assert_eq!(metrics.num_edges, 6);
            assert_eq!(metrics.num_sources, 1);
            assert_eq!(metrics.num_sinks, 1);
            assert_eq!(metrics.max_fan_out, 3);
            assert_eq!(metrics.max_fan_in, 3);
            assert_eq!(metrics.max_depth, 2);
        }
        Err(e) => panic!("Unexpected error: {:?}", e),
    }
}

#[test]
fn test_isolated_node_detection() {
    let mut builder = TopologyBuilder::new();

    let _s1 = builder.add_stage(Some("stage1".to_string()));
    let s2 = builder.add_stage(Some("stage2".to_string()));

    builder.reset_current();
    let _isolated = builder.add_stage(Some("isolated".to_string()));

    builder.reset_current();
    let s4 = builder.add_stage(Some("stage4".to_string()));
    let _s5 = builder.add_stage(Some("stage5".to_string()));

    builder.add_edge(s2, s4);

    match builder.build() {
        Err(TopologyError::DisconnectedStages { stages }) => {
            assert_eq!(stages.len(), 1);
        }
        Ok(_) => panic!("Expected disconnected stage detection"),
        Err(e) => panic!("Unexpected error: {:?}", e),
    }
}

#[test]
fn test_document_processor_retry_pattern() {
    let mut builder = TopologyBuilder::new();

    let source = builder.add_stage(Some("source".to_string()));
    let validator = builder.add_stage(Some("validator".to_string()));
    builder.reset_current();
    let storage = builder.add_stage(Some("storage".to_string()));

    builder.reset_current();
    let fixer = builder.add_stage(Some("fixer".to_string()));

    builder.add_edge(validator, storage);

    builder.add_edge(validator, fixer);
    builder.add_edge(fixer, validator);

    match builder.build_unchecked() {
        Ok(topology) => {
            assert_eq!(topology.num_stages(), 4);

            assert_eq!(topology.downstream_stages(source), vec![validator]);
            assert!(topology.downstream_stages(validator).contains(&storage));
            assert!(topology.downstream_stages(validator).contains(&fixer));

            assert_eq!(topology.downstream_stages(fixer), vec![validator]);
            assert_eq!(topology.upstream_stages(validator).len(), 2);
        }
        Err(e) => panic!("Document processor pattern should be valid, but got: {:?}", e),
    }
}
