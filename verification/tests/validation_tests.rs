use obzenflow_topology::validation::{
    compute_sccs, find_disconnected_stages, validate_acyclic, validate_connection_semantics,
    validate_edges_and_structure, validate_topology_structure,
};
use obzenflow_topology::{DirectedEdge, EdgeKind, StageId, StageInfo, StageRole, StageType, TopologyError};

fn id(n: u128) -> StageId {
    StageId::from_bytes(n.to_be_bytes())
}

#[test]
fn test_validate_acyclic_simple_dag() {
    let s1 = id(1);
    let s2 = id(2);
    let s3 = id(3);
    let stages = vec![s1, s2, s3];
    let downstream = vec![(s1, vec![s2]), (s2, vec![s3])];
    assert!(validate_acyclic(&stages, &downstream).is_ok());
}

#[test]
fn test_validate_acyclic_with_cycle() {
    let s1 = id(1);
    let s2 = id(2);
    let s3 = id(3);
    let stages = vec![s1, s2, s3];
    let downstream = vec![(s1, vec![s2]), (s2, vec![s3]), (s3, vec![s1])];

    let result = validate_acyclic(&stages, &downstream);
    assert!(result.is_err());

    if let Err(TopologyError::CycleDetected { stages }) = result {
        assert_eq!(stages.len(), 4);
        assert!(stages.contains(&s1));
        assert!(stages.contains(&s2));
        assert!(stages.contains(&s3));
    } else {
        panic!("Expected CycleDetected error");
    }
}

#[test]
fn cycle_report_is_a_closed_walk() {
    // 1 -> 2 -> 3 -> 2: the cycle is 2 -> 3 -> 2, reached from 1.
    let s1 = id(1);
    let s2 = id(2);
    let s3 = id(3);
    let stages = vec![s1, s2, s3];
    let downstream = vec![(s1, vec![s2]), (s2, vec![s3]), (s3, vec![s2])];
    match validate_acyclic(&stages, &downstream) {
        Err(TopologyError::CycleDetected { stages }) => {
            assert_eq!(stages, vec![s2, s3, s2]);
        }
        other => panic!("Expected CycleDetected, got {:?}", other),
    }
}

#[test]
fn test_disconnected_stages() {
    let s1 = id(1);
    let s2 = id(2);
    let s3 = id(3);
    let s4 = id(4);
    let stages = vec![s1, s2, s3, s4];
    let downstream = vec![(s1, vec![s2]), (s2, vec![s3])];
    let upstream = vec![(s2, vec![s1]), (s3, vec![s2])];

    let disconnected = find_disconnected_stages(&stages, &downstream, &upstream);
    assert!(disconnected.is_some());
    assert_eq!(disconnected.unwrap(), vec![s4]);
}

#[test]
fn test_no_disconnected_stages() {
    let s1 = id(1);
    let s2 = id(2);
    let s3 = id(3);
    let stages = vec![s1, s2, s3];
    let downstream = vec![(s1, vec![s2]), (s2, vec![s3])];
    let upstream = vec![(s2, vec![s1]), (s3, vec![s2])];

    let disconnected = find_disconnected_stages(&stages, &downstream, &upstream);
    assert!(disconnected.is_none());
}

#[test]
fn empty_neighbour_lists_do_not_connect() {
    let s1 = id(1);
    let stages = vec![s1];
    let downstream = vec![(s1, vec![])];
    let upstream: Vec<(StageId, Vec<StageId>)> = vec![];
    assert_eq!(find_disconnected_stages(&stages, &downstream, &upstream), Some(vec![s1]));
}

#[test]
fn test_compute_sccs_simple_cycle() {
    let s1 = id(1);
    let s2 = id(2);
    let s3 = id(3);
    let stages = vec![s1, s2, s3];
    let downstream = vec![(s1, vec![s2]), (s2, vec![s3]), (s3, vec![s1])];

    let sccs = compute_sccs(&stages, &downstream);
    assert_eq!(sccs.len(), 1);
    assert_eq!(sccs[0].len(), 3);
    assert!(sccs[0].contains(&s1));
    assert!(sccs[0].contains(&s2));
    assert!(sccs[0].contains(&s3));
}

#[test]
fn test_compute_sccs_multiple_components() {
    let s1 = id(101);
    let s2 = id(102);
    let s3 = id(103);
    let s4 = id(104);
    let s5 = id(105);
    let stages = vec![s1, s2, s3, s4, s5];
    let downstream = vec![
        (s1, vec![s2]),
        (s2, vec![s1]),
        (s3, vec![s4]),
        (s4, vec![s5]),
        (s5, vec![s3]),
    ];

    let sccs = compute_sccs(&stages, &downstream);
    assert_eq!(sccs.len(), 2);
    let mut scc_sizes: Vec<usize> = sccs.iter().map(|scc| scc.len()).collect();
    scc_sizes.sort();
    assert_eq!(scc_sizes, vec![2, 3]);
}

#[test]
fn test_compute_sccs_no_cycles() {
    let s1 = id(1);
    let s2 = id(2);
    let s3 = id(3);
    let stages = vec![s1, s2, s3];
    let downstream = vec![(s1, vec![s2]), (s2, vec![s3])];
    let sccs = compute_sccs(&stages, &downstream);
    assert_eq!(sccs.len(), 0);
}

#[test]
fn sccs_are_ordered_by_least_member_and_include_self_loops() {
    let s1 = id(1);
    let s2 = id(2);
    let s3 = id(3);
    let s4 = id(4);
    // 4 <-> 3, 2 -> 2, 1 alone
    let stages = vec![s4, s3, s2, s1];
    let downstream = vec![(s4, vec![s3]), (s3, vec![s4]), (s2, vec![s2])];
    let sccs = compute_sccs(&stages, &downstream);
    assert_eq!(sccs.len(), 2);
    assert_eq!(sccs[0], vec![s2]);
    assert_eq!(sccs[1].len(), 2);
    assert!(sccs[1].contains(&s3) && sccs[1].contains(&s4));
}

fn stage(n: u128, name: &str, t: StageType) -> StageInfo {
    StageInfo::new(id(n), name, t)
}

#[test]
fn connection_rules_follow_the_role_matrix() {
    let src = stage(1, "src", StageType::FiniteSource);
    let proc = stage(2, "proc", StageType::Transform);
    let join = stage(3, "join", StageType::Join);
    let sink = stage(4, "sink", StageType::Sink);
    assert!(validate_connection_semantics(&src, &proc, EdgeKind::Forward).is_ok());
    assert!(validate_connection_semantics(&src, &sink, EdgeKind::Forward).is_ok());
    assert!(validate_connection_semantics(&proc, &join, EdgeKind::Forward).is_ok());
    assert!(validate_connection_semantics(&proc, &sink, EdgeKind::Forward).is_ok());
    assert!(validate_connection_semantics(&proc, &join, EdgeKind::Backward).is_ok());
    assert!(validate_connection_semantics(&sink, &proc, EdgeKind::Backward).is_ok());
    assert!(validate_connection_semantics(&sink, &src, EdgeKind::Forward).is_err());
    assert!(validate_connection_semantics(&src, &proc, EdgeKind::Backward).is_err());
}

fn reason_of(r: Result<(), TopologyError>) -> (String, String) {
    match r {
        Err(TopologyError::InvalidConnection { operator, reason, .. }) => (operator, reason),
        other => panic!("expected InvalidConnection, got {:?}", other),
    }
}

#[test]
fn rejection_reasons_name_the_broken_rule() {
    let src = stage(1, "src", StageType::FiniteSource);
    let proc = stage(2, "proc", StageType::Stateful);
    let sink = stage(4, "sink", StageType::Sink);
    let sink2 = stage(5, "sink2", StageType::Sink);
    assert_eq!(
        reason_of(validate_connection_semantics(&proc, &src, EdgeKind::Backward)),
        ("<|".to_string(), "Cannot route data into a producer (source) via <| operator".to_string())
    );
    assert_eq!(
        reason_of(validate_connection_semantics(&sink, &sink2, EdgeKind::Backward)).1,
        "Backflow is only allowed into processor stages (transform/stateful/join)"
    );
    assert_eq!(
        reason_of(validate_connection_semantics(&sink, &src, EdgeKind::Backward)).1,
        "Producers cannot consume data; consumers cannot send backflow into producers"
    );
    assert_eq!(
        reason_of(validate_connection_semantics(&src, &sink, EdgeKind::Backward)).1,
        "Producers (sources) cannot consume data via <| operator"
    );
    assert_eq!(
        reason_of(validate_connection_semantics(&proc, &src, EdgeKind::Forward)),
        ("|>".to_string(), "Cannot pipe data into a producer (source)".to_string())
    );
    assert_eq!(
        reason_of(validate_connection_semantics(&sink, &proc, EdgeKind::Forward)).1,
        "Consumers (sinks) cannot produce data via |> operator"
    );
    assert_eq!(
        reason_of(validate_connection_semantics(&proc, &sink, EdgeKind::Backward)).1,
        "Invalid connection: stateful (Processor) <| sink (Consumer)"
    );
}

#[test]
fn rejection_carries_both_endpoints() {
    let sink = stage(4, "sink", StageType::Sink);
    let src = stage(1, "src", StageType::InfiniteSource);
    match validate_connection_semantics(&sink, &src, EdgeKind::Forward) {
        Err(TopologyError::InvalidConnection { from, from_name, from_type, from_role, to, to_name, to_type, to_role, .. }) => {
            assert_eq!(from, id(4));
            assert_eq!(from_name, "sink");
            assert_eq!(from_type, StageType::Sink);
            assert_eq!(from_role, StageRole::Consumer);
            assert_eq!(to, id(1));
            assert_eq!(to_name, "src");
            assert_eq!(to_type, StageType::InfiniteSource);
            assert_eq!(to_role, StageRole::Producer);
        }
        other => panic!("expected InvalidConnection, got {:?}", other),
    }
}

#[test]
fn structural_errors_come_in_order() {
    let a = stage(1, "a", StageType::Transform);
    let b = stage(2, "b", StageType::Transform);
    let c = stage(3, "c", StageType::Transform);
    let stages = vec![a.clone(), b.clone(), c.clone()];
    // unknown source stage
    let edges = vec![DirectedEdge::new(id(9), id(1), EdgeKind::Forward)];
    match validate_edges_and_structure(&stages, &edges) {
        Err(TopologyError::InvalidEdge { from, to, reason }) => {
            assert_eq!(from, id(9));
            assert_eq!(to, id(1));
            assert_eq!(reason, format!("Source stage {} not found", id(9).to_string()));
        }
        other => panic!("expected InvalidEdge, got {:?}", other),
    }
    // unknown target stage
    let edges = vec![DirectedEdge::new(id(1), id(9), EdgeKind::Forward)];
    match validate_edges_and_structure(&stages, &edges) {
        Err(TopologyError::InvalidEdge { reason, .. }) => {
            assert_eq!(reason, "Target stage 00000000000000000000000009 not found");
        }
        other => panic!("expected InvalidEdge, got {:?}", other),
    }
    // isolated stage
    let edges = vec![DirectedEdge::new(id(1), id(2), EdgeKind::Forward)];
    match validate_edges_and_structure(&stages, &edges) {
        Err(TopologyError::DisconnectedStages { stages }) => assert_eq!(stages, vec![id(3)]),
        other => panic!("expected DisconnectedStages, got {:?}", other),
    }
    // self loop
    let edges = vec![
        DirectedEdge::new(id(1), id(2), EdgeKind::Forward),
        DirectedEdge::new(id(3), id(3), EdgeKind::Forward),
    ];
    match validate_edges_and_structure(&stages, &edges) {
        Err(TopologyError::SelfCycle { stage }) => assert_eq!(stage, "c"),
        other => panic!("expected SelfCycle, got {:?}", other),
    }
    // all touched
    let edges = vec![
        DirectedEdge::new(id(1), id(2), EdgeKind::Forward),
        DirectedEdge::new(id(2), id(3), EdgeKind::Forward),
    ];
    assert!(validate_edges_and_structure(&stages, &edges).is_ok());
}

#[test]
fn flow_checks_report_unreachable_and_unproductive() {
    let src = stage(1, "src", StageType::FiniteSource);
    let p = stage(2, "p", StageType::Transform);
    let q = stage(3, "q", StageType::Transform);
    let sink = stage(4, "sink", StageType::Sink);
    let stages = vec![src, p, q, sink];
    let down = vec![(id(1), vec![id(2)]), (id(2), vec![id(4)]), (id(3), vec![id(4)])];
    match validate_topology_structure(&stages, &down) {
        Err(TopologyError::UnreachableStages { stages }) => assert_eq!(stages, vec![id(3)]),
        other => panic!("expected UnreachableStages, got {:?}", other),
    }
    let down = vec![(id(1), vec![id(2), id(3)]), (id(2), vec![id(4)])];
    match validate_topology_structure(&stages, &down) {
        Err(TopologyError::UnproductiveStages { stages }) => assert_eq!(stages, vec![id(3)]),
        other => panic!("expected UnproductiveStages, got {:?}", other),
    }
    let down = vec![(id(1), vec![id(2), id(3)]), (id(2), vec![id(4)]), (id(3), vec![id(4)])];
    assert!(validate_topology_structure(&stages, &down).is_ok());
}
