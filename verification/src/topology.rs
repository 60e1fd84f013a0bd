//! The topology: a stage map, its edges, and the facts derived from them
//! (adjacency and the strongly connected components that are cycles).

use vstd::prelude::*;
use crate::edge::DirectedEdge;
use crate::graph::{adj_has, reaches, mutually_reach, on_cycle, lemma_reaches_refl, lemma_reaches_ends};
use crate::ids::{StageId, be_bytes};
use vstd::utf8::encode_utf8;
use vstd::std_specs::hash::DefaultHasherAdditionalSpecFns;
use crate::stage_info::StageInfo;
use crate::typing::{EdgeTypingInfo, EdgeTypingLabelSource, EdgeTypingRole, StageTypingInfo, TypeHintInfo};
use crate::annotations::{TopologySubgraphInfo, CompositePortRef};
use crate::boundary::{boundaries_ok, is_boundary_error, validate_boundaries};
use vstd::string::*;
use crate::validation::{
    TopologyError, ValidationResult, compute_sccs, cycle_components, distinct_ids, has_stage,
    ids_of, is_structure_error, stage_ids, structure_ok, validate_edges_and_structure, reached_from_stages,
    cyclic, edge_allowed, is_rejection, stage_named, flow_complete, is_flow_error, validate_all_connections,
    validate_topology_structure, lemma_flow_same_links, keep_ids, lemma_keep_ids_step, lemma_stage_named,
    edge_fault, is_least, least_of, has_role, reached_by_producer, reaches_consumer, duplicate_at, touches,
    same_report, is_edge_error, pair_key,
};
use crate::graph::{
    index_of, build_numbering, numbering, idx_simple_ext, idx_walk, idx_edge, longest_from, graph_wf, reach_matrix,
    is_reach_matrix, is_acyclic_from, longest_from_acyclic, only_marked,
};
use crate::stage_type::{StageRole, StageType, spec_role, stage_type_name};
use crate::edge::EdgeKind;
use crate::order::{pair_lt, sorts, sorted_order, distinct_keys, lemma_sorted_unique, is_order};
use std::collections::hash_map::DefaultHasher;
use std::collections::{HashMap, HashSet};
use crate::index::{position_of_value, position_index, link_keys, pair_key_of, holds_value, neighbour_index, neighbours_of, neighbours_at, neighbour_count};
use std::hash::Hasher;

verus! {

/// Validation level for topology semantics.
#[derive(Debug, Clone, Copy, PartialEq, Eq, Structural)]
pub enum ValidationLevel {
    /// Structural checks only: endpoints, duplicates, self-cycles,
    /// disconnected stages.
    StructuralOnly,
    /// Structural + StageType/StageRole + EdgeKind connection semantics.
    Semantic,
    /// Semantic + flow invariants (sources, sinks, reachability).
    Full,
}

// ------------------------------------------------------------ stage map

/// Position of the stage with this id (meaningful when there is one).
pub open spec fn position_of(m: Seq<StageInfo>, id: StageId) -> int {
    choose|i: int| 0 <= i < m.len() && (#[trigger] m[i]).id == id
}

/// The stages inserted in order into a map keyed by id: an id keeps the
/// position where it first occurred and the stage that came last.
pub open spec fn stage_map(s: Seq<StageInfo>) -> Seq<StageInfo>
    decreases s.len(),
{
    if s.len() == 0 {
        Seq::empty()
    } else {
        let m = stage_map(s.drop_last());
        if has_stage(m, s.last().id) {
            m.update(position_of(m, s.last().id), s.last())
        } else {
            m.push(s.last())
        }
    }
}

/// The stage map has distinct ids, the ids of the input, and no more stages
/// than the input.
pub proof fn lemma_stage_map(s: Seq<StageInfo>)
    ensures
        distinct_ids(stage_map(s)),
        stage_map(s).len() <= s.len(),
        forall|id: StageId| has_stage(stage_map(s), id) <==> has_stage(s, id),
    decreases s.len(),
{
    if s.len() > 0 {
        let t = s.drop_last();
        let x = s.last();
        lemma_stage_map(t);
        let m = stage_map(t);
        if has_stage(m, x.id) {
            let p = position_of(m, x.id);
            let r = m.update(p, x);
            assert forall|i: int, j: int| 0 <= i < r.len() && 0 <= j < r.len() && i != j implies
                (#[trigger] r[i]).id != (#[trigger] r[j]).id by {
                assert(m[i].id == r[i].id);
                assert(m[j].id == r[j].id);
            }
            assert forall|id: StageId| has_stage(r, id) <==> has_stage(s, id) by {
                if has_stage(r, id) {
                    let i = choose|i: int| 0 <= i < r.len() && (#[trigger] r[i]).id == id;
                    assert(m[i].id == id);
                    assert(has_stage(t, id));
                    let k = choose|k: int| 0 <= k < t.len() && (#[trigger] t[k]).id == id;
                    assert(s[k].id == id);
                }
                if has_stage(s, id) {
                    let k = choose|k: int| 0 <= k < s.len() && (#[trigger] s[k]).id == id;
                    if k < t.len() {
                        assert(t[k].id == id);
                        assert(has_stage(t, id));
                        assert(has_stage(m, id));
                        let i = choose|i: int| 0 <= i < m.len() && (#[trigger] m[i]).id == id;
                        assert(r[i].id == id);
                    } else {
                        assert(r[p].id == id);
                    }
                }
            }
        } else {
            let r = m.push(x);
            assert forall|i: int, j: int| 0 <= i < r.len() && 0 <= j < r.len() && i != j implies
                (#[trigger] r[i]).id != (#[trigger] r[j]).id by {
                if i < m.len() && j < m.len() {
                    assert(m[i].id == r[i].id);
                    assert(m[j].id == r[j].id);
                } else if i < m.len() {
                    assert(m[i].id == r[i].id);
                } else if j < m.len() {
                    assert(m[j].id == r[j].id);
                }
            }
            assert forall|id: StageId| has_stage(r, id) <==> has_stage(s, id) by {
                if has_stage(r, id) {
                    let i = choose|i: int| 0 <= i < r.len() && (#[trigger] r[i]).id == id;
                    if i < m.len() {
                        assert(m[i].id == id);
                        assert(has_stage(t, id));
                        let k = choose|k: int| 0 <= k < t.len() && (#[trigger] t[k]).id == id;
                        assert(s[k].id == id);
                    } else {
                        assert(s[s.len() - 1].id == id);
                    }
                }
                if has_stage(s, id) {
                    let k = choose|k: int| 0 <= k < s.len() && (#[trigger] s[k]).id == id;
                    if k < t.len() {
                        assert(t[k].id == id);
                        assert(has_stage(t, id));
                        assert(has_stage(m, id));
                        let i = choose|i: int| 0 <= i < m.len() && (#[trigger] m[i]).id == id;
                        assert(r[i].id == id);
                    } else {
                        assert(r[m.len() as int].id == id);
                    }
                }
            }
        }
    }
}

/// Collect the stages into a map keyed by id (a later stage replaces an
/// earlier one with the same id, in its place).
fn insert_stages(stages: Vec<StageInfo>) -> (r: Vec<StageInfo>)
    ensures
        r@ == stage_map(stages@),
{
    let ghost input = stages@;
    let mut rest = stages;
    let mut out: Vec<StageInfo> = Vec::new();
    let mut pos: HashMap<u128, usize> = HashMap::new();
    let ghost mut k: int = 0;
    while rest.len() > 0
        invariant
            0 <= k <= input.len(),
            rest@ == input.subrange(k, input.len() as int),
            out@ == stage_map(input.subrange(0, k)),
            forall|v: u128| #[trigger] pos@.contains_key(v) <==> has_stage(out@, StageId { value: v }),
            forall|v: u128| #[trigger] pos@.contains_key(v) ==> pos@[v] < out@.len() && out@[pos@[v] as int].id.value == v,
        decreases rest@.len(),
    {
        let s = rest.remove(0);
        proof {
            assert(s == input[k]);
            assert(input.subrange(0, k + 1).drop_last() =~= input.subrange(0, k));
            assert(input.subrange(0, k + 1).last() == s);
            lemma_stage_map(input.subrange(0, k));
            assert(rest@ =~= input.subrange(k + 1, input.len() as int));
        }
        let ghost before = out@;
        proof {
            assert(StageId { value: s.id.value } == s.id);
            lemma_stage_map(input.subrange(0, k));
        }
        match position_of_value(&pos, s.id.value) {
            Some(p) => {
                proof {
                    let q = position_of(out@, s.id);
                    assert(out@[q].id == s.id);
                    assert(out@[p as int].id == s.id);
                    assert(q == p as int);
                }
                out.set(p, s);
                proof {
                    assert forall|v: u128| #[trigger] pos@.contains_key(v) <==> has_stage(out@, StageId { value: v }) by {
                        if has_stage(out@, StageId { value: v }) {
                            let i = choose|i: int| 0 <= i < out@.len() && (#[trigger] out@[i]).id == StageId { value: v };
                            assert(before[i].id == out@[i].id);
                        }
                        if has_stage(before, StageId { value: v }) {
                            let i = choose|i: int| 0 <= i < before.len() && (#[trigger] before[i]).id == StageId { value: v };
                            assert(before[i].id == out@[i].id);
                        }
                    }
                }
            },
            None => {
                let n = out.len();
                let v0 = s.id.value;
                out.push(s);
                pos.insert(v0, n);
                proof {
                    assert forall|v: u128| #[trigger] pos@.contains_key(v) <==> has_stage(out@, StageId { value: v }) by {
                        if has_stage(out@, StageId { value: v }) {
                            let i = choose|i: int| 0 <= i < out@.len() && (#[trigger] out@[i]).id == StageId { value: v };
                            if i < before.len() {
                                assert(before[i] == out@[i]);
                                assert(has_stage(before, StageId { value: v }));
                            }
                        }
                        if has_stage(before, StageId { value: v }) {
                            let i = choose|i: int| 0 <= i < before.len() && (#[trigger] before[i]).id == StageId { value: v };
                            assert(before[i] == out@[i]);
                        }
                        if v == s.id.value {
                            assert(out@[n as int] == s);
                        }
                    }
                    assert forall|v: u128| #[trigger] pos@.contains_key(v) implies pos@[v] < out@.len() && out@[pos@[v] as int].id.value == v by {
                        if v != s.id.value {
                            assert(out@[pos@[v] as int] == before[pos@[v] as int]);
                        }
                    }
                }
            },
        }
        proof {
            k = k + 1;
        }
    }
    proof {
        assert(input.subrange(0, k) =~= input);
    }
    out
}

// ------------------------------------------------------------ adjacency

/// Some edge goes from `a` to `b`.
pub open spec fn edge_between(edges: Seq<DirectedEdge>, a: StageId, b: StageId) -> bool {
    exists|i: int| 0 <= i < edges.len() && (#[trigger] edges[i]).from == a && edges[i].to == b
}

/// `adj` links exactly the pairs that the edges link.
pub open spec fn links_of(adj: Seq<(StageId, Vec<StageId>)>, edges: Seq<DirectedEdge>) -> bool {
    forall|a: StageId, b: StageId| #[trigger] adj_has(adj, a, b) <==> edge_between(edges, a, b)
}

/// The downstream adjacency of the edges: one entry per edge.
fn edge_adjacency(edges: &[DirectedEdge]) -> (r: Vec<(StageId, Vec<StageId>)>)
    ensures
        links_of(r@, edges@),
{
    let mut r: Vec<(StageId, Vec<StageId>)> = Vec::new();
    let mut i: usize = 0;
    while i < edges.len()
        invariant
            i <= edges@.len(),
            r@.len() == i,
            forall|k: int| 0 <= k < i ==> (#[trigger] r@[k]).0 == edges@[k].from && r@[k].1@ == seq![edges@[k].to],
        decreases edges.len() - i,
    {
        let targets = vec![edges[i].to];
        r.push((edges[i].from, targets));
        i = i + 1;
    }
    proof {
        assert forall|a: StageId, b: StageId| #[trigger] adj_has(r@, a, b) <==> edge_between(edges@, a, b) by {
            if adj_has(r@, a, b) {
                let k = choose|k: int| 0 <= k < r@.len() && (#[trigger] r@[k]).0 == a && r@[k].1@.contains(b);
                assert(r@[k].1@[0] == b);
                assert(edges@[k].from == a && edges@[k].to == b);
            }
            if edge_between(edges@, a, b) {
                let k = choose|k: int| 0 <= k < edges@.len() && (#[trigger] edges@[k]).from == a && edges@[k].to == b;
                assert(r@[k].1@[0] == b);
                assert(r@[k].1@.contains(b));
            }
        }
    }
    r
}

// ------------------------------------------------------------ levels

/// Every edge is allowed between the roles of its endpoints.
pub open spec fn connections_ok(stages: Seq<StageInfo>, edges: Seq<DirectedEdge>) -> bool {
    forall|i: int| 0 <= i < edges.len() ==> edge_allowed(stages, #[trigger] edges[i])
}

/// `e` is the error for the first edge that is not allowed.
pub open spec fn is_connection_error(e: TopologyError, stages: Seq<StageInfo>, edges: Seq<DirectedEdge>) -> bool {
    exists|i: int| 0 <= i < edges.len() && !edge_allowed(stages, #[trigger] edges[i])
        && (forall|j: int| 0 <= j < i ==> edge_allowed(stages, edges[j]))
        && is_rejection(e, stage_named(stages, edges[i].from), stage_named(stages, edges[i].to), edges[i].kind)
}

/// The reachability invariants that full validation demands: those of a
/// complete flow, which an empty topology meets vacuously.
pub open spec fn flow_ok(stages: Seq<StageInfo>, adj: Seq<(StageId, Vec<StageId>)>) -> bool {
    stages.len() == 0 || flow_complete(stages, adj)
}

/// What validation at `level` demands: the structural level includes the
/// composite-boundary rules over the subgraph registry `subs`.
pub open spec fn level_holds(
    stages: Seq<StageInfo>,
    edges: Seq<DirectedEdge>,
    adj: Seq<(StageId, Vec<StageId>)>,
    subs: Seq<TopologySubgraphInfo>,
    level: ValidationLevel,
) -> bool {
    match level {
        ValidationLevel::StructuralOnly => structure_ok(stages, edges) && boundaries_ok(edges, subs),
        ValidationLevel::Semantic => structure_ok(stages, edges) && boundaries_ok(edges, subs)
            && connections_ok(stages, edges),
        ValidationLevel::Full => structure_ok(stages, edges) && boundaries_ok(edges, subs)
            && connections_ok(stages, edges) && flow_ok(stages, adj),
    }
}

/// The error validation reports: the structural one first, then a
/// composite-boundary one, then the first connection that is not allowed,
/// then the reachability one.
pub open spec fn is_level_error(
    e: TopologyError,
    stages: Seq<StageInfo>,
    edges: Seq<DirectedEdge>,
    adj: Seq<(StageId, Vec<StageId>)>,
    subs: Seq<TopologySubgraphInfo>,
) -> bool {
    if !structure_ok(stages, edges) {
        is_structure_error(e, stages, edges)
    } else if !boundaries_ok(edges, subs) {
        is_boundary_error(e, edges, subs)
    } else if !connections_ok(stages, edges) {
        is_connection_error(e, stages, edges)
    } else {
        is_flow_error(e, stages, adj)
    }
}

/// The position of a level: structural checks first, full validation last.
pub open spec fn level_rank(level: ValidationLevel) -> nat {
    match level {
        ValidationLevel::StructuralOnly => 0,
        ValidationLevel::Semantic => 1,
        ValidationLevel::Full => 2,
    }
}

/// Each level demands at least what the level below it does: a topology
/// that passes full validation passes semantic validation, and one that
/// passes semantic validation passes structural validation.
pub proof fn lemma_levels_nested(
    stages: Seq<StageInfo>,
    edges: Seq<DirectedEdge>,
    adj: Seq<(StageId, Vec<StageId>)>,
    subs: Seq<TopologySubgraphInfo>,
)
    ensures
        level_holds(stages, edges, adj, subs, ValidationLevel::Full)
            ==> level_holds(stages, edges, adj, subs, ValidationLevel::Semantic),
        level_holds(stages, edges, adj, subs, ValidationLevel::Semantic)
            ==> level_holds(stages, edges, adj, subs, ValidationLevel::StructuralOnly),
{
}

/// The stage lists agree position by position on id, name and type.
pub open spec fn same_stage_structure(s1: Seq<StageInfo>, s2: Seq<StageInfo>) -> bool {
    &&& s1.len() == s2.len()
    &&& forall|i: int| 0 <= i < s1.len() ==> (#[trigger] s1[i]).id == s2[i].id && s1[i].name@ == s2[i].name@
        && s1[i].stage_type == s2[i].stage_type
}

/// The edge lists agree position by position on endpoints and kind.
pub open spec fn same_edge_structure(e1: Seq<DirectedEdge>, e2: Seq<DirectedEdge>) -> bool {
    &&& e1.len() == e2.len()
    &&& forall|i: int| 0 <= i < e1.len() ==> (#[trigger] e1[i]).from == e2[i].from && e1[i].to == e2[i].to
        && e1[i].kind == e2[i].kind
}

/// The edge lists carry the same composite port bindings, position by
/// position.
pub open spec fn same_bindings(e1: Seq<DirectedEdge>, e2: Seq<DirectedEdge>) -> bool {
    &&& e1.len() == e2.len()
    &&& forall|i: int| 0 <= i < e1.len() ==> (#[trigger] e1[i]).composite_ports@ == e2[i].composite_ports@
}

/// The composite-boundary rules read only the endpoints and the port
/// bindings of the edges.
proof fn lemma_boundaries_same_bindings(e1: Seq<DirectedEdge>, e2: Seq<DirectedEdge>, subs: Seq<TopologySubgraphInfo>)
    requires
        same_edge_structure(e1, e2),
        same_bindings(e1, e2),
    ensures
        boundaries_ok(e1, subs) == boundaries_ok(e2, subs),
{
    assert forall|x: int| #![trigger e1[x]] 0 <= x < e1.len() implies
        (forall|i: int| #[trigger] crate::boundary::crossing(subs[i], e1[x]) == crate::boundary::crossing(subs[i], e2[x]))
        && (forall|i: int| #[trigger] crate::boundary::bound_to(e1[x], subs[i]) == crate::boundary::bound_to(e2[x], subs[i]))
        && (forall|r: CompositePortRef| #[trigger] crate::boundary::ref_fits(subs, e1[x], r) == crate::boundary::ref_fits(subs, e2[x], r)) by {
        assert(e1[x].from == e2[x].from && e1[x].to == e2[x].to);
        assert(e1[x].composite_ports@ == e2[x].composite_ports@);
        assert forall|i: int| #[trigger] crate::boundary::bound_to(e1[x], subs[i]) == crate::boundary::bound_to(e2[x], subs[i]) by {
            if crate::boundary::bound_to(e1[x], subs[i]) {
                let k = choose|k: int| 0 <= k < e1[x].composite_ports@.len() && (#[trigger] e1[x].composite_ports@[k]).subgraph_id@ == subs[i].subgraph_id@;
                assert(e2[x].composite_ports@[k] == e1[x].composite_ports@[k]);
            }
            if crate::boundary::bound_to(e2[x], subs[i]) {
                let k = choose|k: int| 0 <= k < e2[x].composite_ports@.len() && (#[trigger] e2[x].composite_ports@[k]).subgraph_id@ == subs[i].subgraph_id@;
                assert(e2[x].composite_ports@[k] == e1[x].composite_ports@[k]);
            }
        }
    }
    if boundaries_ok(e1, subs) {
        assert forall|x: int, k: int| 0 <= x < e2.len() && 0 <= k < e2[x].composite_ports@.len()
            implies crate::boundary::ref_fits(subs, e2[x], #[trigger] e2[x].composite_ports@[k]) by {
            assert(e2[x].composite_ports@[k] == e1[x].composite_ports@[k]);
            assert(crate::boundary::ref_fits(subs, e1[x], e1[x].composite_ports@[k]));
        }
        assert forall|x: int, i: int| 0 <= x < e2.len() && 0 <= i < subs.len() && subs[i].boundary_ports@.len() > 0
            && #[trigger] crate::boundary::crossing(subs[i], e2[x]) implies crate::boundary::bound_to(e2[x], subs[i]) by {
            assert(crate::boundary::crossing(subs[i], e1[x]));
        }
    }
    if boundaries_ok(e2, subs) {
        assert forall|x: int, k: int| 0 <= x < e1.len() && 0 <= k < e1[x].composite_ports@.len()
            implies crate::boundary::ref_fits(subs, e1[x], #[trigger] e1[x].composite_ports@[k]) by {
            assert(e2[x].composite_ports@[k] == e1[x].composite_ports@[k]);
            assert(crate::boundary::ref_fits(subs, e2[x], e2[x].composite_ports@[k]));
        }
        assert forall|x: int, i: int| 0 <= x < e1.len() && 0 <= i < subs.len() && subs[i].boundary_ports@.len() > 0
            && #[trigger] crate::boundary::crossing(subs[i], e1[x]) implies crate::boundary::bound_to(e1[x], subs[i]) by {
            assert(crate::boundary::crossing(subs[i], e2[x]));
        }
    }
}

/// Validation reads only the structural fields and the composite port
/// bindings: stages that differ only in their annotations (status, role,
/// cycle flag, middleware, join metadata, typing, subgraph) and edges that
/// differ only in theirs (contracts, typing), pass and fail every level
/// alike.
pub proof fn lemma_validation_ignores_annotations(
    s1: Seq<StageInfo>,
    s2: Seq<StageInfo>,
    e1: Seq<DirectedEdge>,
    e2: Seq<DirectedEdge>,
    adj: Seq<(StageId, Vec<StageId>)>,
    subs: Seq<TopologySubgraphInfo>,
    level: ValidationLevel,
)
    requires
        distinct_ids(s1),
        same_stage_structure(s1, s2),
        same_edge_structure(e1, e2),
        same_bindings(e1, e2),
    ensures
        structure_ok(s1, e1) == structure_ok(s2, e2),
        level_holds(s1, e1, adj, subs, level) == level_holds(s2, e2, adj, subs, level),
{
    lemma_boundaries_same_bindings(e1, e2, subs);
    assert forall|id: StageId| #[trigger] has_stage(s1, id) == has_stage(s2, id) by {
        if has_stage(s1, id) {
            let i = choose|i: int| 0 <= i < s1.len() && (#[trigger] s1[i]).id == id;
            assert(s2[i].id == id);
        }
        if has_stage(s2, id) {
            let i = choose|i: int| 0 <= i < s2.len() && (#[trigger] s2[i]).id == id;
            assert(s1[i].id == id);
        }
    }
    assert forall|i: int| 0 <= i < e1.len() implies #[trigger] duplicate_at(e1, i) == duplicate_at(e2, i) by {
        if duplicate_at(e1, i) {
            let j = choose|j: int| 0 <= j < i && (#[trigger] e1[j]).from == e1[i].from && e1[j].to == e1[i].to;
            assert(e2[j].from == e2[i].from && e2[j].to == e2[i].to);
        }
        if duplicate_at(e2, i) {
            let j = choose|j: int| 0 <= j < i && (#[trigger] e2[j]).from == e2[i].from && e2[j].to == e2[i].to;
            assert(e1[j].from == e1[i].from && e1[j].to == e1[i].to);
        }
    }
    assert forall|id: StageId| #[trigger] touches(e1, id) == touches(e2, id) by {
        if touches(e1, id) {
            let i = choose|i: int| 0 <= i < e1.len() && ((#[trigger] e1[i]).from == id || e1[i].to == id);
            assert(e2[i].from == id || e2[i].to == id);
        }
        if touches(e2, id) {
            let i = choose|i: int| 0 <= i < e2.len() && ((#[trigger] e2[i]).from == id || e2[i].to == id);
            assert(e1[i].from == id || e1[i].to == id);
        }
    }
    assert(structure_ok(s1, e1) == structure_ok(s2, e2)) by {
        if structure_ok(s1, e1) {
            assert forall|i: int| 0 <= i < e2.len() implies !edge_fault(s2, e2, i) by {
                assert(!edge_fault(s1, e1, i));
            }
            assert forall|i: int| 0 <= i < e2.len() implies (#[trigger] e2[i]).from != e2[i].to by {
                assert(e1[i].from != e1[i].to);
            }
            assert forall|k: int| 0 <= k < s2.len() implies touches(e2, (#[trigger] s2[k]).id) by {
                assert(touches(e1, s1[k].id));
            }
        }
        if structure_ok(s2, e2) {
            assert forall|i: int| 0 <= i < e1.len() implies !edge_fault(s1, e1, i) by {
                assert(!edge_fault(s2, e2, i));
            }
            assert forall|i: int| 0 <= i < e1.len() implies (#[trigger] e1[i]).from != e1[i].to by {
                assert(e2[i].from != e2[i].to);
            }
            assert forall|k: int| 0 <= k < s1.len() implies touches(e1, (#[trigger] s1[k]).id) by {
                assert(touches(e2, s2[k].id));
            }
        }
    }
    if structure_ok(s1, e1) {
        assert forall|i: int| 0 <= i < e1.len() implies edge_allowed(s1, #[trigger] e1[i]) == edge_allowed(s2, e2[i]) by {
            assert(!edge_fault(s1, e1, i));
            lemma_same_named(s1, s2, e1[i].from);
            lemma_same_named(s1, s2, e1[i].to);
        }
        assert(connections_ok(s1, e1) == connections_ok(s2, e2)) by {
            if connections_ok(s1, e1) {
                assert forall|i: int| 0 <= i < e2.len() implies edge_allowed(s2, #[trigger] e2[i]) by {
                    assert(edge_allowed(s1, e1[i]));
                }
            }
            if connections_ok(s2, e2) {
                assert forall|i: int| 0 <= i < e1.len() implies edge_allowed(s1, #[trigger] e1[i]) by {
                    assert(edge_allowed(s2, e2[i]));
                }
            }
        }
    }
    lemma_flow_same_stages(s1, s2, adj);
}

/// With distinct ids, the stage an id names has the same name and type in
/// both lists.
proof fn lemma_same_named(s1: Seq<StageInfo>, s2: Seq<StageInfo>, id: StageId)
    requires
        distinct_ids(s1),
        same_stage_structure(s1, s2),
        has_stage(s1, id),
    ensures
        stage_named(s1, id).stage_type == stage_named(s2, id).stage_type,
        stage_named(s1, id).name@ == stage_named(s2, id).name@,
{
    let i = choose|i: int| 0 <= i < s1.len() && (#[trigger] s1[i]).id == id;
    assert(s2[i].id == id);
    let j = choose|j: int| 0 <= j < s2.len() && (#[trigger] s2[j]).id == id;
    assert(s1[j].id == id);
    assert(i == j);
    let a = choose|a: int| 0 <= a < s1.len() && (#[trigger] s1[a]).id == id;
    assert(a == i);
}

proof fn lemma_roles_same_stages(s1: Seq<StageInfo>, s2: Seq<StageInfo>, adj: Seq<(StageId, Vec<StageId>)>, v: StageId)
    requires
        same_stage_structure(s1, s2),
    ensures
        reached_by_producer(s1, adj, v) == reached_by_producer(s2, adj, v),
        reaches_consumer(s1, adj, v) == reaches_consumer(s2, adj, v),
{
    reveal(reached_by_producer);
    reveal(reaches_consumer);
    if reached_by_producer(s1, adj, v) {
        let i = choose|i: int| 0 <= i < s1.len() && spec_role((#[trigger] s1[i]).stage_type) == StageRole::Producer
            && reaches(adj, s1[i].id, v);
        assert(spec_role(s2[i].stage_type) == StageRole::Producer && reaches(adj, s2[i].id, v));
    }
    if reached_by_producer(s2, adj, v) {
        let i = choose|i: int| 0 <= i < s2.len() && spec_role((#[trigger] s2[i]).stage_type) == StageRole::Producer
            && reaches(adj, s2[i].id, v);
        assert(spec_role(s1[i].stage_type) == StageRole::Producer && reaches(adj, s1[i].id, v));
    }
    if reaches_consumer(s1, adj, v) {
        let i = choose|i: int| 0 <= i < s1.len() && spec_role((#[trigger] s1[i]).stage_type) == StageRole::Consumer
            && reaches(adj, v, s1[i].id);
        assert(spec_role(s2[i].stage_type) == StageRole::Consumer && reaches(adj, v, s2[i].id));
    }
    if reaches_consumer(s2, adj, v) {
        let i = choose|i: int| 0 <= i < s2.len() && spec_role((#[trigger] s2[i]).stage_type) == StageRole::Consumer
            && reaches(adj, v, s2[i].id);
        assert(spec_role(s1[i].stage_type) == StageRole::Consumer && reaches(adj, v, s1[i].id));
    }
}

/// The flow invariants read the ids and types of the stages only.
proof fn lemma_flow_same_stages(s1: Seq<StageInfo>, s2: Seq<StageInfo>, adj: Seq<(StageId, Vec<StageId>)>)
    requires
        same_stage_structure(s1, s2),
    ensures
        flow_complete(s1, adj) == flow_complete(s2, adj),
{
    assert forall|r: StageRole| #[trigger] has_role(s1, r) == has_role(s2, r) by {
        if has_role(s1, r) {
            let i = choose|i: int| 0 <= i < s1.len() && spec_role((#[trigger] s1[i]).stage_type) == r;
            assert(spec_role(s2[i].stage_type) == r);
        }
        if has_role(s2, r) {
            let i = choose|i: int| 0 <= i < s2.len() && spec_role((#[trigger] s2[i]).stage_type) == r;
            assert(spec_role(s1[i].stage_type) == r);
        }
    }
    if flow_complete(s1, adj) {
        assert forall|k: int| 0 <= k < s2.len() implies reached_by_producer(s2, adj, (#[trigger] s2[k]).id)
            && reaches_consumer(s2, adj, s2[k].id) by {
            lemma_roles_same_stages(s1, s2, adj, s2[k].id);
            assert(reached_by_producer(s1, adj, s1[k].id));
            assert(reaches_consumer(s1, adj, s1[k].id));
        }
    }
    if flow_complete(s2, adj) {
        assert forall|k: int| 0 <= k < s1.len() implies reached_by_producer(s1, adj, (#[trigger] s1[k]).id)
            && reaches_consumer(s1, adj, s1[k].id) by {
            lemma_roles_same_stages(s1, s2, adj, s1[k].id);
            assert(reached_by_producer(s2, adj, s2[k].id));
            assert(reaches_consumer(s2, adj, s2[k].id));
        }
    }
}

// ------------------------------------------------------------ topology

/// Complete topology: a map of stages by id, the edges between them, and
/// the strongly connected components that are cycles (`scc_id` indexes
/// them in increasing order of their least stage id). An optional flow
/// name and a registry of logical subgraphs ride along as annotations.
#[derive(Debug)]
pub struct Topology {
    stages: Vec<StageInfo>,
    edges: Vec<DirectedEdge>,
    downstream: Vec<(StageId, Vec<StageId>)>,
    scc_members: Vec<Vec<StageId>>,
    flow_name: Option<String>,
    subgraphs: Vec<TopologySubgraphInfo>,
    positions: HashMap<u128, usize>,
    links: HashSet<u128>,
    down_index: HashMap<u128, Vec<StageId>>,
    up_index: HashMap<u128, Vec<StageId>>,
}

/// `pm` holds, for the value of each stage id, the position of that stage.
#[verifier::opaque]
pub open spec fn positions_of(pm: Map<u128, usize>, stages: Seq<StageInfo>) -> bool {
    &&& forall|v: u128| #[trigger] pm.contains_key(v) <==> has_stage(stages, StageId { value: v })
    &&& forall|v: u128| #[trigger] pm.contains_key(v) ==> pm[v] < stages.len() && stages[pm[v] as int].id.value == v
}

/// `ks` holds exactly the pair keys of the edges.
#[verifier::opaque]
pub open spec fn links_keyed(ks: Set<u128>, pm: Map<u128, usize>, edges: Seq<DirectedEdge>) -> bool {
    forall|k: u128| #[trigger] ks.contains(k) <==> exists|j: int| 0 <= j < edges.len() && k == #[trigger] pair_key(pm, edges[j])
}

/// `dm` and `um` keep, for each stage id value, the downstream and the
/// upstream ends of its edges, in edge order.
#[verifier::opaque]
pub open spec fn neighbours_indexed(dm: Map<u128, Vec<StageId>>, um: Map<u128, Vec<StageId>>, edges: Seq<DirectedEdge>) -> bool {
    &&& forall|v: u128| #[trigger] neighbours_at(dm, v) == targets_of(edges, StageId { value: v }, true)
    &&& forall|v: u128| #[trigger] neighbours_at(um, v) == targets_of(edges, StageId { value: v }, false)
}

/// The cycle components of the stages along the edges number at most
/// 2^32, so that every SCC index fits in a `u32`.
pub open spec fn sccs_fit(stages: Seq<StageInfo>, edges: Seq<DirectedEdge>) -> bool {
    forall|adj: Seq<(StageId, Vec<StageId>)>, r: Seq<Vec<StageId>>|
        #[trigger] links_of(adj, edges) && #[trigger] cycle_components(stage_ids(stages), adj, r)
            ==> r.len() <= 0x1_0000_0000
}

/// The error construction reports: the structural one, else the overflow
/// of the first SCC index that does not fit in a `u32`.
pub open spec fn is_construction_error(e: TopologyError, stages: Seq<StageInfo>, edges: Seq<DirectedEdge>) -> bool {
    if !structure_ok(stages, edges) {
        is_structure_error(e, stages, edges)
    } else {
        e matches TopologyError::SccIndexOverflow { index } && index == 0x1_0000_0000
    }
}

/// What full construction accepts: the stage map passes the structural
/// checks, the edges carry no composite-port binding (the registry is empty),
/// every connection is allowed, and the flow invariants hold along the
/// edges.
pub open spec fn new_accepts(stages: Seq<StageInfo>, edges: Seq<DirectedEdge>) -> bool {
    &&& structure_ok(stage_map(stages), edges)
    &&& sccs_fit(stage_map(stages), edges)
    &&& boundaries_ok(edges, Seq::<TopologySubgraphInfo>::empty())
    &&& connections_ok(stage_map(stages), edges)
    &&& forall|adj: Seq<(StageId, Vec<StageId>)>| links_of(adj, edges) ==> flow_ok(stage_map(stages), adj)
}

impl Topology {
    /// The stages, one per id.
    pub closed spec fn stage_list(&self) -> Seq<StageInfo> {
        self.stages@
    }

    /// The edges, as given.
    pub closed spec fn edge_list(&self) -> Seq<DirectedEdge> {
        self.edges@
    }

    /// The downstream adjacency of the edges.
    pub closed spec fn adjacency(&self) -> Seq<(StageId, Vec<StageId>)> {
        self.downstream@
    }

    /// The cycle components, indexed by SCC id.
    pub closed spec fn scc_list(&self) -> Seq<Vec<StageId>> {
        self.scc_members@
    }

    /// The explicit flow name annotation, if one was set.
    pub closed spec fn flow_label(&self) -> Option<Seq<char>> {
        match self.flow_name {
            Some(n) => Some(n@),
            None => None,
        }
    }

    /// The registry of logical subgraphs.
    pub closed spec fn subgraph_list(&self) -> Seq<TopologySubgraphInfo> {
        self.subgraphs@
    }

    /// The position of each stage, keyed by the value of its id.
    pub closed spec fn position_map(&self) -> Map<u128, usize> {
        self.positions@
    }

    /// The pair keys of the edges (see `pair_key`).
    pub closed spec fn link_set(&self) -> Set<u128> {
        self.links@
    }

    /// The downstream lists, keyed by the value of the stage id.
    pub closed spec fn down_map(&self) -> Map<u128, Vec<StageId>> {
        self.down_index@
    }

    /// The upstream lists, keyed by the value of the stage id.
    pub closed spec fn up_map(&self) -> Map<u128, Vec<StageId>> {
        self.up_index@
    }

    /// Well-formedness: the stages form a map by id, the structural rules
    /// hold, the adjacency is that of the edges, and the SCC list holds the
    /// cycle components in increasing order of their least id.
    pub open spec fn wf(&self) -> bool {
        &&& distinct_ids(self.stage_list())
        &&& self.stage_list().len() <= usize::MAX
        &&& positions_of(self.position_map(), self.stage_list())
        &&& links_keyed(self.link_set(), self.position_map(), self.edge_list())
        &&& neighbours_indexed(self.down_map(), self.up_map(), self.edge_list())
        &&& self.scc_list().len() <= 0x1_0000_0000
        &&& self.edge_list().len() <= usize::MAX
        &&& structure_ok(self.stage_list(), self.edge_list())
        &&& links_of(self.adjacency(), self.edge_list())
        &&& cycle_components(stage_ids(self.stage_list()), self.adjacency(), self.scc_list())
        &&& self.scc_list().len() <= self.stage_list().len()
    }

    /// Every topology value is well-formed: the constructors establish it,
    /// and nothing changes a topology in place.
    #[verifier::type_invariant]
    spec fn inv(self) -> bool {
        self.wf()
    }

    /// Construct a topology with structural validation only.
    ///
    /// "Unvalidated" means: not semantically or reachability validated.
    /// Structural invariants (valid endpoints, no duplicates, no
    /// self-cycles, no isolated stages) still hold, so the other operations
    /// can rely on a consistent graph.
    pub fn new_unvalidated(stages: Vec<StageInfo>, edges: Vec<DirectedEdge>) -> (r: ValidationResult<Topology>)
        ensures
            r is Ok <==> structure_ok(stage_map(stages@), edges@) && sccs_fit(stage_map(stages@), edges@),
            r matches Err(e) ==> is_construction_error(e, stage_map(stages@), edges@),
            r matches Ok(t) ==> t.wf() && t.stage_list() == stage_map(stages@) && t.edge_list() == edges@
                && t.flow_label() is None && t.subgraph_list().len() == 0,
    {
        let ghost input = stages@;
        proof {
            lemma_stage_map(input);
        }
        let stage_list = insert_stages(stages);
        match validate_edges_and_structure(stage_list.as_slice(), edges.as_slice()) {
            Ok(()) => {},
            Err(e) => {
                return Err(e);
            },
        }
        let downstream = edge_adjacency(edges.as_slice());
        let ids = ids_of(stage_list.as_slice());
        let scc_members = compute_sccs(ids.as_slice(), downstream.as_slice());
        let ghost m = stage_list@;
        if scc_members.len() as u64 > 0x1_0000_0000u64 {
            proof {
                assert(links_of(downstream@, edges@));
                assert(!sccs_fit(m, edges@));
            }
            return Err(TopologyError::SccIndexOverflow { index: (u32::MAX as usize) + 1 });
        }
        proof {
            assert forall|adj: Seq<(StageId, Vec<StageId>)>, r: Seq<Vec<StageId>>|
                #[trigger] links_of(adj, edges@) && #[trigger] cycle_components(stage_ids(m), adj, r)
                implies r.len() <= 0x1_0000_0000 by {
                lemma_component_count_unique(stage_ids(m), downstream@, scc_members@, adj, r);
            }
            lemma_scc_count(stage_list@, edges@, downstream@, scc_members@);
            assert(edges@.len() == edges.len());
            assert(stage_list@.len() == stage_list.len());
            assert(scc_members@.len() == scc_members.len());
        }
        let positions = position_index(stage_list.as_slice());
        proof {
            assert forall|j: int| 0 <= j < edges@.len() implies positions@.contains_key((#[trigger] edges@[j]).from.value)
                && positions@.contains_key(edges@[j].to.value) by {
                assert(!edge_fault(stage_list@, edges@, j));
                assert(StageId { value: edges@[j].from.value } == edges@[j].from);
                assert(StageId { value: edges@[j].to.value } == edges@[j].to);
            }
        }
        let links = link_keys(&positions, edges.as_slice());
        let down_index = neighbour_index(edges.as_slice(), true);
        let up_index = neighbour_index(edges.as_slice(), false);
        proof {
            reveal(positions_of);
            reveal(links_keyed);
            reveal(neighbours_indexed);
        }
        let t = Topology {
            stages: stage_list,
            edges,
            downstream,
            scc_members,
            flow_name: None,
            subgraphs: Vec::new(),
            positions,
            links,
            down_index,
            up_index,
        };
        Ok(t)
    }

    /// Construct and fully validate a topology (structure, connection
    /// semantics, reachability).
    pub fn new(stages: Vec<StageInfo>, edges: Vec<DirectedEdge>) -> (r: Result<Topology, TopologyError>)
        ensures
            r is Ok <==> new_accepts(stages@, edges@),
            r matches Ok(t) ==> t.wf() && t.stage_list() == stage_map(stages@) && t.edge_list() == edges@
                && t.flow_label() is None && t.subgraph_list().len() == 0,
            r matches Err(e) ==> if structure_ok(stage_map(stages@), edges@) && !sccs_fit(stage_map(stages@), edges@) {
                is_construction_error(e, stage_map(stages@), edges@)
            } else {
                forall|adj: Seq<(StageId, Vec<StageId>)>| links_of(adj, edges@)
                    ==> is_level_error(e, stage_map(stages@), edges@, adj, Seq::<TopologySubgraphInfo>::empty())
            },
    {
        let ghost m = stage_map(stages@);
        let ghost ev = edges@;
        let topo = match Topology::new_unvalidated(stages, edges) {
            Ok(t) => t,
            Err(e) => {
                return Err(e);
            },
        };
        proof {
            assert(topo.subgraph_list() =~= Seq::<TopologySubgraphInfo>::empty());
        }
        let res = topo.validate_with_level(ValidationLevel::Full);
        proof {
            assert forall|adj: Seq<(StageId, Vec<StageId>)>| links_of(adj, ev) implies
                flow_ok(m, adj) == flow_ok(m, topo.adjacency())
                && forall|e: TopologyError| is_flow_error(e, m, adj) == is_flow_error(e, m, topo.adjacency()) by {
                lemma_flow_same_links(m, adj, topo.adjacency());
            }
        }
        match res {
            Ok(()) => Ok(topo),
            Err(e) => Err(e),
        }
    }

    /// Validate this topology at the requested level.
    pub fn validate_with_level(&self, level: ValidationLevel) -> (r: Result<(), TopologyError>)
        ensures
            r is Ok <==> level_holds(self.stage_list(), self.edge_list(), self.adjacency(), self.subgraph_list(), level),
            r matches Err(e) ==> is_level_error(e, self.stage_list(), self.edge_list(), self.adjacency(), self.subgraph_list()),
    {
        proof {
            use_type_invariant(self);
        }
        match self.check_structure() {
            Ok(()) => {},
            Err(e) => {
                return Err(e);
            },
        }
        match self.validate_composite_boundaries() {
            Ok(()) => {},
            Err(e) => {
                return Err(e);
            },
        }
        match level {
            ValidationLevel::StructuralOnly => Ok(()),
            ValidationLevel::Semantic => self.check_connections(),
            ValidationLevel::Full => {
                match self.check_connections() {
                    Ok(()) => {},
                    Err(e) => {
                        return Err(e);
                    },
                }
                self.check_flow()
            },
        }
    }

    /// Validate the composite boundaries: every edge crossing a composite
    /// that declares ports carries a binding to it, every binding names a
    /// declared port the edge crosses (in the port's direction, at its
    /// member stage), and no payload type has two owners of one direction.
    pub fn validate_composite_boundaries(&self) -> (r: Result<(), TopologyError>)
        ensures
            r is Ok <==> boundaries_ok(self.edge_list(), self.subgraph_list()),
            r matches Err(e) ==> is_boundary_error(e, self.edge_list(), self.subgraph_list()),
    {
        proof {
            use_type_invariant(self);
        }
        validate_boundaries(self.edges.as_slice(), self.subgraphs.as_slice())
    }

    fn check_structure(&self) -> (r: Result<(), TopologyError>)
        requires
            self.wf(),
        ensures
            r is Ok,
    {
        validate_edges_and_structure(self.stages.as_slice(), self.edges.as_slice())
    }

    fn check_connections(&self) -> (r: Result<(), TopologyError>)
        requires
            self.wf(),
        ensures
            r is Ok <==> connections_ok(self.stage_list(), self.edge_list()),
            r matches Err(e) ==> is_connection_error(e, self.stage_list(), self.edge_list()),
    {
        proof {
            lemma_endpoints_known(self.stage_list(), self.edge_list());
        }
        validate_all_connections(self.stages.as_slice(), self.edges.as_slice())
    }

    fn check_flow(&self) -> (r: Result<(), TopologyError>)
        requires
            self.wf(),
        ensures
            r is Ok <==> flow_ok(self.stage_list(), self.adjacency()),
            r matches Err(e) ==> is_flow_error(e, self.stage_list(), self.adjacency()),
    {
        if self.stages.len() == 0 {
            return Ok(());
        }
        validate_topology_structure(self.stages.as_slice(), self.downstream.as_slice())
    }

    /// Run full validation.
    pub fn validate_semantics(&self) -> (r: Result<(), TopologyError>)
        ensures
            r is Ok <==> level_holds(self.stage_list(), self.edge_list(), self.adjacency(), self.subgraph_list(), ValidationLevel::Full),
            r matches Err(e) ==> is_level_error(e, self.stage_list(), self.edge_list(), self.adjacency(), self.subgraph_list()),
    {
        proof {
            use_type_invariant(self);
        }
        self.validate_with_level(ValidationLevel::Full)
    }
}

/// Sound structure means every edge names known stages.
proof fn lemma_endpoints_known(stages: Seq<StageInfo>, edges: Seq<DirectedEdge>)
    requires
        structure_ok(stages, edges),
    ensures
        crate::validation::endpoints_known(stages, edges),
{
    assert forall|i: int| 0 <= i < edges.len() implies has_stage(stages, (#[trigger] edges[i]).from) && has_stage(stages, edges[i].to) by {
        assert(!crate::validation::edge_fault(stages, edges, i));
    }
}

/// Members of the cycle components are stages, and the components are
/// disjoint, so there are no more of them than stages.
proof fn lemma_scc_count(stages: Seq<StageInfo>, edges: Seq<DirectedEdge>, adj: Seq<(StageId, Vec<StageId>)>, r: Seq<Vec<StageId>>)
    requires
        distinct_ids(stages),
        structure_ok(stages, edges),
        forall|a: StageId, b: StageId| #[trigger] adj_has(adj, a, b) <==> edge_between(edges, a, b),
        cycle_components(stage_ids(stages), adj, r),
    ensures
        r.len() <= stages.len(),
{
    reveal(cycle_components);
    let ids = stage_ids(stages);
    let firsts = Seq::new(r.len(), |k: int| r[k]@[0]);
    assert forall|k: int| 0 <= k < firsts.len() implies ids.contains(#[trigger] firsts[k]) by {
        let x = r[k]@[0];
        assert(r[k]@.contains(x));
        assert(reached_from_stages(ids, adj, x));
        let i = choose|i: int| 0 <= i < ids.len() && reaches(adj, #[trigger] ids[i], x);
        if ids[i] != x {
            lemma_reaches_ends(adj, ids[i], x);
            let w = choose|w: StageId| #[trigger] adj_has(adj, w, x);
            let e = choose|e: int| 0 <= e < edges.len() && (#[trigger] edges[e]).from == w && edges[e].to == x;
            assert(!crate::validation::edge_fault(stages, edges, e));
            let c = choose|c: int| 0 <= c < stages.len() && (#[trigger] stages[c]).id == x;
            assert(ids[c] == x);
        }
    }
    assert(firsts.no_duplicates()) by {
        assert forall|a: int, b: int| 0 <= a < firsts.len() && 0 <= b < firsts.len() && a != b implies firsts[a] != firsts[b] by {
            assert(r[a]@.contains(firsts[a]));
            assert(r[b]@.contains(firsts[b]));
        }
    }
    firsts.unique_seq_to_set();
    ids.lemma_cardinality_of_set();
    assert(firsts.to_set().subset_of(ids.to_set()));
    vstd::set_lib::lemma_len_subset(firsts.to_set(), ids.to_set());
}

// ------------------------------------------------------------ queries

/// Some edge ends at `id`.
pub open spec fn has_upstream(edges: Seq<DirectedEdge>, id: StageId) -> bool {
    exists|i: int| 0 <= i < edges.len() && (#[trigger] edges[i]).to == id
}

/// Some edge starts at `id`.
pub open spec fn has_downstream(edges: Seq<DirectedEdge>, id: StageId) -> bool {
    exists|i: int| 0 <= i < edges.len() && (#[trigger] edges[i]).from == id
}

/// The stages no edge enters, in stage order.
pub open spec fn source_ids(stages: Seq<StageInfo>, edges: Seq<DirectedEdge>) -> Seq<StageId> {
    keep_ids(stage_ids(stages), |id: StageId| !has_upstream(edges, id))
}

/// The stages no edge leaves, in stage order.
pub open spec fn sink_ids(stages: Seq<StageInfo>, edges: Seq<DirectedEdge>) -> Seq<StageId> {
    keep_ids(stage_ids(stages), |id: StageId| !has_downstream(edges, id))
}

/// The stages whose type has `role`, in stage order.
pub open spec fn role_ids(stages: Seq<StageInfo>, role: StageRole) -> Seq<StageId> {
    keep_ids(stage_ids(stages), |id: StageId| spec_role(stage_named(stages, id).stage_type) == role)
}

/// The flow name derived from the structure: `<source>_flow` for a single
/// structural source, `multi_source_flow` otherwise.
pub open spec fn derived_flow_name(stages: Seq<StageInfo>, edges: Seq<DirectedEdge>) -> Seq<char> {
    if source_ids(stages, edges).len() == 1 {
        stage_named(stages, source_ids(stages, edges)[0]).name@ + "_flow"@
    } else {
        "multi_source_flow"@
    }
}

/// The name of the only stage of `ids`, or `fallback` when there is not
/// exactly one.
pub open spec fn single_name(stages: Seq<StageInfo>, ids: Seq<StageId>, fallback: Seq<char>) -> Seq<char> {
    if ids.len() == 1 {
        stage_named(stages, ids[0]).name@
    } else {
        fallback
    }
}

/// The id values that edges end at (`incoming`) or start at.
fn end_values(edges: &[DirectedEdge], incoming: bool) -> (s: HashSet<u128>)
    ensures
        forall|v: u128| #[trigger] s@.contains(v) <==> (if incoming {
            has_upstream(edges@, StageId { value: v })
        } else {
            has_downstream(edges@, StageId { value: v })
        }),
{
    let mut s: HashSet<u128> = HashSet::new();
    let mut i: usize = 0;
    while i < edges.len()
        invariant
            i <= edges@.len(),
            forall|v: u128| #[trigger] s@.contains(v) <==> exists|j: int| 0 <= j < i
                && (if incoming { (#[trigger] edges@[j]).to.value == v } else { edges@[j].from.value == v }),
        decreases edges.len() - i,
    {
        if incoming {
            s.insert(edges[i].to.value);
        } else {
            s.insert(edges[i].from.value);
        }
        i = i + 1;
    }
    proof {
        assert forall|v: u128| #[trigger] s@.contains(v) <==> (if incoming {
            has_upstream(edges@, StageId { value: v })
        } else {
            has_downstream(edges@, StageId { value: v })
        }) by {
            if s@.contains(v) {
                let j = choose|j: int| 0 <= j < i
                    && (if incoming { (#[trigger] edges@[j]).to.value == v } else { edges@[j].from.value == v });
                assert(edges@[j].to == StageId { value: edges@[j].to.value });
                assert(edges@[j].from == StageId { value: edges@[j].from.value });
            }
            if incoming && has_upstream(edges@, StageId { value: v }) {
                let j = choose|j: int| 0 <= j < edges@.len() && (#[trigger] edges@[j]).to == StageId { value: v };
                assert(edges@[j].to.value == v);
            }
            if !incoming && has_downstream(edges@, StageId { value: v }) {
                let j = choose|j: int| 0 <= j < edges@.len() && (#[trigger] edges@[j]).from == StageId { value: v };
                assert(edges@[j].from.value == v);
            }
        }
    }
    s
}

/// The stages of `stages` from position `start` on whose id satisfies
/// `has_upstream`/`has_downstream`, as chosen by `incoming`.
fn stages_without_edges(stages: &[StageInfo], edges: &[DirectedEdge], incoming: bool) -> (r: Vec<StageId>)
    ensures
        incoming ==> r@ == keep_ids(stage_ids(stages@), |id: StageId| !has_upstream(edges@, id)),
        !incoming ==> r@ == keep_ids(stage_ids(stages@), |id: StageId| !has_downstream(edges@, id)),
{
    let ghost p = if incoming {
        |id: StageId| !has_upstream(edges@, id)
    } else {
        |id: StageId| !has_downstream(edges@, id)
    };
    let ends = end_values(edges, incoming);
    let mut r: Vec<StageId> = Vec::new();
    let mut k: usize = 0;
    while k < stages.len()
        invariant
            k <= stages@.len(),
            forall|v: u128| #[trigger] ends@.contains(v) <==> (if incoming {
                has_upstream(edges@, StageId { value: v })
            } else {
                has_downstream(edges@, StageId { value: v })
            }),
            p == (if incoming {
                |id: StageId| !has_upstream(edges@, id)
            } else {
                |id: StageId| !has_downstream(edges@, id)
            }),
            r@ == keep_ids(stage_ids(stages@).subrange(0, k as int), p),
        decreases stages.len() - k,
    {
        proof {
            lemma_keep_ids_step(stage_ids(stages@), p, k as int);
        }
        let id = stages[k].id;
        proof {
            assert(StageId { value: id.value } == id);
        }
        let found = holds_value(&ends, id.value);
        if !found {
            r.push(id);
        }
        k = k + 1;
    }
    proof {
        assert(stage_ids(stages@).subrange(0, stages@.len() as int) =~= stage_ids(stages@));
    }
    r
}

/// The stages whose type has `role`, in stage order.
fn stages_with_role(stages: &[StageInfo], role: StageRole) -> (r: Vec<StageId>)
    requires
        distinct_ids(stages@),
    ensures
        r@ == role_ids(stages@, role),
{
    let ghost p = |id: StageId| spec_role(stage_named(stages@, id).stage_type) == role;
    let mut r: Vec<StageId> = Vec::new();
    let mut k: usize = 0;
    while k < stages.len()
        invariant
            k <= stages@.len(),
            distinct_ids(stages@),
            p == (|id: StageId| spec_role(stage_named(stages@, id).stage_type) == role),
            r@ == keep_ids(stage_ids(stages@).subrange(0, k as int), p),
        decreases stages.len() - k,
    {
        proof {
            lemma_keep_ids_step(stage_ids(stages@), p, k as int);
            lemma_stage_named(stages@, k as int);
        }
        if stages[k].stage_type.role() == role {
            r.push(stages[k].id);
        }
        k = k + 1;
    }
    proof {
        assert(stage_ids(stages@).subrange(0, stages@.len() as int) =~= stage_ids(stages@));
    }
    r
}

impl Topology {
    /// The stages with an edge into `stage`, in the order of those edges:
    /// a lookup in the upstream index.
    pub fn upstream_stages(&self, stage: StageId) -> (r: Vec<StageId>)
        ensures
            r@ == targets_of(self.edge_list(), stage, false),
            r@.no_duplicates(),
            forall|x: StageId| r@.contains(x) <==> edge_between(self.edge_list(), x, stage),
    {
        proof {
            use_type_invariant(self);
            reveal(neighbours_indexed);
            assert(StageId { value: stage.value } == stage);
            let ev = self.edges@;
            assert forall|j: int| 0 <= j < ev.len() implies !crate::validation::duplicate_at(ev, j) by {
                assert(!edge_fault(self.stages@, ev, j));
            }
            lemma_targets_of(ev, stage, false);
        }
        neighbours_of(&self.up_index, stage.value)
    }

    /// The stages that `stage` has an edge to, in the order of those
    /// edges: a lookup in the downstream index.
    pub fn downstream_stages(&self, stage: StageId) -> (r: Vec<StageId>)
        ensures
            r@ == targets_of(self.edge_list(), stage, true),
            r@.no_duplicates(),
            forall|x: StageId| r@.contains(x) <==> edge_between(self.edge_list(), stage, x),
    {
        proof {
            use_type_invariant(self);
            reveal(neighbours_indexed);
            assert(StageId { value: stage.value } == stage);
            let ev = self.edges@;
            assert forall|j: int| 0 <= j < ev.len() implies !crate::validation::duplicate_at(ev, j) by {
                assert(!edge_fault(self.stages@, ev, j));
            }
            lemma_targets_of(ev, stage, true);
        }
        neighbours_of(&self.down_index, stage.value)
    }

    /// The name of the stage with this id.
    pub fn stage_name(&self, stage: StageId) -> (r: Option<&str>)
        ensures
            match r {
                Some(n) => has_stage(self.stage_list(), stage) && n@ == stage_named(self.stage_list(), stage).name@,
                None => !has_stage(self.stage_list(), stage),
            },
    {
        proof {
            use_type_invariant(self);
        }
        match self.locate(stage) {
            Some(k) => {
                proof {
                    lemma_named_at(self.stages@, k as int);
                }
                Some(self.stages[k].name.as_str())
            },
            None => None,
        }
    }

    /// The stage with this id.
    pub fn stage_info(&self, stage: StageId) -> (r: Option<&StageInfo>)
        ensures
            match r {
                Some(info) => has_stage(self.stage_list(), stage) && *info == stage_named(self.stage_list(), stage),
                None => !has_stage(self.stage_list(), stage),
            },
    {
        proof {
            use_type_invariant(self);
        }
        match self.locate(stage) {
            Some(k) => {
                proof {
                    lemma_named_at(self.stages@, k as int);
                }
                Some(&self.stages[k])
            },
            None => None,
        }
    }

    /// All stages, one per id.
    pub fn stages(&self) -> (r: &[StageInfo])
        ensures
            r@ == self.stage_list(),
    {
        self.stages.as_slice()
    }

    /// All edges.
    pub fn edges(&self) -> (r: &[DirectedEdge])
        ensures
            r@ == self.edge_list(),
    {
        self.edges.as_slice()
    }

    /// Whether the topology has no stage.
    pub fn is_empty(&self) -> (r: bool)
        ensures
            r == (self.stage_list().len() == 0),
    {
        self.stages.len() == 0
    }

    /// The number of stages.
    pub fn num_stages(&self) -> (r: usize)
        ensures
            r == self.stage_list().len(),
    {
        self.stages.len()
    }

    /// Structural sources: the stages no edge enters, in stage order.
    pub fn source_stages(&self) -> (r: Vec<StageId>)
        ensures
            r@ == source_ids(self.stage_list(), self.edge_list()),
    {
        stages_without_edges(self.stages.as_slice(), self.edges.as_slice(), true)
    }

    /// Structural sinks: the stages no edge leaves, in stage order.
    pub fn sink_stages(&self) -> (r: Vec<StageId>)
        ensures
            r@ == sink_ids(self.stage_list(), self.edge_list()),
    {
        stages_without_edges(self.stages.as_slice(), self.edges.as_slice(), false)
    }

    /// Semantic sources: the stages whose type has the Producer role.
    pub fn semantic_source_stages(&self) -> (r: Vec<StageId>)
        ensures
            r@ == role_ids(self.stage_list(), StageRole::Producer),
    {
        proof {
            use_type_invariant(self);
        }
        stages_with_role(self.stages.as_slice(), StageRole::Producer)
    }

    /// Semantic sinks: the stages whose type has the Consumer role.
    pub fn semantic_sink_stages(&self) -> (r: Vec<StageId>)
        ensures
            r@ == role_ids(self.stage_list(), StageRole::Consumer),
    {
        proof {
            use_type_invariant(self);
        }
        stages_with_role(self.stages.as_slice(), StageRole::Consumer)
    }

    /// The flow name: the explicit annotation when one is set; otherwise
    /// `<source>_flow` for a single structural source, `multi_source_flow`
    /// when there is not exactly one.
    pub fn flow_name(&self) -> (r: String)
        ensures
            r@ == match self.flow_label() {
                Some(label) => label,
                None => derived_flow_name(self.stage_list(), self.edge_list()),
            },
    {
        proof {
            use_type_invariant(self);
        }
        if let Some(label) = &self.flow_name {
            return label.clone();
        }
        let sources = self.source_stages();
        if sources.len() == 1 {
            proof {
                lemma_listed_is_stage(self.stages@, |id: StageId| !has_upstream(self.edges@, id), sources@[0]);
            }
            let k = self.position(sources[0]);
            let mut name = self.stages[k].name.clone();
            name.append("_flow");
            return name;
        }
        String::from_str("multi_source_flow")
    }

    /// The topology with an explicit flow name.
    pub fn with_flow_name(self, name: &str) -> (r: Topology)
        ensures
            r.flow_label() == Some(name@),
            r.stage_list() == self.stage_list(),
            r.edge_list() == self.edge_list(),
            r.adjacency() == self.adjacency(),
            r.scc_list() == self.scc_list(),
            r.subgraph_list() == self.subgraph_list(),
            r.wf(),
    {
        proof {
            use_type_invariant(&self);
        }
        Topology { flow_name: Some(String::from_str(name)), ..self }
    }

    /// The topology with this registry of logical subgraphs.
    pub fn with_subgraphs(self, subgraphs: Vec<TopologySubgraphInfo>) -> (r: Topology)
        ensures
            r.subgraph_list() == subgraphs@,
            r.flow_label() == self.flow_label(),
            r.stage_list() == self.stage_list(),
            r.edge_list() == self.edge_list(),
            r.adjacency() == self.adjacency(),
            r.scc_list() == self.scc_list(),
            r.wf(),
    {
        proof {
            use_type_invariant(&self);
        }
        Topology { subgraphs, ..self }
    }

    /// The explicit flow name annotation, if one was set.
    pub fn flow_name_label(&self) -> (r: Option<&str>)
        ensures
            match r {
                Some(n) => self.flow_label() == Some(n@),
                None => self.flow_label() is None,
            },
    {
        match &self.flow_name {
            Some(n) => Some(n.as_str()),
            None => None,
        }
    }

    /// The registry of logical subgraphs.
    pub fn subgraphs(&self) -> (r: &[TopologySubgraphInfo])
        ensures
            r@ == self.subgraph_list(),
    {
        self.subgraphs.as_slice()
    }

    /// The name of the single structural source, or `unknown_source`.
    pub fn source_stage_name(&self) -> (r: String)
        ensures
            r@ == single_name(self.stage_list(), source_ids(self.stage_list(), self.edge_list()), "unknown_source"@),
    {
        proof {
            use_type_invariant(self);
        }
        let sources = self.source_stages();
        if sources.len() == 1 {
            proof {
                lemma_listed_is_stage(self.stages@, |id: StageId| !has_upstream(self.edges@, id), sources@[0]);
            }
            let k = self.position(sources[0]);
            return self.stages[k].name.clone();
        }
        String::from_str("unknown_source")
    }

    /// The name of the single structural sink, or `unknown_sink`.
    pub fn sink_stage_name(&self) -> (r: String)
        ensures
            r@ == single_name(self.stage_list(), sink_ids(self.stage_list(), self.edge_list()), "unknown_sink"@),
    {
        proof {
            use_type_invariant(self);
        }
        let sinks = self.sink_stages();
        if sinks.len() == 1 {
            proof {
                lemma_listed_is_stage(self.stages@, |id: StageId| !has_downstream(self.edges@, id), sinks@[0]);
            }
            let k = self.position(sinks[0]);
            return self.stages[k].name.clone();
        }
        String::from_str("unknown_sink")
    }

    /// Position of a stage id taken from `stage_ids`.
    fn position(&self, id: StageId) -> (k: usize)
        requires
            self.wf(),
            stage_ids(self.stage_list()).contains(id),
        ensures
            k < self.stage_list().len(),
            self.stage_list()[k as int] == stage_named(self.stage_list(), id),
            self.stage_list()[k as int].id == id,
    {
        proof {
            let c = choose|c: int| 0 <= c < stage_ids(self.stages@).len() && stage_ids(self.stages@)[c] == id;
            assert(self.stages@[c].id == id);
        }
        match self.locate(id) {
            Some(k) => {
                proof {
                    lemma_named_at(self.stages@, k as int);
                }
                k
            },
            None => {
                proof {
                    assert(false);
                }
                0
            },
        }
    }

    /// Whether some edge goes from `from` to `to`: a lookup of the pair's
    /// key in the link index.
    pub fn has_edge(&self, from: StageId, to: StageId) -> (r: bool)
        ensures
            r == edge_between(self.edge_list(), from, to),
    {
        proof {
            use_type_invariant(self);
            reveal(positions_of);
            reveal(links_keyed);
        }
        let ghost ev = self.edges@;
        let ghost pm = self.positions@;
        let a = match self.locate(from) {
            Some(a) => a,
            None => {
                proof {
                    if edge_between(ev, from, to) {
                        let j = choose|j: int| 0 <= j < ev.len() && (#[trigger] ev[j]).from == from && ev[j].to == to;
                        assert(!edge_fault(self.stages@, ev, j));
                    }
                }
                return false;
            },
        };
        let b = match self.locate(to) {
            Some(b) => b,
            None => {
                proof {
                    if edge_between(ev, from, to) {
                        let j = choose|j: int| 0 <= j < ev.len() && (#[trigger] ev[j]).from == from && ev[j].to == to;
                        assert(!edge_fault(self.stages@, ev, j));
                    }
                }
                return false;
            },
        };
        let key = pair_key_of(a, b);
        let r = holds_value(&self.links, key);
        proof {
            assert(pm.contains_key(from.value) && pm[from.value] == a) by {
                assert(self.stages@[a as int].id == from);
                assert(has_stage(self.stages@, from));
                assert(StageId { value: from.value } == from);
                assert(pm.contains_key(from.value));
                let c = pm[from.value] as int;
                assert(self.stages@[c].id.value == from.value);
                assert(self.stages@[c].id == from);
                if c != a as int {
                    assert(self.stages@[c].id != self.stages@[a as int].id);
                }
            }
            assert(pm.contains_key(to.value) && pm[to.value] == b) by {
                assert(self.stages@[b as int].id == to);
                assert(has_stage(self.stages@, to));
                assert(StageId { value: to.value } == to);
                assert(pm.contains_key(to.value));
                let c = pm[to.value] as int;
                assert(self.stages@[c].id.value == to.value);
                assert(self.stages@[c].id == to);
                if c != b as int {
                    assert(self.stages@[c].id != self.stages@[b as int].id);
                }
            }
            if r {
                let j = choose|j: int| 0 <= j < ev.len() && key == #[trigger] pair_key(pm, ev[j]);
                assert(!edge_fault(self.stages@, ev, j));
                assert(pm.contains_key(ev[j].from.value)) by {
                    assert(StageId { value: ev[j].from.value } == ev[j].from);
                }
                assert(pm.contains_key(ev[j].to.value)) by {
                    assert(StageId { value: ev[j].to.value } == ev[j].to);
                }
                crate::validation::lemma_pair_key_injective(a as int, b as int, pm[ev[j].from.value] as int, pm[ev[j].to.value] as int);
                assert(ev[j].from == from && ev[j].to == to);
            }
            if edge_between(ev, from, to) {
                let j = choose|j: int| 0 <= j < ev.len() && (#[trigger] ev[j]).from == from && ev[j].to == to;
                assert(pair_key(pm, ev[j]) == key);
            }
        }
        r
    }

    /// The position of the stage with this id, through the position index.
    fn locate(&self, id: StageId) -> (r: Option<usize>)
        requires
            self.wf(),
        ensures
            match r {
                Some(k) => k < self.stage_list().len() && self.stage_list()[k as int].id == id,
                None => !has_stage(self.stage_list(), id),
            },
    {
        proof {
            reveal(positions_of);
            assert(StageId { value: id.value } == id);
        }
        match position_of_value(&self.positions, id.value) {
            Some(k) => {
                proof {
                    assert(self.stages@[k as int].id.value == id.value);
                    assert(self.stages@[k as int].id == StageId { value: id.value });
                }
                Some(k)
            },
            None => None,
        }
    }

    /// Whether the stage lies on a cycle: it reaches another stage that
    /// reaches it back.
    pub fn is_in_cycle(&self, stage_id: StageId) -> (r: bool)
        ensures
            r == on_cycle(self.adjacency(), stage_id),
    {
        proof {
            use_type_invariant(self);
        }
        proof {
            lemma_in_cycle_iff_listed(*self, stage_id);
        }
        self.scc_id(stage_id).is_some()
    }

    /// The SCC identifier of the stage: the index of its component in the
    /// list of cycle components, or `None` when it lies on no cycle.
    pub fn scc_id(&self, stage_id: StageId) -> (r: Option<u32>)
        ensures
            match r {
                Some(k) => k < self.scc_list().len() && self.scc_list()[k as int]@.contains(stage_id),
                None => forall|k: int| 0 <= k < self.scc_list().len() ==> !(#[trigger] self.scc_list()[k])@.contains(stage_id),
            },
    {
        proof {
            use_type_invariant(self);
        }
        let mut k: usize = 0;
        while k < self.scc_members.len()
            invariant
                self.wf(),
                k <= self.scc_members@.len(),
                forall|j: int| 0 <= j < k ==> !(#[trigger] self.scc_members@[j])@.contains(stage_id),
            decreases self.scc_members.len() - k,
        {
            if index_of(&self.scc_members[k], stage_id).is_some() {
                return Some(k as u32);
            }
            k = k + 1;
        }
        None
    }

    /// The members of the SCC with this identifier.
    pub fn scc_members(&self, scc_id: u32) -> (r: Option<&Vec<StageId>>)
        ensures
            match r {
                Some(m) => scc_id < self.scc_list().len() && *m == self.scc_list()[scc_id as int],
                None => scc_id >= self.scc_list().len(),
            },
    {
        let k = scc_id as usize;
        if k < self.scc_members.len() {
            Some(&self.scc_members[k])
        } else {
            None
        }
    }
}

/// The stage with its derived annotations filled in: the role of its type,
/// and whether it lies on a cycle.
pub open spec fn with_derived_annotations(s: StageInfo, adj: Seq<(StageId, Vec<StageId>)>) -> StageInfo {
    StageInfo { role: Some(spec_role(s.stage_type)), is_cycle_member: Some(on_cycle(adj, s.id)), ..s }
}

impl Topology {
    /// Fill in each stage's role (from its type) and cycle membership (from
    /// the SCC data). Nothing else changes.
    pub fn populate_derived_stage_annotations(self) -> (r: Topology)
        ensures
            r.wf(),
            r.stage_list().len() == self.stage_list().len(),
            forall|k: int| 0 <= k < self.stage_list().len() ==>
                #[trigger] r.stage_list()[k] == with_derived_annotations(self.stage_list()[k], self.adjacency()),
            r.edge_list() == self.edge_list(),
            r.adjacency() == self.adjacency(),
            r.scc_list() == self.scc_list(),
            r.flow_label() == self.flow_label(),
            r.subgraph_list() == self.subgraph_list(),
    {
        proof {
            use_type_invariant(&self);
        }
        let ghost adj = self.downstream@;
        let ghost old_stages = self.stages@;
        let mut flags: Vec<bool> = Vec::new();
        let mut k: usize = 0;
        while k < self.stages.len()
            invariant
                self.wf(),
                adj == self.downstream@,
                k <= self.stages@.len(),
                flags@.len() == k,
                forall|j: int| 0 <= j < k ==> flags@[j] == on_cycle(adj, #[trigger] self.stages@[j].id),
            decreases self.stages.len() - k,
        {
            let c = self.is_in_cycle(self.stages[k].id);
            flags.push(c);
            k = k + 1;
        }
        let Topology {
            stages,
            edges,
            downstream,
            scc_members,
            flow_name,
            subgraphs,
            positions,
            links,
            down_index,
            up_index,
        } = self;
        let mut rest = stages;
        let mut out: Vec<StageInfo> = Vec::new();
        let mut i: usize = 0;
        while rest.len() > 0
            invariant
                flags@.len() == old_stages.len(),
                old_stages.len() <= usize::MAX,
                forall|j: int| 0 <= j < old_stages.len() ==> flags@[j] == on_cycle(adj, #[trigger] old_stages[j].id),
                i <= old_stages.len(),
                out@.len() == i,
                rest@ == old_stages.subrange(i as int, old_stages.len() as int),
                forall|j: int| 0 <= j < i ==> #[trigger] out@[j] == with_derived_annotations(old_stages[j], adj),
            decreases rest@.len(),
        {
            let s = rest.remove(0);
            proof {
                assert(s == old_stages[i as int]);
                assert(rest@ =~= old_stages.subrange(i + 1, old_stages.len() as int));
            }
            let role = s.stage_type.role();
            let derived = StageInfo { role: Some(role), is_cycle_member: Some(flags[i]), ..s };
            out.push(derived);
            i = i + 1;
        }
        proof {
            assert(same_stage_structure(old_stages, out@));
            assert(same_edge_structure(edges@, edges@));
            assert(same_bindings(edges@, edges@));
            lemma_validation_ignores_annotations(old_stages, out@, edges@, edges@, adj, subgraphs@, ValidationLevel::StructuralOnly);
            assert(stage_ids(out@) =~= stage_ids(old_stages));
            assert forall|a: int, b: int| 0 <= a < out@.len() && 0 <= b < out@.len() && a != b implies
                (#[trigger] out@[a]).id != (#[trigger] out@[b]).id by {
                assert(old_stages[a].id != old_stages[b].id);
            }
            assert forall|v: u128| #[trigger] has_stage(out@, StageId { value: v }) == has_stage(old_stages, StageId { value: v }) by {
                if has_stage(out@, StageId { value: v }) {
                    let c = choose|c: int| 0 <= c < out@.len() && (#[trigger] out@[c]).id == StageId { value: v };
                    assert(old_stages[c].id == out@[c].id);
                }
                if has_stage(old_stages, StageId { value: v }) {
                    let c = choose|c: int| 0 <= c < old_stages.len() && (#[trigger] old_stages[c]).id == StageId { value: v };
                    assert(old_stages[c].id == out@[c].id);
                }
            }
            assert(positions_of(positions@, out@)) by {
                reveal(positions_of);
                assert forall|v: u128| #[trigger] positions@.contains_key(v) implies positions@[v] < out@.len()
                    && out@[positions@[v] as int].id.value == v by {
                    assert(old_stages[positions@[v] as int].id == out@[positions@[v] as int].id);
                }
            }
        }
        let r = Topology {
            stages: out,
            edges,
            downstream,
            scc_members,
            flow_name,
            subgraphs,
            positions,
            links,
            down_index,
            up_index,
        };
        r
    }
}

// ------------------------------------------------------------ edge typing

/// The payload type at one position of a stage's typing; `Unspecified` when
/// the stage declares no typing.
pub open spec fn typing_at(t: Option<StageTypingInfo>, slot: EdgeTypingLabelSource) -> TypeHintInfo {
    match t {
        Some(t) => match slot {
            EdgeTypingLabelSource::UpstreamOutputType => t.output_type,
            EdgeTypingLabelSource::DownstreamInputType => t.input_type,
            EdgeTypingLabelSource::DownstreamReferenceType => t.reference_type,
            EdgeTypingLabelSource::DownstreamStreamType => t.stream_type,
        },
        None => TypeHintInfo::Unspecified,
    }
}

/// The typing the stages give an edge. An edge into a join from one of its
/// catalog sources carries the join's reference type, one from a stream
/// source its stream type. Any other edge carries the upstream stage's
/// output type when that is declared, else the downstream stage's input
/// type when the downstream stage declares typing; with neither, the edge
/// keeps its own typing.
pub open spec fn derived_typing(stages: Seq<StageInfo>, e: DirectedEdge) -> Option<EdgeTypingInfo> {
    let up = stage_named(stages, e.from);
    let down = stage_named(stages, e.to);
    if down.join_metadata is Some && down.join_metadata.unwrap().catalog_source_ids@.contains(e.from) {
        Some(EdgeTypingInfo {
            role: EdgeTypingRole::Reference,
            label_source: EdgeTypingLabelSource::DownstreamReferenceType,
            payload_type: typing_at(down.typing, EdgeTypingLabelSource::DownstreamReferenceType),
        })
    } else if down.join_metadata is Some && down.join_metadata.unwrap().stream_source_ids@.contains(e.from) {
        Some(EdgeTypingInfo {
            role: EdgeTypingRole::Stream,
            label_source: EdgeTypingLabelSource::DownstreamStreamType,
            payload_type: typing_at(down.typing, EdgeTypingLabelSource::DownstreamStreamType),
        })
    } else if up.typing is Some && !(up.typing.unwrap().output_type is Unspecified) {
        Some(EdgeTypingInfo {
            role: EdgeTypingRole::Input,
            label_source: EdgeTypingLabelSource::UpstreamOutputType,
            payload_type: up.typing.unwrap().output_type,
        })
    } else if down.typing is Some {
        Some(EdgeTypingInfo {
            role: EdgeTypingRole::Input,
            label_source: EdgeTypingLabelSource::DownstreamInputType,
            payload_type: down.typing.unwrap().input_type,
        })
    } else {
        e.typing
    }
}

fn copy_hint(h: &TypeHintInfo) -> (r: TypeHintInfo)
    ensures
        r == *h,
{
    match h {
        TypeHintInfo::Unspecified => TypeHintInfo::Unspecified,
        TypeHintInfo::Exact { name } => TypeHintInfo::Exact { name: name.clone() },
        TypeHintInfo::Mixed => TypeHintInfo::Mixed,
    }
}

fn copy_edge_typing(t: &Option<EdgeTypingInfo>) -> (r: Option<EdgeTypingInfo>)
    ensures
        r == *t,
{
    match t {
        Some(t) => Some(EdgeTypingInfo { role: t.role, label_source: t.label_source, payload_type: copy_hint(&t.payload_type) }),
        None => None,
    }
}

fn hint_at(t: &Option<StageTypingInfo>, slot: EdgeTypingLabelSource) -> (r: TypeHintInfo)
    ensures
        r == typing_at(*t, slot),
{
    match t {
        Some(t) => match slot {
            EdgeTypingLabelSource::UpstreamOutputType => copy_hint(&t.output_type),
            EdgeTypingLabelSource::DownstreamInputType => copy_hint(&t.input_type),
            EdgeTypingLabelSource::DownstreamReferenceType => copy_hint(&t.reference_type),
            EdgeTypingLabelSource::DownstreamStreamType => copy_hint(&t.stream_type),
        },
        None => TypeHintInfo::Unspecified,
    }
}

/// The typing the stages give the edge `e`.
fn edge_typing_for(stages: &[StageInfo], pos: &HashMap<u128, usize>, e: &DirectedEdge) -> (r: Option<EdgeTypingInfo>)
    requires
        distinct_ids(stages@),
        positions_of(pos@, stages@),
        has_stage(stages@, e.from),
        has_stage(stages@, e.to),
    ensures
        r == derived_typing(stages@, *e),
{
    proof {
        reveal(positions_of);
        assert(StageId { value: e.from.value } == e.from);
        assert(StageId { value: e.to.value } == e.to);
    }
    let ku = match position_of_value(pos, e.from.value) {
        Some(k) => k,
        None => {
            proof {
                assert(false);
            }
            0
        },
    };
    let kd = match position_of_value(pos, e.to.value) {
        Some(k) => k,
        None => {
            proof {
                assert(false);
            }
            0
        },
    };
    proof {
        assert(stages@[ku as int].id == StageId { value: e.from.value });
        assert(stages@[kd as int].id == StageId { value: e.to.value });
        lemma_stage_named(stages@, ku as int);
        lemma_stage_named(stages@, kd as int);
    }
    let up = &stages[ku];
    let down = &stages[kd];
    if let Some(jm) = &down.join_metadata {
        if index_of(&jm.catalog_source_ids, e.from).is_some() {
            return Some(EdgeTypingInfo {
                role: EdgeTypingRole::Reference,
                label_source: EdgeTypingLabelSource::DownstreamReferenceType,
                payload_type: hint_at(&down.typing, EdgeTypingLabelSource::DownstreamReferenceType),
            });
        }
        if index_of(&jm.stream_source_ids, e.from).is_some() {
            return Some(EdgeTypingInfo {
                role: EdgeTypingRole::Stream,
                label_source: EdgeTypingLabelSource::DownstreamStreamType,
                payload_type: hint_at(&down.typing, EdgeTypingLabelSource::DownstreamStreamType),
            });
        }
    }
    if let Some(t) = &up.typing {
        let declared = match &t.output_type {
            TypeHintInfo::Unspecified => false,
            _ => true,
        };
        if declared {
            return Some(EdgeTypingInfo {
                role: EdgeTypingRole::Input,
                label_source: EdgeTypingLabelSource::UpstreamOutputType,
                payload_type: copy_hint(&t.output_type),
            });
        }
    }
    if let Some(t) = &down.typing {
        return Some(EdgeTypingInfo {
            role: EdgeTypingRole::Input,
            label_source: EdgeTypingLabelSource::DownstreamInputType,
            payload_type: copy_hint(&t.input_type),
        });
    }
    copy_edge_typing(&e.typing)
}

impl Topology {
    /// Fill in each edge's typing from the typing of its stages (see
    /// `derived_typing`). Nothing else changes.
    pub fn derive_edge_typings(self) -> (r: Topology)
        ensures
            r.wf(),
            r.stage_list() == self.stage_list(),
            r.edge_list().len() == self.edge_list().len(),
            forall|k: int| 0 <= k < self.edge_list().len() ==> #[trigger] r.edge_list()[k]
                == (DirectedEdge { typing: derived_typing(self.stage_list(), self.edge_list()[k]), ..self.edge_list()[k] }),
            r.adjacency() == self.adjacency(),
            r.scc_list() == self.scc_list(),
            r.flow_label() == self.flow_label(),
            r.subgraph_list() == self.subgraph_list(),
    {
        proof {
            use_type_invariant(&self);
        }
        let ghost sv = self.stages@;
        let ghost old_edges = self.edges@;
        let mut typings: Vec<Option<EdgeTypingInfo>> = Vec::new();
        let mut k: usize = 0;
        while k < self.edges.len()
            invariant
                self.wf(),
                sv == self.stages@,
                old_edges == self.edges@,
                k <= old_edges.len(),
                typings@.len() == k,
                forall|j: int| 0 <= j < k ==> #[trigger] typings@[j] == derived_typing(sv, old_edges[j]),
            decreases self.edges.len() - k,
        {
            proof {
                assert(!edge_fault(sv, old_edges, k as int));
            }
            let t = edge_typing_for(self.stages.as_slice(), &self.positions, &self.edges[k]);
            typings.push(t);
            k = k + 1;
        }
        let Topology {
            stages,
            edges,
            downstream,
            scc_members,
            flow_name,
            subgraphs,
            positions,
            links,
            down_index,
            up_index,
        } = self;
        let mut rest = edges;
        let mut out: Vec<DirectedEdge> = Vec::new();
        let mut i: usize = 0;
        while rest.len() > 0
            invariant
                typings@.len() == old_edges.len(),
                old_edges.len() <= usize::MAX,
                forall|j: int| 0 <= j < old_edges.len() ==> #[trigger] typings@[j] == derived_typing(sv, old_edges[j]),
                i <= old_edges.len(),
                out@.len() == i,
                rest@ == old_edges.subrange(i as int, old_edges.len() as int),
                forall|j: int| 0 <= j < i ==> #[trigger] out@[j]
                    == (DirectedEdge { typing: derived_typing(sv, old_edges[j]), ..old_edges[j] }),
            decreases rest@.len(),
        {
            let e = rest.remove(0);
            proof {
                assert(e == old_edges[i as int]);
                assert(rest@ =~= old_edges.subrange(i + 1, old_edges.len() as int));
            }
            let t = copy_edge_typing(&typings[i]);
            out.push(DirectedEdge { typing: t, ..e });
            i = i + 1;
        }
        proof {
            let ne = out@;
            assert(same_edge_structure(old_edges, ne));
            assert(same_bindings(old_edges, ne));
            assert(same_stage_structure(sv, sv));
            lemma_validation_ignores_annotations(sv, sv, old_edges, ne, downstream@, subgraphs@, ValidationLevel::StructuralOnly);
            assert forall|a: StageId, b: StageId| edge_between(ne, a, b) == edge_between(old_edges, a, b) by {
                if edge_between(ne, a, b) {
                    let x = choose|x: int| 0 <= x < ne.len() && (#[trigger] ne[x]).from == a && ne[x].to == b;
                    assert(old_edges[x].from == a && old_edges[x].to == b);
                }
                if edge_between(old_edges, a, b) {
                    let x = choose|x: int| 0 <= x < old_edges.len() && (#[trigger] old_edges[x]).from == a && old_edges[x].to == b;
                    assert(ne[x].from == a && ne[x].to == b);
                }
            }
            assert(links_keyed(links@, positions@, ne)) by {
                reveal(links_keyed);
                assert forall|j: int| 0 <= j < ne.len() implies #[trigger] pair_key(positions@, ne[j]) == pair_key(positions@, old_edges[j]) by {
                    assert(ne[j].from == old_edges[j].from && ne[j].to == old_edges[j].to);
                }
                assert forall|k: u128| #[trigger] links@.contains(k) <==> exists|j: int| 0 <= j < ne.len() && k == #[trigger] pair_key(positions@, ne[j]) by {
                    if links@.contains(k) {
                        let j = choose|j: int| 0 <= j < old_edges.len() && k == #[trigger] pair_key(positions@, old_edges[j]);
                        assert(pair_key(positions@, ne[j]) == pair_key(positions@, old_edges[j]));
                    }
                    if exists|j: int| 0 <= j < ne.len() && k == #[trigger] pair_key(positions@, ne[j]) {
                        let j = choose|j: int| 0 <= j < ne.len() && k == #[trigger] pair_key(positions@, ne[j]);
                        assert(pair_key(positions@, ne[j]) == pair_key(positions@, old_edges[j]));
                    }
                }
            }
        }
        proof {
            let ne = out@;
            assert(neighbours_indexed(down_index@, up_index@, ne)) by {
                reveal(neighbours_indexed);
                assert forall|v: u128| #[trigger] neighbours_at(down_index@, v) == targets_of(ne, StageId { value: v }, true) by {
                    lemma_targets_same_ends(old_edges, ne, StageId { value: v }, true);
                }
                assert forall|v: u128| #[trigger] neighbours_at(up_index@, v) == targets_of(ne, StageId { value: v }, false) by {
                    lemma_targets_same_ends(old_edges, ne, StageId { value: v }, false);
                }
            }
        }
        let r = Topology {
            stages,
            edges: out,
            downstream,
            scc_members,
            flow_name,
            subgraphs,
            positions,
            links,
            down_index,
            up_index,
        };
        r
    }
}

/// A filtered id list only lists stage ids.
proof fn lemma_listed_is_stage(stages: Seq<StageInfo>, p: spec_fn(StageId) -> bool, x: StageId)
    requires
        keep_ids(stage_ids(stages), p).contains(x),
    ensures
        stage_ids(stages).contains(x),
{
    crate::validation::lemma_keep_ids_members(stage_ids(stages), p, x);
}

/// The stage at a position is the stage named by its id.
proof fn lemma_named_at(stages: Seq<StageInfo>, k: int)
    requires
        distinct_ids(stages),
        0 <= k < stages.len(),
    ensures
        has_stage(stages, stages[k].id),
        stage_named(stages, stages[k].id) == stages[k],
{
    lemma_stage_named(stages, k);
}

/// A stage lies on a cycle exactly when some cycle component lists it.
pub proof fn lemma_in_cycle_iff_listed(t: Topology, v: StageId)
    requires
        t.wf(),
    ensures
        on_cycle(t.adjacency(), v) <==> exists|k: int| 0 <= k < t.scc_list().len() && #[trigger] t.scc_list()[k]@.contains(v),
{
    reveal(cycle_components);
    let adj = t.adjacency();
    let ids = stage_ids(t.stage_list());
    let edges = t.edge_list();
    if exists|k: int| 0 <= k < t.scc_list().len() && #[trigger] t.scc_list()[k]@.contains(v) {
        let k = choose|k: int| 0 <= k < t.scc_list().len() && #[trigger] t.scc_list()[k]@.contains(v);
        assert(cyclic(adj, v));
        if adj_has(adj, v, v) {
            assert(edge_between(edges, v, v));
            let i = choose|i: int| 0 <= i < edges.len() && (#[trigger] edges[i]).from == v && edges[i].to == v;
            assert(false);
        }
    }
    if on_cycle(adj, v) {
        let u = choose|u: StageId| u != v && #[trigger] mutually_reach(adj, v, u);
        lemma_reaches_ends(adj, v, u);
        let w = choose|w: StageId| #[trigger] adj_has(adj, v, w);
        assert(edge_between(edges, v, w));
        let i = choose|i: int| 0 <= i < edges.len() && (#[trigger] edges[i]).from == v && edges[i].to == w;
        assert(!edge_fault(t.stage_list(), edges, i));
        let c = choose|c: int| 0 <= c < t.stage_list().len() && (#[trigger] t.stage_list()[c]).id == v;
        assert(ids[c] == v);
        lemma_reaches_refl(adj, v);
        assert(reached_from_stages(ids, adj, v));
        assert(cyclic(adj, v));
    }
}

/// Walks compose: `a` reaches `c` through `b`.
proof fn lemma_reaches_trans(adj: Seq<(StageId, Vec<StageId>)>, a: StageId, b: StageId, c: StageId)
    requires
        reaches(adj, a, b),
        reaches(adj, b, c),
    ensures
        reaches(adj, a, c),
{
    reveal(reaches);
    let p = choose|p: Seq<StageId>| #[trigger] crate::graph::is_walk(adj, p) && p[0] == a && p.last() == b;
    let q = choose|q: Seq<StageId>| #[trigger] crate::graph::is_walk(adj, q) && q[0] == b && q.last() == c;
    let w = p + q.drop_first();
    assert forall|k: int| 0 <= k < w.len() - 1 implies adj_has(adj, #[trigger] w[k], w[k + 1]) by {
        if k < p.len() - 1 {
            assert(w[k] == p[k] && w[k + 1] == p[k + 1]);
        } else if k == p.len() - 1 {
            assert(w[k] == q[0]);
            assert(w[k + 1] == q[1]);
        } else {
            assert(w[k] == q[k - p.len() + 1]);
            assert(w[k + 1] == q[k - p.len() + 2]);
        }
    }
    assert(crate::graph::is_walk(adj, w));
    if q.len() == 1 {
        assert(w.last() == p.last());
    } else {
        assert(w.last() == q.last());
    }
}

/// A stage lies on a cycle exactly when it is a stage of the topology and
/// some walk of at least one edge leads from it back to it.
pub proof fn lemma_in_cycle_is_closed_walk(t: Topology, v: StageId)
    requires
        t.wf(),
    ensures
        on_cycle(t.adjacency(), v) <==> has_stage(t.stage_list(), v) && crate::validation::returns_to(t.adjacency(), v),
{
    let adj = t.adjacency();
    let edges = t.edge_list();
    if on_cycle(adj, v) {
        let u = choose|u: StageId| u != v && #[trigger] mutually_reach(adj, v, u);
        reveal(reaches);
        let p = choose|p: Seq<StageId>| #[trigger] crate::graph::is_walk(adj, p) && p[0] == v && p.last() == u;
        assert(p.len() >= 2);
        let w = p[1];
        assert(adj_has(adj, v, w));
        let tail = p.drop_first();
        assert forall|k: int| 0 <= k < tail.len() - 1 implies adj_has(adj, #[trigger] tail[k], tail[k + 1]) by {
            assert(tail[k] == p[k + 1] && tail[k + 1] == p[k + 2]);
        }
        assert(crate::graph::is_walk(adj, tail));
        assert(reaches(adj, w, u));
        lemma_reaches_trans(adj, w, u, v);
        assert(edge_between(edges, v, w));
        let i = choose|i: int| 0 <= i < edges.len() && (#[trigger] edges[i]).from == v && edges[i].to == w;
        assert(!edge_fault(t.stage_list(), edges, i));
    }
    if has_stage(t.stage_list(), v) && crate::validation::returns_to(adj, v) {
        let w = choose|w: StageId| #[trigger] adj_has(adj, v, w) && reaches(adj, w, v);
        assert(edge_between(edges, v, w));
        let i = choose|i: int| 0 <= i < edges.len() && (#[trigger] edges[i]).from == v && edges[i].to == w;
        assert(w != v);
        reveal(reaches);
        let p = seq![v, w];
        assert(crate::graph::is_walk(adj, p));
        assert(reaches(adj, v, w));
        assert(mutually_reach(adj, v, w));
    }
}

/// Two stages share an SCC identifier exactly when they reach each other;
/// a stage outside every component lies on no cycle.
pub proof fn lemma_scc_ids_are_mutual_reach(t: Topology, k: int, a: StageId, b: StageId)
    requires
        t.wf(),
        0 <= k < t.scc_list().len(),
        t.scc_list()[k]@.contains(a),
    ensures
        t.scc_list()[k]@.contains(b) <==> mutually_reach(t.adjacency(), a, b),
        on_cycle(t.adjacency(), a),
{
    reveal(cycle_components);
    lemma_in_cycle_iff_listed(t, a);
}

// ------------------------------------------------------------ metrics

/// Topology metrics for debugging and optimization.
#[derive(Debug, Clone)]
pub struct TopologyMetrics {
    pub num_stages: usize,
    pub num_edges: usize,
    pub num_sources: usize,
    pub num_sinks: usize,
    pub max_fan_out: usize,
    pub max_fan_in: usize,
    pub max_depth: usize,
}

/// The number of edges that leave `id`.
pub open spec fn out_degree(edges: Seq<DirectedEdge>, id: StageId) -> nat
    decreases edges.len(),
{
    if edges.len() == 0 {
        0
    } else {
        out_degree(edges.drop_last(), id) + if edges.last().from == id { 1nat } else { 0nat }
    }
}

/// The number of edges that enter `id`.
pub open spec fn in_degree(edges: Seq<DirectedEdge>, id: StageId) -> nat
    decreases edges.len(),
{
    if edges.len() == 0 {
        0
    } else {
        in_degree(edges.drop_last(), id) + if edges.last().to == id { 1nat } else { 0nat }
    }
}

/// The degree of `id`: outgoing edges when `outgoing`, incoming otherwise.
pub open spec fn degree(edges: Seq<DirectedEdge>, id: StageId, outgoing: bool) -> nat {
    if outgoing { out_degree(edges, id) } else { in_degree(edges, id) }
}

/// `m` is the largest degree of a stage (0 when there are no edges).
pub open spec fn is_max_degree(stages: Seq<StageInfo>, edges: Seq<DirectedEdge>, outgoing: bool, m: int) -> bool {
    &&& forall|k: int| 0 <= k < stages.len() ==> degree(edges, (#[trigger] stages[k]).id, outgoing) <= m
    &&& (m == 0 || exists|k: int| 0 <= k < stages.len() && degree(edges, (#[trigger] stages[k]).id, outgoing) == m)
}

/// `p` visits distinct stages, one edge after another.
pub open spec fn simple_path(edges: Seq<DirectedEdge>, p: Seq<StageId>) -> bool {
    &&& p.len() >= 1
    &&& p.no_duplicates()
    &&& forall|k: int| 0 <= k < p.len() - 1 ==> edge_between(edges, #[trigger] p[k], p[k + 1])
}

/// `d` is the number of edges on the longest simple path from a structural
/// source (0 when there is no source).
pub open spec fn is_max_depth(stages: Seq<StageInfo>, edges: Seq<DirectedEdge>, d: int) -> bool {
    &&& forall|p: Seq<StageId>| #[trigger] simple_path(edges, p) && source_ids(stages, edges).contains(p[0]) ==> p.len() - 1 <= d
    &&& (source_ids(stages, edges).len() == 0 ==> d == 0)
    &&& (source_ids(stages, edges).len() > 0 ==> exists|p: Seq<StageId>| #[trigger] simple_path(edges, p)
        && source_ids(stages, edges).contains(p[0]) && p.len() - 1 == d)
}

/// The largest degree of a stage.
fn max_degree(stages: &[StageInfo], edges: &[DirectedEdge], index: &HashMap<u128, Vec<StageId>>, outgoing: bool) -> (r: usize)
    requires
        forall|v: u128| #[trigger] neighbours_at(index@, v) == targets_of(edges@, StageId { value: v }, outgoing),
        forall|j: int| 0 <= j < edges@.len() ==> !crate::validation::duplicate_at(edges@, j),
    ensures
        is_max_degree(stages@, edges@, outgoing, r as int),
{
    let mut best: usize = 0;
    let mut k: usize = 0;
    while k < stages.len()
        invariant
            k <= stages@.len(),
            forall|v: u128| #[trigger] neighbours_at(index@, v) == targets_of(edges@, StageId { value: v }, outgoing),
            forall|j: int| 0 <= j < edges@.len() ==> !crate::validation::duplicate_at(edges@, j),
            forall|j: int| 0 <= j < k ==> degree(edges@, (#[trigger] stages@[j]).id, outgoing) <= best,
            best == 0 || exists|j: int| 0 <= j < k && degree(edges@, (#[trigger] stages@[j]).id, outgoing) == best,
        decreases stages.len() - k,
    {
        let id = stages[k].id;
        let d = neighbour_count(index, id.value);
        proof {
            assert(StageId { value: id.value } == id);
            lemma_targets_of(edges@, id, outgoing);
        }
        if d > best {
            best = d;
        }
        k = k + 1;
    }
    best
}

/// A simple extension over the numbered graph, from a node marked alone, is
/// a simple path over the edges.
proof fn lemma_idx_path_is_simple(
    ids: Seq<StageId>,
    gv: Seq<Seq<usize>>,
    adj: Seq<(StageId, Vec<StageId>)>,
    edges: Seq<DirectedEdge>,
    on: Seq<bool>,
    si: int,
    q: Seq<int>,
)
    requires
        numbering(ids, gv, adj),
        links_of(adj, edges),
        idx_simple_ext(gv, on, si, q),
    ensures
        simple_path(edges, Seq::new(q.len(), |k: int| ids[q[k]])),
        Seq::new(q.len(), |k: int| ids[q[k]])[0] == ids[si],
{
    reveal(idx_simple_ext);
    let p = Seq::new(q.len(), |k: int| ids[q[k]]);
    assert forall|k: int| 0 <= k < p.len() - 1 implies edge_between(edges, #[trigger] p[k], p[k + 1]) by {
        assert(idx_edge(gv, q[k], q[k + 1]));
        assert(adj_has(adj, ids[q[k]], ids[q[k + 1]]));
    }
    assert forall|a: int, b: int| 0 <= a < p.len() && 0 <= b < p.len() && a != b implies p[a] != p[b] by {
        assert(q[a] != q[b]);
        assert(ids.no_duplicates());
    }
}

/// A simple path over the edges from a numbered stage is a simple extension
/// over the numbered graph from that stage, marked alone.
proof fn lemma_simple_is_idx_path(
    ids: Seq<StageId>,
    gv: Seq<Seq<usize>>,
    adj: Seq<(StageId, Vec<StageId>)>,
    edges: Seq<DirectedEdge>,
    si: int,
    on: Seq<bool>,
    p: Seq<StageId>,
)
    requires
        numbering(ids, gv, adj),
        links_of(adj, edges),
        0 <= si < ids.len(),
        on.len() == ids.len(),
        forall|x: int| 0 <= x < on.len() ==> (on[x] <==> x == si),
        simple_path(edges, p),
        p[0] == ids[si],
    ensures
        exists|q: Seq<int>| #[trigger] idx_simple_ext(gv, on, si, q) && q.len() == p.len(),
{
    reveal(idx_simple_ext);
    assert forall|k: int| 0 <= k < p.len() implies ids.contains(#[trigger] p[k]) by {
        lemma_path_numbered(ids, gv, adj, edges, si, p, k);
    }
    let q = Seq::new(p.len(), |k: int| choose|j: int| 0 <= j < ids.len() && ids[j] == p[k]);
    assert forall|k: int| 0 <= k < q.len() implies 0 <= #[trigger] q[k] < gv.len() && ids[q[k]] == p[k] by {
        assert(ids.contains(p[k]));
    }
    assert forall|k: int| 0 <= k < q.len() - 1 implies idx_edge(gv, #[trigger] q[k], q[k + 1]) by {
        assert(ids[q[k]] == p[k]);
        assert(ids[q[k + 1]] == p[k + 1]);
        assert(edge_between(edges, p[k], p[k + 1]));
        assert(adj_has(adj, ids[q[k]], ids[q[k + 1]]));
    }
    assert(idx_walk(gv, q));
    assert(q[0] == si) by {
        assert(ids[q[0]] == ids[si]);
        assert(ids.no_duplicates());
    }
    assert forall|a: int, b: int| 0 <= a < q.len() && 0 <= b < q.len() && a != b implies q[a] != q[b] by {
        assert(ids[q[a]] == p[a]);
        assert(ids[q[b]] == p[b]);
    }
    assert forall|k: int| 1 <= k < q.len() implies !on[#[trigger] q[k]] by {
        assert(q[k] != q[0]);
    }
    assert(idx_simple_ext(gv, on, si, q));
}

proof fn lemma_path_numbered(
    ids: Seq<StageId>,
    gv: Seq<Seq<usize>>,
    adj: Seq<(StageId, Vec<StageId>)>,
    edges: Seq<DirectedEdge>,
    si: int,
    p: Seq<StageId>,
    k: int,
)
    requires
        numbering(ids, gv, adj),
        links_of(adj, edges),
        0 <= si < ids.len(),
        simple_path(edges, p),
        p[0] == ids[si],
        0 <= k < p.len(),
    ensures
        ids.contains(p[k]),
    decreases k,
{
    if k == 0 {
        assert(ids[si] == p[0]);
    } else {
        lemma_path_numbered(ids, gv, adj, edges, si, p, k - 1);
        let i = choose|i: int| 0 <= i < ids.len() && ids[i] == p[k - 1];
        assert(edge_between(edges, p[k - 1], p[k]));
        assert(adj_has(adj, ids[i], p[k]));
    }
}

impl Topology {
    /// The number of edges on the longest simple path from a structural
    /// source: for graphs with cycles, the longest acyclic path. From a
    /// source that reaches no cycle every walk is simple, and relaxation
    /// finds the longest one in polynomial time; from one that does, the
    /// simple paths are searched exhaustively.
    fn calculate_max_depth(&self) -> (r: usize)
        requires
            self.wf(),
        ensures
            is_max_depth(self.stage_list(), self.edge_list(), r as int),
    {
        let ghost sv = self.stages@;
        let ghost ev = self.edges@;
        let ghost adj = self.downstream@;
        let sources = self.source_stages();
        let ids0 = ids_of(self.stages.as_slice());
        let (ids, g) = build_numbering(&ids0, self.downstream.as_slice());
        let ghost gv = g.deep_view();
        let m = reach_matrix(&g);
        let n = g.len();
        let mut on: Vec<bool> = Vec::new();
        let mut x: usize = 0;
        while x < n
            invariant
                x <= n,
                on@ == Seq::new(x as nat, |y: int| false),
            decreases n - x,
        {
            on.push(false);
            proof {
                assert(on@ =~= Seq::new((x + 1) as nat, |y: int| false));
            }
            x = x + 1;
        }
        let mut best: usize = 0;
        let mut i: usize = 0;
        while i < sources.len()
            invariant
                self.wf(),
                sv == self.stages@,
                ev == self.edges@,
                adj == self.downstream@,
                gv == g.deep_view(),
                is_reach_matrix(gv, m.deep_view()),
                n == g.len(),
                numbering(ids@, gv, adj),
                ids@.len() >= ids0@.len(),
                forall|k: int| 0 <= k < ids0@.len() ==> ids@[k] == ids0@[k],
                ids0@ == stage_ids(sv),
                sources@ == source_ids(sv, ev),
                on@ == Seq::new(n as nat, |y: int| false),
                i <= sources@.len(),
                forall|p: Seq<StageId>| #[trigger] simple_path(ev, p) && sources@.subrange(0, i as int).contains(p[0]) ==> p.len() - 1 <= best,
                i == 0 ==> best == 0,
                i > 0 ==> exists|p: Seq<StageId>| #[trigger] simple_path(ev, p) && sources@.contains(p[0]) && p.len() - 1 == best,
            decreases sources.len() - i,
        {
            let s = sources[i];
            proof {
                lemma_listed_is_stage(sv, |id: StageId| !has_upstream(ev, id), s);
                let c = choose|c: int| 0 <= c < stage_ids(sv).len() && stage_ids(sv)[c] == s;
                assert(ids@[c] == s);
            }
            let si = match index_of(&ids, s) {
                Some(si) => si,
                None => {
                    proof {
                        assert(false);
                    }
                    0
                },
            };
            let ghost on_s = Seq::new(n as nat, |y: int| y == si as int);
            proof {
                assert(on_s =~= only_marked(n as nat, si as int));
            }
            let d = if is_acyclic_from(&g, &m, si) {
                // every walk from the source is a simple path: relax
                longest_from_acyclic(&g, si)
            } else {
                on.set(si, true);
                proof {
                    assert(on@ =~= on_s);
                }
                let d = longest_from(&g, &mut on, si);
                on.set(si, false);
                d
            };
            proof {
                assert(on@ =~= Seq::new(n as nat, |y: int| false));
                // every simple path from `s` has at most `d` edges
                assert forall|p: Seq<StageId>| #[trigger] simple_path(ev, p) && p[0] == s implies p.len() - 1 <= d by {
                    lemma_simple_is_idx_path(ids@, gv, adj, ev, si as int, on_s, p);
                    let q = choose|q: Seq<int>| #[trigger] idx_simple_ext(gv, on_s, si as int, q) && q.len() == p.len();
                }
                // and one has exactly `d`
                let q = choose|q: Seq<int>| #[trigger] idx_simple_ext(gv, on_s, si as int, q) && q.len() == d + 1;
                lemma_idx_path_is_simple(ids@, gv, adj, ev, on_s, si as int, q);
                let pd = Seq::new(q.len(), |k: int| ids@[q[k]]);
                assert(simple_path(ev, pd));
                assert(pd[0] == s);
                assert(sources@[i as int] == s);
                assert(sources@.contains(s));
            }
            let ghost best0 = best;
            if i == 0 || d > best {
                best = d;
            }
            proof {
                assert forall|p: Seq<StageId>| #[trigger] simple_path(ev, p) && sources@.subrange(0, i + 1).contains(p[0]) implies p.len() - 1 <= best by {
                    let sub = sources@.subrange(0, i + 1);
                    let j = choose|j: int| 0 <= j < i + 1 && #[trigger] sub[j] == p[0];
                    if j < i {
                        assert(sources@.subrange(0, i as int)[j] == p[0]);
                        assert(sources@.subrange(0, i as int).contains(p[0]));
                    } else {
                        assert(p[0] == s);
                    }
                }
            }
            i = i + 1;
        }
        proof {
            assert(sources@.subrange(0, sources@.len() as int) =~= sources@);
        }
        best
    }

    /// Metrics: counts, the largest fan-out and fan-in, and the depth.
    pub fn metrics(&self) -> (r: TopologyMetrics)
        ensures
            r.num_stages == self.stage_list().len(),
            r.num_edges == self.edge_list().len(),
            r.num_sources == source_ids(self.stage_list(), self.edge_list()).len(),
            r.num_sinks == sink_ids(self.stage_list(), self.edge_list()).len(),
            is_max_degree(self.stage_list(), self.edge_list(), true, r.max_fan_out as int),
            is_max_degree(self.stage_list(), self.edge_list(), false, r.max_fan_in as int),
            is_max_depth(self.stage_list(), self.edge_list(), r.max_depth as int),
    {
        proof {
            use_type_invariant(self);
            reveal(neighbours_indexed);
            let ev = self.edges@;
            assert forall|j: int| 0 <= j < ev.len() implies !crate::validation::duplicate_at(ev, j) by {
                assert(!edge_fault(self.stages@, ev, j));
            }
        }
        TopologyMetrics {
            num_stages: self.stages.len(),
            num_edges: self.edges.len(),
            num_sources: self.source_stages().len(),
            num_sinks: self.sink_stages().len(),
            max_fan_out: max_degree(self.stages.as_slice(), self.edges.as_slice(), &self.down_index, true),
            max_fan_in: max_degree(self.stages.as_slice(), self.edges.as_slice(), &self.up_index, false),
            max_depth: self.calculate_max_depth(),
        }
    }
}

// ------------------------------------------------- annotation independence

/// Filtering a list by two predicates that agree on its members gives the
/// same list.
proof fn lemma_keep_ids_congruent(ids: Seq<StageId>, p1: spec_fn(StageId) -> bool, p2: spec_fn(StageId) -> bool)
    requires
        forall|i: int| 0 <= i < ids.len() ==> p1(#[trigger] ids[i]) == p2(ids[i]),
    ensures
        keep_ids(ids, p1) == keep_ids(ids, p2),
    decreases ids.len(),
{
    if ids.len() > 0 {
        assert forall|i: int| 0 <= i < ids.drop_last().len() implies p1(#[trigger] ids.drop_last()[i]) == p2(ids.drop_last()[i]) by {
            assert(ids.drop_last()[i] == ids[i]);
        }
        lemma_keep_ids_congruent(ids.drop_last(), p1, p2);
        assert(p1(ids[ids.len() - 1]) == p2(ids[ids.len() - 1]));
    }
}

/// Edges that agree on endpoints give every stage the same degrees.
proof fn lemma_same_degrees(e1: Seq<DirectedEdge>, e2: Seq<DirectedEdge>, id: StageId)
    requires
        same_edge_structure(e1, e2),
    ensures
        out_degree(e1, id) == out_degree(e2, id),
        in_degree(e1, id) == in_degree(e2, id),
    decreases e1.len(),
{
    if e1.len() > 0 {
        assert(same_edge_structure(e1.drop_last(), e2.drop_last())) by {
            assert forall|i: int| 0 <= i < e1.drop_last().len() implies (#[trigger] e1.drop_last()[i]).from == e2.drop_last()[i].from
                && e1.drop_last()[i].to == e2.drop_last()[i].to && e1.drop_last()[i].kind == e2.drop_last()[i].kind by {
                assert(e1.drop_last()[i] == e1[i]);
                assert(e2.drop_last()[i] == e2[i]);
            }
        }
        lemma_same_degrees(e1.drop_last(), e2.drop_last(), id);
        assert(e1.last() == e1[e1.len() - 1]);
        assert(e2.last() == e2[e2.len() - 1]);
    }
}

/// The queries read only the structural fields: stage and edge lists that
/// agree on ids, names, types, endpoints and kinds have the same structural
/// and semantic sources and sinks, the same linked pairs (so the same
/// upstream and downstream stages), the same fan-in, fan-out and depth, and
/// the same derived flow name, whatever annotations they carry.
pub proof fn lemma_queries_ignore_annotations(
    s1: Seq<StageInfo>,
    s2: Seq<StageInfo>,
    e1: Seq<DirectedEdge>,
    e2: Seq<DirectedEdge>,
)
    requires
        distinct_ids(s1),
        same_stage_structure(s1, s2),
        same_edge_structure(e1, e2),
    ensures
        source_ids(s1, e1) == source_ids(s2, e2),
        sink_ids(s1, e1) == sink_ids(s2, e2),
        forall|r: StageRole| #[trigger] role_ids(s1, r) == role_ids(s2, r),
        forall|a: StageId, b: StageId| #[trigger] edge_between(e1, a, b) == edge_between(e2, a, b),
        forall|o: bool, m: int| #[trigger] is_max_degree(s1, e1, o, m) == is_max_degree(s2, e2, o, m),
        forall|d: int| #[trigger] is_max_depth(s1, e1, d) == is_max_depth(s2, e2, d),
        derived_flow_name(s1, e1) == derived_flow_name(s2, e2),
{
    assert(stage_ids(s1) =~= stage_ids(s2));
    let ids = stage_ids(s1);
    assert forall|a: StageId, b: StageId| #[trigger] edge_between(e1, a, b) == edge_between(e2, a, b) by {
        if edge_between(e1, a, b) {
            let i = choose|i: int| 0 <= i < e1.len() && (#[trigger] e1[i]).from == a && e1[i].to == b;
            assert(e2[i].from == a && e2[i].to == b);
        }
        if edge_between(e2, a, b) {
            let i = choose|i: int| 0 <= i < e2.len() && (#[trigger] e2[i]).from == a && e2[i].to == b;
            assert(e1[i].from == a && e1[i].to == b);
        }
    }
    // structural sources and sinks
    let up1 = |id: StageId| !has_upstream(e1, id);
    let up2 = |id: StageId| !has_upstream(e2, id);
    let down1 = |id: StageId| !has_downstream(e1, id);
    let down2 = |id: StageId| !has_downstream(e2, id);
    assert forall|i: int| 0 <= i < ids.len() implies up1(#[trigger] ids[i]) == up2(ids[i]) && down1(ids[i]) == down2(ids[i]) by {
        let id = ids[i];
        if has_upstream(e1, id) {
            let j = choose|j: int| 0 <= j < e1.len() && (#[trigger] e1[j]).to == id;
            assert(e2[j].to == id);
        }
        if has_upstream(e2, id) {
            let j = choose|j: int| 0 <= j < e2.len() && (#[trigger] e2[j]).to == id;
            assert(e1[j].to == id);
        }
        if has_downstream(e1, id) {
            let j = choose|j: int| 0 <= j < e1.len() && (#[trigger] e1[j]).from == id;
            assert(e2[j].from == id);
        }
        if has_downstream(e2, id) {
            let j = choose|j: int| 0 <= j < e2.len() && (#[trigger] e2[j]).from == id;
            assert(e1[j].from == id);
        }
    }
    lemma_keep_ids_congruent(ids, up1, up2);
    lemma_keep_ids_congruent(ids, down1, down2);
    assert(source_ids(s1, e1) == source_ids(s2, e2));
    assert(sink_ids(s1, e1) == sink_ids(s2, e2));
    // semantic sources and sinks
    assert forall|r: StageRole| #[trigger] role_ids(s1, r) == role_ids(s2, r) by {
        let p1 = |id: StageId| spec_role(stage_named(s1, id).stage_type) == r;
        let p2 = |id: StageId| spec_role(stage_named(s2, id).stage_type) == r;
        assert forall|i: int| 0 <= i < ids.len() implies p1(#[trigger] ids[i]) == p2(ids[i]) by {
            assert(s1[i].id == ids[i]);
            lemma_same_named(s1, s2, ids[i]);
        }
        lemma_keep_ids_congruent(ids, p1, p2);
    }
    // degrees
    assert forall|o: bool, m: int| #[trigger] is_max_degree(s1, e1, o, m) == is_max_degree(s2, e2, o, m) by {
        assert forall|k: int| 0 <= k < s1.len() implies degree(e1, (#[trigger] s1[k]).id, o) == degree(e2, s2[k].id, o) by {
            lemma_same_degrees(e1, e2, s1[k].id);
        }
        if is_max_degree(s1, e1, o, m) {
            assert forall|k: int| 0 <= k < s2.len() implies degree(e2, (#[trigger] s2[k]).id, o) <= m by {
                assert(degree(e1, s1[k].id, o) <= m);
            }
            if m != 0 {
                let k = choose|k: int| 0 <= k < s1.len() && degree(e1, (#[trigger] s1[k]).id, o) == m;
                assert(degree(e2, s2[k].id, o) == m);
            }
        }
        if is_max_degree(s2, e2, o, m) {
            assert forall|k: int| 0 <= k < s1.len() implies degree(e1, (#[trigger] s1[k]).id, o) <= m by {
                assert(degree(e2, s2[k].id, o) <= m);
            }
            if m != 0 {
                let k = choose|k: int| 0 <= k < s2.len() && degree(e2, (#[trigger] s2[k]).id, o) == m;
                assert(degree(e1, s1[k].id, o) == m);
            }
        }
    }
    // depth
    assert forall|p: Seq<StageId>| #![trigger simple_path(e1, p)] #![trigger simple_path(e2, p)]
        simple_path(e1, p) == simple_path(e2, p) by {
        if simple_path(e1, p) {
            assert forall|k: int| 0 <= k < p.len() - 1 implies edge_between(e2, #[trigger] p[k], p[k + 1]) by {
                assert(edge_between(e1, p[k], p[k + 1]));
            }
        }
        if simple_path(e2, p) {
            assert forall|k: int| 0 <= k < p.len() - 1 implies edge_between(e1, #[trigger] p[k], p[k + 1]) by {
                assert(edge_between(e2, p[k], p[k + 1]));
            }
        }
    }
    let src = source_ids(s1, e1);
    assert forall|d: int| #[trigger] is_max_depth(s1, e1, d) == is_max_depth(s2, e2, d) by {
        if is_max_depth(s1, e1, d) {
            assert forall|p: Seq<StageId>| #[trigger] simple_path(e2, p) && src.contains(p[0]) implies p.len() - 1 <= d by {
                assert(simple_path(e1, p));
            }
        }
        if is_max_depth(s2, e2, d) {
            assert forall|p: Seq<StageId>| #[trigger] simple_path(e1, p) && src.contains(p[0]) implies p.len() - 1 <= d by {
                assert(simple_path(e2, p));
            }
        }
        if is_max_depth(s1, e1, d) && source_ids(s1, e1).len() > 0 {
            let p = choose|p: Seq<StageId>| #[trigger] simple_path(e1, p) && source_ids(s1, e1).contains(p[0]) && p.len() - 1 == d;
            assert(simple_path(e2, p));
        }
        if is_max_depth(s2, e2, d) && source_ids(s2, e2).len() > 0 {
            let p = choose|p: Seq<StageId>| #[trigger] simple_path(e2, p) && source_ids(s2, e2).contains(p[0]) && p.len() - 1 == d;
            assert(simple_path(e1, p));
        }
    }
    // flow name
    if source_ids(s1, e1).len() == 1 {
        let x = source_ids(s1, e1)[0];
        assert(source_ids(s1, e1).contains(x));
        crate::validation::lemma_keep_ids_members(ids, up1, x);
        let c = choose|c: int| 0 <= c < ids.len() && ids[c] == x;
        assert(s1[c].id == x);
        lemma_same_named(s1, s2, x);
    }
}

// ------------------------------------------------------------ fingerprint

/// The key the fingerprint orders stages by: the id.
pub open spec fn stage_sort_key(s: StageInfo) -> (u128, u128) {
    (s.id.value, 0)
}

/// The key the fingerprint orders edges by: `(from, to)`.
pub open spec fn edge_sort_key(e: DirectedEdge) -> (u128, u128) {
    (e.from.value, e.to.value)
}

/// What the fingerprint reads of a stage: id, name and type.
pub open spec fn stage_print(s: StageInfo) -> (u128, Seq<char>, StageType) {
    (s.id.value, s.name@, s.stage_type)
}

/// What the fingerprint reads of an edge: endpoints and kind.
pub open spec fn edge_print(e: DirectedEdge) -> (u128, u128, EdgeKind) {
    (e.from.value, e.to.value, e.kind)
}

/// The stage prints along the order `o`.
pub open spec fn prints_along(stages: Seq<StageInfo>, o: Seq<usize>) -> Seq<(u128, Seq<char>, StageType)> {
    Seq::new(o.len(), |k: int| stage_print(stages[o[k] as int]))
}

/// The edge prints along the order `o`.
pub open spec fn edge_prints_along(edges: Seq<DirectedEdge>, o: Seq<usize>) -> Seq<(u128, u128, EdgeKind)> {
    Seq::new(o.len(), |k: int| edge_print(edges[o[k] as int]))
}

/// Some stage of `s` has the print `x`.
pub open spec fn has_stage_print(s: Seq<StageInfo>, x: (u128, Seq<char>, StageType)) -> bool {
    exists|i: int| 0 <= i < s.len() && #[trigger] stage_print(s[i]) == x
}

/// Some edge of `e` has the print `x`.
pub open spec fn has_edge_print(e: Seq<DirectedEdge>, x: (u128, u128, EdgeKind)) -> bool {
    exists|i: int| 0 <= i < e.len() && #[trigger] edge_print(e[i]) == x
}

/// The two stage lists hold the same prints.
pub open spec fn same_stage_prints(a: Seq<StageInfo>, b: Seq<StageInfo>) -> bool {
    forall|x: (u128, Seq<char>, StageType)| #[trigger] has_stage_print(a, x) <==> #[trigger] has_stage_print(b, x)
}

/// The two edge lists hold the same prints.
pub open spec fn same_edge_prints(a: Seq<DirectedEdge>, b: Seq<DirectedEdge>) -> bool {
    forall|x: (u128, u128, EdgeKind)| #[trigger] has_edge_print(a, x) <==> #[trigger] has_edge_print(b, x)
}

fn stage_sort_keys(stages: &[StageInfo]) -> (r: Vec<(u128, u128)>)
    ensures
        r@ == Seq::new(stages@.len(), |k: int| stage_sort_key(stages@[k])),
{
    let mut r: Vec<(u128, u128)> = Vec::new();
    let mut k: usize = 0;
    while k < stages.len()
        invariant
            k <= stages@.len(),
            r@ == Seq::new(k as nat, |j: int| stage_sort_key(stages@[j])),
        decreases stages.len() - k,
    {
        r.push((stages[k].id.value, 0));
        proof {
            assert(r@ =~= Seq::new((k + 1) as nat, |j: int| stage_sort_key(stages@[j])));
        }
        k = k + 1;
    }
    r
}

fn edge_sort_keys(edges: &[DirectedEdge]) -> (r: Vec<(u128, u128)>)
    ensures
        r@ == Seq::new(edges@.len(), |k: int| edge_sort_key(edges@[k])),
{
    let mut r: Vec<(u128, u128)> = Vec::new();
    let mut k: usize = 0;
    while k < edges.len()
        invariant
            k <= edges@.len(),
            r@ == Seq::new(k as nat, |j: int| edge_sort_key(edges@[j])),
        decreases edges.len() - k,
    {
        r.push((edges[k].from.value, edges[k].to.value));
        proof {
            assert(r@ =~= Seq::new((k + 1) as nat, |j: int| edge_sort_key(edges@[j])));
        }
        k = k + 1;
    }
    r
}

/// The sort keys of the stages, position by position.
pub open spec fn stage_keys(stages: Seq<StageInfo>) -> Seq<(u128, u128)> {
    Seq::new(stages.len(), |k: int| stage_sort_key(stages[k]))
}

/// The sort keys of the edges, position by position.
pub open spec fn edge_keys(edges: Seq<DirectedEdge>) -> Seq<(u128, u128)> {
    Seq::new(edges.len(), |k: int| edge_sort_key(edges[k]))
}

/// The length word that precedes a 16-byte array in the hash input: the
/// value 16 as 8 little-endian bytes (the `usize` a 64-bit little-endian
/// target writes; the same 8 bytes on every target).
pub open spec fn length_word() -> Seq<u8> {
    seq![16u8, 0u8, 0u8, 0u8, 0u8, 0u8, 0u8, 0u8]
}

/// The discriminant word of an edge kind: 0 for `Forward`, 1 for
/// `Backward`, as 8 little-endian bytes.
pub open spec fn kind_word(k: EdgeKind) -> Seq<u8> {
    match k {
        EdgeKind::Forward => seq![0u8, 0u8, 0u8, 0u8, 0u8, 0u8, 0u8, 0u8],
        EdgeKind::Backward => seq![1u8, 0u8, 0u8, 0u8, 0u8, 0u8, 0u8, 0u8],
    }
}

/// The writes the fingerprint makes for one stage: its id as a 16-byte
/// array (the length word, then the 16 big-endian bytes), its name in
/// UTF-8 and a `0xff` terminator, the name of its type and another `0xff`.
pub open spec fn stage_print_writes(x: (u128, Seq<char>, StageType)) -> Seq<Seq<u8>> {
    seq![length_word(), be_bytes(x.0), encode_utf8(x.1), seq![0xffu8], encode_utf8(stage_type_name(x.2)), seq![0xffu8]]
}

/// The writes the fingerprint makes for one edge: each endpoint as a
/// 16-byte array (length word, then big-endian bytes), then the
/// discriminant word of its kind.
pub open spec fn edge_print_writes(x: (u128, u128, EdgeKind)) -> Seq<Seq<u8>> {
    seq![length_word(), be_bytes(x.0), length_word(), be_bytes(x.1), kind_word(x.2)]
}

fn kind_word_bytes(kind: EdgeKind) -> (r: [u8; 8])
    ensures
        r@ == kind_word(kind),
{
    let r: [u8; 8] = match kind {
        EdgeKind::Forward => [0u8, 0, 0, 0, 0, 0, 0, 0],
        EdgeKind::Backward => [1u8, 0, 0, 0, 0, 0, 0, 0],
    };
    proof {
        assert(r@ =~= kind_word(kind));
    }
    r
}

/// The writes for a run of stage prints, in order.
pub open spec fn stage_stream(ps: Seq<(u128, Seq<char>, StageType)>) -> Seq<Seq<u8>>
    decreases ps.len(),
{
    if ps.len() == 0 {
        Seq::empty()
    } else {
        stage_stream(ps.drop_last()) + stage_print_writes(ps.last())
    }
}

/// The writes for a run of edge prints, in order.
pub open spec fn edge_stream(ps: Seq<(u128, u128, EdgeKind)>) -> Seq<Seq<u8>>
    decreases ps.len(),
{
    if ps.len() == 0 {
        Seq::empty()
    } else {
        edge_stream(ps.drop_last()) + edge_print_writes(ps.last())
    }
}

/// Everything the fingerprint feeds its hasher: the stages, then the edges.
pub open spec fn fingerprint_writes(
    sp: Seq<(u128, Seq<char>, StageType)>,
    ep: Seq<(u128, u128, EdgeKind)>,
) -> Seq<Seq<u8>> {
    stage_stream(sp) + edge_stream(ep)
}

impl Topology {
    /// The positions of the stages in increasing order of id: the order in
    /// which the fingerprint reads them.
    pub fn fingerprint_stage_order(&self) -> (o: Vec<usize>)
        ensures
            sorts(Seq::new(self.stage_list().len(), |k: int| stage_sort_key(self.stage_list()[k])), o@),
    {
        proof {
            use_type_invariant(self);
        }
        let keys = stage_sort_keys(self.stages.as_slice());
        proof {
            assert forall|i: int, j: int| 0 <= i < keys@.len() && 0 <= j < keys@.len() && i != j implies
                #[trigger] keys@[i] != #[trigger] keys@[j] by {
                assert(self.stages@[i].id != self.stages@[j].id);
            }
        }
        sorted_order(keys.as_slice())
    }

    /// The positions of the edges in increasing order of `(from, to)`: the
    /// order in which the fingerprint reads them.
    pub fn fingerprint_edge_order(&self) -> (o: Vec<usize>)
        ensures
            sorts(Seq::new(self.edge_list().len(), |k: int| edge_sort_key(self.edge_list()[k])), o@),
    {
        proof {
            use_type_invariant(self);
        }
        let keys = edge_sort_keys(self.edges.as_slice());
        proof {
            let ev = self.edges@;
            assert forall|i: int, j: int| 0 <= i < keys@.len() && 0 <= j < keys@.len() && i != j implies
                #[trigger] keys@[i] != #[trigger] keys@[j] by {
                if keys@[i] == keys@[j] {
                    let (a, b) = if i < j { (i, j) } else { (j, i) };
                    assert(ev[a].from == ev[b].from && ev[a].to == ev[b].to);
                    assert(crate::validation::duplicate_at(ev, b));
                    assert(edge_fault(self.stages@, ev, b));
                }
            }
        }
        sorted_order(keys.as_slice())
    }

    /// Deterministic hash of the structure: the stage ids, names and types in
    /// increasing order of id, then the edge endpoints and kinds in
    /// increasing order of `(from, to)`, fed to a `DefaultHasher` as their
    /// `Hash` impls feed them on a 64-bit little-endian target (each id as a
    /// 16-byte array after its length word, each string followed by `0xff`,
    /// each kind as its discriminant word). The length and discriminant
    /// words are written as fixed little-endian bytes, so the value is the
    /// same on every target. Input order and annotations do not enter it.
    pub fn topology_fingerprint(&self) -> (r: u64)
        ensures
            is_fingerprint(*self, r),
    {
        proof {
            use_type_invariant(self);
        }
        let stage_order = self.fingerprint_stage_order();
        let edge_order = self.fingerprint_edge_order();
        let ghost sv = self.stages@;
        let ghost ev = self.edges@;
        let ghost so = stage_order@;
        let ghost eo = edge_order@;
        proof {
            assert(stage_keys(sv) == Seq::new(sv.len(), |j: int| stage_sort_key(sv[j])));
            assert(edge_keys(ev) == Seq::new(ev.len(), |j: int| edge_sort_key(ev[j])));
        }
        let sep: [u8; 1] = [0xffu8];
        let prefix: [u8; 8] = [16u8, 0, 0, 0, 0, 0, 0, 0];
        proof {
            assert(sep@ =~= seq![0xffu8]);
            assert(prefix@ =~= length_word());
        }
        let mut hasher = DefaultHasher::new();
        let mut k: usize = 0;
        proof {
            assert(prints_along(sv, so.subrange(0, 0)) =~= Seq::empty());
        }
        while k < stage_order.len()
            invariant
                self.wf(),
                sv == self.stages@,
                so == stage_order@,
                sep@ == seq![0xffu8],
                prefix@ == length_word(),
                sorts(stage_keys(sv), so),
                k <= so.len(),
                hasher@ == stage_stream(prints_along(sv, so.subrange(0, k as int))),
            decreases stage_order.len() - k,
        {
            let stage = &self.stages[stage_order[k]];
            let bytes = stage.id.to_bytes();
            hasher.write(prefix.as_slice());
            hasher.write(bytes.as_slice());
            hasher.write(stage.name.as_str().as_bytes());
            hasher.write(sep.as_slice());
            hasher.write(stage.stage_type.as_str().as_bytes());
            hasher.write(sep.as_slice());
            proof {
                let pre = prints_along(sv, so.subrange(0, k as int));
                let post = prints_along(sv, so.subrange(0, k + 1));
                assert(post.drop_last() =~= pre);
                assert(post.last() == stage_print(sv[so[k as int] as int]));
            }
            k = k + 1;
        }
        let ghost mid = hasher@;
        let mut k: usize = 0;
        proof {
            assert(so.subrange(0, so.len() as int) =~= so);
            assert(edge_prints_along(ev, eo.subrange(0, 0)) =~= Seq::empty());
            assert(mid + edge_stream(Seq::empty()) =~= mid);
        }
        while k < edge_order.len()
            invariant
                self.wf(),
                ev == self.edges@,
                eo == edge_order@,
                prefix@ == length_word(),
                sorts(edge_keys(ev), eo),
                k <= eo.len(),
                hasher@ == mid + edge_stream(edge_prints_along(ev, eo.subrange(0, k as int))),
            decreases edge_order.len() - k,
        {
            let edge = &self.edges[edge_order[k]];
            let from = edge.from.to_bytes();
            let to = edge.to.to_bytes();
            let kind = kind_word_bytes(edge.kind);
            hasher.write(prefix.as_slice());
            hasher.write(from.as_slice());
            hasher.write(prefix.as_slice());
            hasher.write(to.as_slice());
            hasher.write(kind.as_slice());
            proof {
                let pre = edge_prints_along(ev, eo.subrange(0, k as int));
                let post = edge_prints_along(ev, eo.subrange(0, k + 1));
                assert(post.drop_last() =~= pre);
                assert(post.last() == edge_print(ev[eo[k as int] as int]));
            }
            k = k + 1;
        }
        proof {
            assert(eo.subrange(0, eo.len() as int) =~= eo);
        }
        hasher.finish()
    }
}

/// The fingerprint reads the same stage prints and edge prints, in the same
/// order, from any two topologies with the same stages (id, name, type) and
/// the same edges (endpoints, kind), whatever the order they were given in
/// and whatever annotations they carry.
pub proof fn lemma_fingerprint_input_canonical(
    t1: Topology,
    t2: Topology,
    so1: Seq<usize>,
    so2: Seq<usize>,
    eo1: Seq<usize>,
    eo2: Seq<usize>,
)
    requires
        t1.wf(),
        t2.wf(),
        same_stage_prints(t1.stage_list(), t2.stage_list()),
        same_edge_prints(t1.edge_list(), t2.edge_list()),
        sorts(Seq::new(t1.stage_list().len(), |k: int| stage_sort_key(t1.stage_list()[k])), so1),
        sorts(Seq::new(t2.stage_list().len(), |k: int| stage_sort_key(t2.stage_list()[k])), so2),
        sorts(Seq::new(t1.edge_list().len(), |k: int| edge_sort_key(t1.edge_list()[k])), eo1),
        sorts(Seq::new(t2.edge_list().len(), |k: int| edge_sort_key(t2.edge_list()[k])), eo2),
    ensures
        prints_along(t1.stage_list(), so1) == prints_along(t2.stage_list(), so2),
        edge_prints_along(t1.edge_list(), eo1) == edge_prints_along(t2.edge_list(), eo2),
{
    lemma_stage_prints_sorted(t1.stage_list(), so1);
    lemma_stage_prints_sorted(t2.stage_list(), so2);
    let a = prints_along(t1.stage_list(), so1);
    let b = prints_along(t2.stage_list(), so2);
    let skey = |x: (u128, Seq<char>, StageType)| (x.0, 0u128);
    assert forall|i: int, j: int| 0 <= i < j < a.len() implies pair_lt(skey(#[trigger] a[i]), skey(#[trigger] a[j])) by {}
    assert forall|i: int, j: int| 0 <= i < j < b.len() implies pair_lt(skey(#[trigger] b[i]), skey(#[trigger] b[j])) by {}
    assert forall|x: (u128, Seq<char>, StageType)| a.contains(x) <==> b.contains(x) by {
        assert(a.contains(x) <==> has_stage_print(t1.stage_list(), x));
        assert(b.contains(x) <==> has_stage_print(t2.stage_list(), x));
    }
    lemma_sorted_unique(a, b, skey);

    lemma_edge_prints_sorted(t1.edge_list(), eo1);
    lemma_edge_prints_sorted(t2.edge_list(), eo2);
    let c = edge_prints_along(t1.edge_list(), eo1);
    let d = edge_prints_along(t2.edge_list(), eo2);
    let ekey = |x: (u128, u128, EdgeKind)| (x.0, x.1);
    assert forall|i: int, j: int| 0 <= i < j < c.len() implies pair_lt(ekey(#[trigger] c[i]), ekey(#[trigger] c[j])) by {}
    assert forall|i: int, j: int| 0 <= i < j < d.len() implies pair_lt(ekey(#[trigger] d[i]), ekey(#[trigger] d[j])) by {}
    assert forall|x: (u128, u128, EdgeKind)| c.contains(x) <==> d.contains(x) by {
        assert(c.contains(x) <==> has_edge_print(t1.edge_list(), x));
        assert(d.contains(x) <==> has_edge_print(t2.edge_list(), x));
    }
    lemma_sorted_unique(c, d, ekey);
}

/// Along a sorting order, the stage prints increase by id and are exactly
/// the prints of the stages.
proof fn lemma_stage_prints_sorted(stages: Seq<StageInfo>, o: Seq<usize>)
    requires
        stages.len() <= usize::MAX,
        sorts(Seq::new(stages.len(), |k: int| stage_sort_key(stages[k])), o),
    ensures
        forall|i: int, j: int| 0 <= i < j < o.len() ==> #[trigger] prints_along(stages, o)[i].0 < #[trigger] prints_along(stages, o)[j].0,
        forall|x: (u128, Seq<char>, StageType)| #[trigger] prints_along(stages, o).contains(x) <==> has_stage_print(stages, x),
{
    let keys = Seq::new(stages.len(), |k: int| stage_sort_key(stages[k]));
    let a = prints_along(stages, o);
    assert forall|i: int, j: int| 0 <= i < j < o.len() implies #[trigger] a[i].0 < #[trigger] a[j].0 by {
        assert(pair_lt(keys[o[i] as int], keys[o[j] as int]));
    }
    assert forall|x: (u128, Seq<char>, StageType)| #[trigger] a.contains(x) <==> has_stage_print(stages, x) by {
        if a.contains(x) {
            let k = choose|k: int| 0 <= k < a.len() && a[k] == x;
            assert(o[k] < stages.len());
            assert(stage_print(stages[o[k] as int]) == x);
        }
        if exists|i: int| 0 <= i < stages.len() && #[trigger] stage_print(stages[i]) == x {
            let i = choose|i: int| 0 <= i < stages.len() && #[trigger] stage_print(stages[i]) == x;
            assert(o.contains(i as usize));
            let k = choose|k: int| 0 <= k < o.len() && o[k] == i as usize;
            assert(a[k] == x);
        }
    }
}

/// Along a sorting order, the edge prints increase by `(from, to)` and are
/// exactly the prints of the edges.
proof fn lemma_edge_prints_sorted(edges: Seq<DirectedEdge>, o: Seq<usize>)
    requires
        edges.len() <= usize::MAX,
        sorts(Seq::new(edges.len(), |k: int| edge_sort_key(edges[k])), o),
    ensures
        forall|i: int, j: int| 0 <= i < j < o.len() ==> pair_lt(
            (#[trigger] edge_prints_along(edges, o)[i].0, edge_prints_along(edges, o)[i].1),
            (#[trigger] edge_prints_along(edges, o)[j].0, edge_prints_along(edges, o)[j].1),
        ),
        forall|x: (u128, u128, EdgeKind)| #[trigger] edge_prints_along(edges, o).contains(x) <==> has_edge_print(edges, x),
{
    let keys = Seq::new(edges.len(), |k: int| edge_sort_key(edges[k]));
    let a = edge_prints_along(edges, o);
    assert forall|i: int, j: int| 0 <= i < j < o.len() implies pair_lt((#[trigger] a[i].0, a[i].1), (#[trigger] a[j].0, a[j].1)) by {
        assert(pair_lt(keys[o[i] as int], keys[o[j] as int]));
    }
    assert forall|x: (u128, u128, EdgeKind)| #[trigger] a.contains(x) <==> has_edge_print(edges, x) by {
        if a.contains(x) {
            let k = choose|k: int| 0 <= k < a.len() && a[k] == x;
            assert(o[k] < edges.len());
            assert(edge_print(edges[o[k] as int]) == x);
        }
        if exists|i: int| 0 <= i < edges.len() && #[trigger] edge_print(edges[i]) == x {
            let i = choose|i: int| 0 <= i < edges.len() && #[trigger] edge_print(edges[i]) == x;
            assert(o.contains(i as usize));
            let k = choose|k: int| 0 <= k < o.len() && o[k] == i as usize;
            assert(a[k] == x);
        }
    }
}

// ------------------------------------------------------------ SCC identity

/// Two lists with the same members have the same least member.
proof fn lemma_least_of_members(c1: Seq<StageId>, c2: Seq<StageId>)
    requires
        forall|x: StageId| c1.contains(x) <==> c2.contains(x),
        is_least(c1, least_of(c1)),
    ensures
        least_of(c1) == least_of(c2),
        is_least(c2, least_of(c2)),
{
    let x = least_of(c1);
    assert(is_least(c2, x));
    let y = least_of(c2);
    assert(is_least(c2, y));
    assert(c1.contains(y));
    assert(x.value <= y.value && y.value <= x.value);
}

/// Two graphs over the same stage ids with the same linked pairs have the
/// same reachability facts.
proof fn lemma_same_graph(t1: Topology, t2: Topology)
    requires
        t1.wf(),
        t2.wf(),
        forall|id: StageId| has_stage(t1.stage_list(), id) <==> has_stage(t2.stage_list(), id),
        forall|a: StageId, b: StageId| edge_between(t1.edge_list(), a, b) <==> edge_between(t2.edge_list(), a, b),
    ensures
        forall|a: StageId, b: StageId| reaches(t1.adjacency(), a, b) == #[trigger] reaches(t2.adjacency(), a, b),
        forall|v: StageId| #[trigger] reached_from_stages(stage_ids(t1.stage_list()), t1.adjacency(), v)
            == reached_from_stages(stage_ids(t2.stage_list()), t2.adjacency(), v),
        forall|v: StageId| #[trigger] cyclic(t1.adjacency(), v) == cyclic(t2.adjacency(), v),
{
    let adj1 = t1.adjacency();
    let adj2 = t2.adjacency();
    let ids1 = stage_ids(t1.stage_list());
    let ids2 = stage_ids(t2.stage_list());
    assert forall|a: StageId, b: StageId| reaches(adj1, a, b) == #[trigger] reaches(adj2, a, b) by {
        assert forall|x: StageId, y: StageId| #[trigger] adj_has(adj1, x, y) <==> #[trigger] adj_has(adj2, x, y) by {
            assert(adj_has(adj1, x, y) <==> edge_between(t1.edge_list(), x, y));
            assert(adj_has(adj2, x, y) <==> edge_between(t2.edge_list(), x, y));
        }
        crate::graph::lemma_same_links_reaches(adj1, adj2, a, b);
    }
    assert forall|v: StageId| #[trigger] reached_from_stages(ids1, adj1, v) == reached_from_stages(ids2, adj2, v) by {
        if reached_from_stages(ids1, adj1, v) {
            let i = choose|i: int| 0 <= i < ids1.len() && reaches(adj1, #[trigger] ids1[i], v);
            assert(t1.stage_list()[i].id == ids1[i]);
            assert(has_stage(t1.stage_list(), ids1[i]));
            assert(has_stage(t2.stage_list(), ids1[i]));
            let j = choose|j: int| 0 <= j < t2.stage_list().len() && (#[trigger] t2.stage_list()[j]).id == ids1[i];
            assert(ids2[j] == ids1[i]);
            assert(reaches(adj2, ids2[j], v));
        }
        if reached_from_stages(ids2, adj2, v) {
            let i = choose|i: int| 0 <= i < ids2.len() && reaches(adj2, #[trigger] ids2[i], v);
            assert(t2.stage_list()[i].id == ids2[i]);
            assert(has_stage(t2.stage_list(), ids2[i]));
            assert(has_stage(t1.stage_list(), ids2[i]));
            let j = choose|j: int| 0 <= j < t1.stage_list().len() && (#[trigger] t1.stage_list()[j]).id == ids2[i];
            assert(ids1[j] == ids2[i]);
            assert(reaches(adj1, ids1[j], v));
        }
    }
    assert forall|v: StageId| #[trigger] cyclic(adj1, v) == cyclic(adj2, v) by {
        assert(adj_has(adj1, v, v) <==> edge_between(t1.edge_list(), v, v));
        assert(adj_has(adj2, v, v) <==> edge_between(t2.edge_list(), v, v));
        if on_cycle(adj1, v) {
            let u = choose|u: StageId| u != v && #[trigger] mutually_reach(adj1, v, u);
            assert(mutually_reach(adj2, v, u));
        }
        if on_cycle(adj2, v) {
            let u = choose|u: StageId| u != v && #[trigger] mutually_reach(adj2, v, u);
            assert(mutually_reach(adj1, v, u));
        }
    }
}

/// A component of one list of cycle components is a component of the other
/// list, with the same members and least member.
proof fn lemma_component_in_other(
    ids1: Seq<StageId>,
    adj1: Seq<(StageId, Vec<StageId>)>,
    r1: Seq<Vec<StageId>>,
    ids2: Seq<StageId>,
    adj2: Seq<(StageId, Vec<StageId>)>,
    r2: Seq<Vec<StageId>>,
    k: int,
)
    requires
        cycle_components(ids1, adj1, r1),
        cycle_components(ids2, adj2, r2),
        forall|a: StageId, b: StageId| reaches(adj1, a, b) == #[trigger] reaches(adj2, a, b),
        forall|v: StageId| #[trigger] reached_from_stages(ids1, adj1, v) == reached_from_stages(ids2, adj2, v),
        forall|v: StageId| #[trigger] cyclic(adj1, v) == cyclic(adj2, v),
        0 <= k < r1.len(),
    ensures
        exists|l: int| 0 <= l < r2.len() && #[trigger] least_of(r2[l]@) == least_of(r1[k]@),
{
    reveal(cycle_components);
    let x = least_of(r1[k]@);
    assert(is_least(r1[k]@, x));
    assert(r1[k]@.contains(x));
    assert(reached_from_stages(ids1, adj1, x) && cyclic(adj1, x));
    assert(reached_from_stages(ids2, adj2, x) && cyclic(adj2, x));
    let l = choose|l: int| 0 <= l < r2.len() && #[trigger] r2[l]@.contains(x);
    assert forall|w: StageId| r1[k]@.contains(w) <==> r2[l]@.contains(w) by {
        assert(r1[k]@.contains(w) <==> mutually_reach(adj1, x, w));
        assert(r2[l]@.contains(w) <==> mutually_reach(adj2, x, w));
    }
    lemma_least_of_members(r1[k]@, r2[l]@);
}

/// The members of a component are the stages mutually reachable with its
/// least member.
proof fn lemma_component_by_least(ids: Seq<StageId>, adj: Seq<(StageId, Vec<StageId>)>, r: Seq<Vec<StageId>>, k: int, x: StageId)
    requires
        cycle_components(ids, adj, r),
        0 <= k < r.len(),
    ensures
        r[k]@.contains(x) <==> mutually_reach(adj, least_of(r[k]@), x),
        forall|i: int, j: int| 0 <= i < j < r.len() ==> least_of((#[trigger] r[i])@).value < least_of((#[trigger] r[j])@).value,
{
    reveal(cycle_components);
    let m = least_of(r[k]@);
    assert(is_least(r[k]@, m));
    assert(r[k]@.contains(m));
}

/// SCC identifiers are deterministic: two topologies with the same stage
/// ids and the same linked pairs list the same components under the same
/// identifiers, whatever the order of their stages and edges.
pub proof fn lemma_scc_ids_deterministic(t1: Topology, t2: Topology)
    requires
        t1.wf(),
        t2.wf(),
        forall|id: StageId| has_stage(t1.stage_list(), id) <==> has_stage(t2.stage_list(), id),
        forall|a: StageId, b: StageId| edge_between(t1.edge_list(), a, b) <==> edge_between(t2.edge_list(), a, b),
    ensures
        t1.scc_list().len() == t2.scc_list().len(),
        forall|k: int, x: StageId| 0 <= k < t1.scc_list().len() ==>
            (t1.scc_list()[k]@.contains(x) <==> t2.scc_list()[k]@.contains(x)),
{
    lemma_same_graph(t1, t2);
    let adj1 = t1.adjacency();
    let adj2 = t2.adjacency();
    let ids1 = stage_ids(t1.stage_list());
    let ids2 = stage_ids(t2.stage_list());
    let r1 = t1.scc_list();
    let r2 = t2.scc_list();
    let l1 = Seq::new(r1.len(), |k: int| least_of(r1[k]@));
    let l2 = Seq::new(r2.len(), |k: int| least_of(r2[k]@));
    let key = |x: StageId| (x.value, 0u128);
    if r1.len() > 0 {
        lemma_component_by_least(ids1, adj1, r1, 0, l1[0]);
    }
    if r2.len() > 0 {
        lemma_component_by_least(ids2, adj2, r2, 0, l2[0]);
    }
    assert forall|i: int, j: int| 0 <= i < j < l1.len() implies pair_lt(key(#[trigger] l1[i]), key(#[trigger] l1[j])) by {
        assert(least_of(r1[i]@).value < least_of(r1[j]@).value);
    }
    assert forall|i: int, j: int| 0 <= i < j < l2.len() implies pair_lt(key(#[trigger] l2[i]), key(#[trigger] l2[j])) by {
        assert(least_of(r2[i]@).value < least_of(r2[j]@).value);
    }
    assert forall|x: StageId| l1.contains(x) <==> l2.contains(x) by {
        if l1.contains(x) {
            let k = choose|k: int| 0 <= k < l1.len() && l1[k] == x;
            lemma_component_in_other(ids1, adj1, r1, ids2, adj2, r2, k);
            let l = choose|l: int| 0 <= l < r2.len() && #[trigger] least_of(r2[l]@) == least_of(r1[k]@);
            assert(l2[l] == x);
        }
        if l2.contains(x) {
            let l = choose|l: int| 0 <= l < l2.len() && l2[l] == x;
            lemma_component_in_other(ids2, adj2, r2, ids1, adj1, r1, l);
            let k = choose|k: int| 0 <= k < r1.len() && #[trigger] least_of(r1[k]@) == least_of(r2[l]@);
            assert(l1[k] == x);
        }
    }
    lemma_sorted_unique(l1, l2, key);
    assert(l1.len() == l2.len());
    assert forall|k: int, x: StageId| 0 <= k < r1.len() implies (r1[k]@.contains(x) <==> r2[k]@.contains(x)) by {
        assert(l1[k] == l2[k]);
        lemma_component_by_least(ids1, adj1, r1, k, x);
        lemma_component_by_least(ids2, adj2, r2, k, x);
    }
}


// ------------------------------------------------------------ laws

/// The SCC identifiers name a partition of the cycle stages: every listed
/// component has at least two stages, and no stage lies in two components.
pub proof fn lemma_scc_components_partition(t: Topology, k1: int, k2: int, x: StageId)
    requires
        t.wf(),
        0 <= k1 < t.scc_list().len(),
        0 <= k2 < t.scc_list().len(),
    ensures
        t.scc_list()[k1]@.len() >= 2,
        k1 != k2 ==> !(t.scc_list()[k1]@.contains(x) && t.scc_list()[k2]@.contains(x)),
{
    reveal(cycle_components);
    let c = t.scc_list()[k1]@;
    let m = least_of(c);
    assert(is_least(c, m));
    lemma_scc_ids_are_mutual_reach(t, k1, m, m);
    let u = choose|u: StageId| u != m && #[trigger] mutually_reach(t.adjacency(), m, u);
    lemma_scc_ids_are_mutual_reach(t, k1, m, u);
    assert(c.contains(u));
    let i = choose|i: int| 0 <= i < c.len() && c[i] == m;
    let j = choose|j: int| 0 <= j < c.len() && c[j] == u;
    assert(i != j);
}

/// A stage list whose ids are distinct is its own stage map: the
/// constructors keep every stage, in the order given.
pub proof fn lemma_stage_map_distinct(s: Seq<StageInfo>)
    requires
        distinct_ids(s),
    ensures
        stage_map(s) == s,
    decreases s.len(),
{
    if s.len() > 0 {
        let t = s.drop_last();
        assert(distinct_ids(t)) by {
            assert forall|i: int, j: int| 0 <= i < t.len() && 0 <= j < t.len() && i != j implies
                (#[trigger] t[i]).id != (#[trigger] t[j]).id by {
                assert(t[i] == s[i] && t[j] == s[j]);
            }
        }
        lemma_stage_map_distinct(t);
        if has_stage(t, s.last().id) {
            let i = choose|i: int| 0 <= i < t.len() && (#[trigger] t[i]).id == s.last().id;
            assert(s[i].id == s[s.len() - 1].id);
        }
        assert(t.push(s.last()) =~= s);
    }
}

/// `r` is the fingerprint of `t`: the hash of its stage prints in order of
/// id and its edge prints in order of endpoints.
pub open spec fn is_fingerprint(t: Topology, r: u64) -> bool {
    exists|so: Seq<usize>, eo: Seq<usize>|
        #![trigger sorts(stage_keys(t.stage_list()), so), sorts(edge_keys(t.edge_list()), eo)]
        sorts(stage_keys(t.stage_list()), so) && sorts(edge_keys(t.edge_list()), eo)
        && r == DefaultHasher::spec_finish(fingerprint_writes(
            prints_along(t.stage_list(), so),
            edge_prints_along(t.edge_list(), eo),
        ))
}

/// Two topologies with the same stages (id, name, type) and the same edges
/// (endpoints, kind) have the same fingerprint, whatever order the stages
/// and edges were given in and whatever annotations they carry.
pub proof fn lemma_fingerprint_ignores_order_and_annotations(t1: Topology, t2: Topology, r1: u64, r2: u64)
    requires
        t1.wf(),
        t2.wf(),
        same_stage_prints(t1.stage_list(), t2.stage_list()),
        same_edge_prints(t1.edge_list(), t2.edge_list()),
        is_fingerprint(t1, r1),
        is_fingerprint(t2, r2),
    ensures
        r1 == r2,
{
    let (so1, eo1) = choose|so: Seq<usize>, eo: Seq<usize>|
        #![trigger sorts(stage_keys(t1.stage_list()), so), sorts(edge_keys(t1.edge_list()), eo)]
        sorts(stage_keys(t1.stage_list()), so) && sorts(edge_keys(t1.edge_list()), eo)
        && r1 == DefaultHasher::spec_finish(fingerprint_writes(
            prints_along(t1.stage_list(), so),
            edge_prints_along(t1.edge_list(), eo),
        ));
    let (so2, eo2) = choose|so: Seq<usize>, eo: Seq<usize>|
        #![trigger sorts(stage_keys(t2.stage_list()), so), sorts(edge_keys(t2.edge_list()), eo)]
        sorts(stage_keys(t2.stage_list()), so) && sorts(edge_keys(t2.edge_list()), eo)
        && r2 == DefaultHasher::spec_finish(fingerprint_writes(
            prints_along(t2.stage_list(), so),
            edge_prints_along(t2.edge_list(), eo),
        ));
    lemma_fingerprint_input_canonical(t1, t2, so1, so2, eo1, eo2);
}

/// The other ends of the edges at `id`, in edge order: the targets of the
/// edges leaving it when `outgoing`, the sources of those entering it
/// otherwise.
pub open spec fn targets_of(edges: Seq<DirectedEdge>, id: StageId, outgoing: bool) -> Seq<StageId>
    decreases edges.len(),
{
    if edges.len() == 0 {
        Seq::empty()
    } else {
        let rest = targets_of(edges.drop_last(), id, outgoing);
        let e = edges.last();
        if outgoing && e.from == id {
            rest.push(e.to)
        } else if !outgoing && e.to == id {
            rest.push(e.from)
        } else {
            rest
        }
    }
}

proof fn lemma_targets_of(edges: Seq<DirectedEdge>, id: StageId, outgoing: bool)
    requires
        forall|i: int| 0 <= i < edges.len() ==> !crate::validation::duplicate_at(edges, i),
    ensures
        targets_of(edges, id, outgoing).len() == degree(edges, id, outgoing),
        targets_of(edges, id, outgoing).no_duplicates(),
        forall|x: StageId| #[trigger] targets_of(edges, id, outgoing).contains(x)
            <==> (if outgoing { edge_between(edges, id, x) } else { edge_between(edges, x, id) }),
    decreases edges.len(),
{
    if edges.len() > 0 {
        let t = edges.drop_last();
        let n = edges.len() - 1;
        assert forall|i: int| 0 <= i < t.len() implies !crate::validation::duplicate_at(t, i) by {
            if crate::validation::duplicate_at(t, i) {
                let j = choose|j: int| 0 <= j < i && (#[trigger] t[j]).from == t[i].from && t[j].to == t[i].to;
                assert(edges[j] == t[j] && edges[i] == t[i]);
                assert(crate::validation::duplicate_at(edges, i));
            }
        }
        lemma_targets_of(t, id, outgoing);
        let rest = targets_of(t, id, outgoing);
        assert forall|x: StageId| edge_between(edges, id, x) <==> edge_between(t, id, x) || (edges[n].from == id && edges[n].to == x) by {
            if edge_between(edges, id, x) {
                let i = choose|i: int| 0 <= i < edges.len() && (#[trigger] edges[i]).from == id && edges[i].to == x;
                if i < n {
                    assert(t[i] == edges[i]);
                }
            }
            if edge_between(t, id, x) {
                let i = choose|i: int| 0 <= i < t.len() && (#[trigger] t[i]).from == id && t[i].to == x;
                assert(edges[i] == t[i]);
            }
        }
        assert forall|x: StageId| edge_between(edges, x, id) <==> edge_between(t, x, id) || (edges[n].from == x && edges[n].to == id) by {
            if edge_between(edges, x, id) {
                let i = choose|i: int| 0 <= i < edges.len() && (#[trigger] edges[i]).from == x && edges[i].to == id;
                if i < n {
                    assert(t[i] == edges[i]);
                }
            }
            if edge_between(t, x, id) {
                let i = choose|i: int| 0 <= i < t.len() && (#[trigger] t[i]).from == x && t[i].to == id;
                assert(edges[i] == t[i]);
            }
        }
        let e = edges[n];
        assert(edges.last() == e);
        if outgoing && e.from == id {
            if rest.contains(e.to) {
                assert(edge_between(t, id, e.to));
                let i = choose|i: int| 0 <= i < t.len() && (#[trigger] t[i]).from == id && t[i].to == e.to;
                assert(edges[i] == t[i]);
                assert(crate::validation::duplicate_at(edges, n));
            }
            assert forall|x: StageId| #[trigger] rest.push(e.to).contains(x) <==> rest.contains(x) || x == e.to by {
                if rest.push(e.to).contains(x) {
                    let k = choose|k: int| 0 <= k < rest.len() + 1 && rest.push(e.to)[k] == x;
                    if k < rest.len() {
                        assert(rest[k] == x);
                    }
                }
                if rest.contains(x) {
                    let k = choose|k: int| 0 <= k < rest.len() && rest[k] == x;
                    assert(rest.push(e.to)[k] == x);
                }
                assert(rest.push(e.to)[rest.len() as int] == e.to);
            }
        } else if !outgoing && e.to == id {
            if rest.contains(e.from) {
                assert(edge_between(t, e.from, id));
                let i = choose|i: int| 0 <= i < t.len() && (#[trigger] t[i]).from == e.from && t[i].to == id;
                assert(edges[i] == t[i]);
                assert(crate::validation::duplicate_at(edges, n));
            }
            assert forall|x: StageId| #[trigger] rest.push(e.from).contains(x) <==> rest.contains(x) || x == e.from by {
                if rest.push(e.from).contains(x) {
                    let k = choose|k: int| 0 <= k < rest.len() + 1 && rest.push(e.from)[k] == x;
                    if k < rest.len() {
                        assert(rest[k] == x);
                    }
                }
                if rest.contains(x) {
                    let k = choose|k: int| 0 <= k < rest.len() && rest[k] == x;
                    assert(rest.push(e.from)[k] == x);
                }
                assert(rest.push(e.from)[rest.len() as int] == e.from);
            }
        }
    }
}

/// The fan-out and fan-in that the metrics take their maxima of are the
/// sizes of the downstream and upstream stage lists: in a well-formed
/// topology no pair of stages is linked twice, so a stage has as many
/// outgoing (incoming) edges as it has downstream (upstream) stages.
pub proof fn lemma_degree_counts_neighbours(t: Topology, id: StageId, outgoing: bool, r: Seq<StageId>)
    requires
        t.wf(),
        r.no_duplicates(),
        forall|x: StageId| r.contains(x) <==> (if outgoing { edge_between(t.edge_list(), id, x) } else {
            edge_between(t.edge_list(), x, id) }),
    ensures
        r.len() == degree(t.edge_list(), id, outgoing),
{
    let ev = t.edge_list();
    assert forall|j: int| 0 <= j < ev.len() implies !crate::validation::duplicate_at(ev, j) by {
        assert(!edge_fault(t.stage_list(), ev, j));
    }
    lemma_targets_of(ev, id, outgoing);
    let q = targets_of(ev, id, outgoing);
    assert(r.to_set() =~= q.to_set()) by {
        assert forall|x: StageId| r.to_set().contains(x) <==> q.to_set().contains(x) by {
            assert(r.to_set().contains(x) == r.contains(x));
            assert(q.to_set().contains(x) == q.contains(x));
        }
    }
    r.unique_seq_to_set();
    q.unique_seq_to_set();
}

/// When validation fails at one level it fails at every higher level, and
/// on a check the lower level runs. The checks run in the same order at
/// every level and the first failing one decides the error, so the error a
/// lower level reports is the one every higher level reports.
pub proof fn lemma_failure_persists(
    stages: Seq<StageInfo>,
    edges: Seq<DirectedEdge>,
    adj: Seq<(StageId, Vec<StageId>)>,
    subs: Seq<TopologySubgraphInfo>,
    lower: ValidationLevel,
    higher: ValidationLevel,
)
    requires
        level_rank(lower) <= level_rank(higher),
        !level_holds(stages, edges, adj, subs, lower),
    ensures
        !level_holds(stages, edges, adj, subs, higher),
        !structure_ok(stages, edges) || !boundaries_ok(edges, subs)
            || (level_rank(lower) >= 1 && !connections_ok(stages, edges))
            || (level_rank(lower) >= 2 && !flow_ok(stages, adj)),
{
}

/// Full construction is unvalidated construction followed by validation at
/// the full level: along the adjacency of the edges, `new` accepts exactly
/// the inputs whose stage map passes the structural checks, whose SCC
/// indices fit in a `u32`, and that pass full validation; where the
/// structural checks fail it reports the error the unvalidated constructor
/// reports.
pub proof fn lemma_new_is_unvalidated_then_full(
    stages: Seq<StageInfo>,
    edges: Seq<DirectedEdge>,
    adj: Seq<(StageId, Vec<StageId>)>,
    e: TopologyError,
)
    requires
        links_of(adj, edges),
    ensures
        new_accepts(stages, edges) <==> structure_ok(stage_map(stages), edges) && sccs_fit(stage_map(stages), edges)
            && level_holds(stage_map(stages), edges, adj, Seq::<TopologySubgraphInfo>::empty(), ValidationLevel::Full),
        !structure_ok(stage_map(stages), edges) ==> (is_level_error(e, stage_map(stages), edges, adj,
            Seq::<TopologySubgraphInfo>::empty()) <==> is_structure_error(e, stage_map(stages), edges)),
{
    let m = stage_map(stages);
    assert forall|adj2: Seq<(StageId, Vec<StageId>)>| links_of(adj2, edges) implies
        flow_ok(m, adj2) == flow_ok(m, adj) by {
        lemma_flow_same_links(m, adj2, adj);
    }
}

/// The structural checks report one thing.
proof fn lemma_structure_error_unique(e1: TopologyError, e2: TopologyError, stages: Seq<StageInfo>, edges: Seq<DirectedEdge>)
    requires
        is_structure_error(e1, stages, edges),
        is_structure_error(e2, stages, edges),
    ensures
        same_report(e1, e2),
{
    if exists|i: int| 0 <= i < edges.len() && edge_fault(stages, edges, i) {
        let i1 = choose|i: int| 0 <= i < edges.len() && #[trigger] edge_fault(stages, edges, i)
            && (forall|j: int| 0 <= j < i ==> !edge_fault(stages, edges, j))
            && is_edge_error(e1, stages, edges[i]);
        let i2 = choose|i: int| 0 <= i < edges.len() && #[trigger] edge_fault(stages, edges, i)
            && (forall|j: int| 0 <= j < i ==> !edge_fault(stages, edges, j))
            && is_edge_error(e2, stages, edges[i]);
        assert(i1 == i2);
    } else if exists|i: int| 0 <= i < edges.len() && (#[trigger] edges[i]).from == edges[i].to {
        let i1 = choose|i: int| 0 <= i < edges.len() && (#[trigger] edges[i]).from == edges[i].to
            && (forall|j: int| 0 <= j < i ==> edges[j].from != edges[j].to)
            && (e1 matches TopologyError::SelfCycle { stage } && stage@ == stage_named(stages, edges[i].from).name@);
        let i2 = choose|i: int| 0 <= i < edges.len() && (#[trigger] edges[i]).from == edges[i].to
            && (forall|j: int| 0 <= j < i ==> edges[j].from != edges[j].to)
            && (e2 matches TopologyError::SelfCycle { stage } && stage@ == stage_named(stages, edges[i].from).name@);
        assert(i1 == i2);
    }
}

/// The composite-boundary checks report one thing.
proof fn lemma_boundary_error_unique(e1: TopologyError, e2: TopologyError, edges: Seq<DirectedEdge>, subs: Seq<TopologySubgraphInfo>)
    requires
        is_boundary_error(e1, edges, subs),
        is_boundary_error(e2, edges, subs),
    ensures
        same_report(e1, e2),
{
    if exists|i: int| 0 <= i < subs.len() && !crate::boundary::ownership_ok(#[trigger] subs[i]) {
        let (i1, p1, q1, a1, b1) = choose|i: int, j1: int, j2: int, a: int, b: int| 0 <= i < subs.len()
            && (forall|ii: int| 0 <= ii < i ==> crate::boundary::ownership_ok(#[trigger] subs[ii]))
            && #[trigger] crate::boundary::first_shared(subs[i], j1, j2, a, b)
            && crate::boundary::ownership_report(e1, subs, i, j1, j2, a);
        let (i2, p2, q2, a2, b2) = choose|i: int, j1: int, j2: int, a: int, b: int| 0 <= i < subs.len()
            && (forall|ii: int| 0 <= ii < i ==> crate::boundary::ownership_ok(#[trigger] subs[ii]))
            && #[trigger] crate::boundary::first_shared(subs[i], j1, j2, a, b)
            && crate::boundary::ownership_report(e2, subs, i, j1, j2, a);
        assert(!crate::boundary::ownership_ok(subs[i1]));
        assert(!crate::boundary::ownership_ok(subs[i2]));
        assert(i1 == i2);
        assert(crate::boundary::shared_payload(subs[i1], p2, q2, a2, b2));
        assert(crate::boundary::shared_payload(subs[i1], p1, q1, a1, b1));
        assert(!crate::boundary::visited_before(p2, q2, a2, b2, p1, q1, a1, b1));
        assert(!crate::boundary::visited_before(p1, q1, a1, b1, p2, q2, a2, b2));
        assert(p1 == p2 && q1 == q2 && a1 == a2);
    } else if exists|x: int, k: int| #[trigger] crate::boundary::bad_ref(edges, subs, x, k) {
        let (x1, k1) = choose|x: int, k: int| #[trigger] crate::boundary::first_bad_ref(edges, subs, x, k)
            && crate::boundary::ref_report(e1, edges, subs, x, k);
        let (x2, k2) = choose|x: int, k: int| #[trigger] crate::boundary::first_bad_ref(edges, subs, x, k)
            && crate::boundary::ref_report(e2, edges, subs, x, k);
        assert(crate::boundary::bad_ref(edges, subs, x1, k1));
        assert(crate::boundary::bad_ref(edges, subs, x2, k2));
        assert(x1 == x2 && k1 == k2);
        let r = edges[x1].composite_ports@[k1];
        if crate::boundary::names_port(subs, r) {
            let (i1, j1) = choose|i: int, j: int| #[trigger] crate::boundary::first_named(subs, i, j, r)
                && crate::boundary::mismatch_report(e1, edges, subs, x1, i, j);
            let (i2, j2) = choose|i: int, j: int| #[trigger] crate::boundary::first_named(subs, i, j, r)
                && crate::boundary::mismatch_report(e2, edges, subs, x1, i, j);
            assert(crate::boundary::port_named(subs, i1, j1, r));
            assert(crate::boundary::port_named(subs, i2, j2, r));
            assert(i1 == i2 && j1 == j2);
        }
    } else {
        let (x1, i1) = choose|x: int, i: int| #[trigger] crate::boundary::first_unbound(edges, subs, x, i)
            && crate::boundary::unbound_report(e1, edges, subs, x, i);
        let (x2, i2) = choose|x: int, i: int| #[trigger] crate::boundary::first_unbound(edges, subs, x, i)
            && crate::boundary::unbound_report(e2, edges, subs, x, i);
        assert(crate::boundary::unbound_at(edges, subs, x1, i1));
        assert(crate::boundary::unbound_at(edges, subs, x2, i2));
        assert(x1 == x2 && i1 == i2);
    }
}

/// Validation is deterministic: every error the level checks may report
/// reports the same thing (same variant, ids, types and roles, strings of
/// the same text, lists of the same items). With `lemma_failure_persists`,
/// the error a lower level returns is the error every higher level returns.
pub proof fn lemma_level_error_unique(
    e1: TopologyError,
    e2: TopologyError,
    stages: Seq<StageInfo>,
    edges: Seq<DirectedEdge>,
    adj: Seq<(StageId, Vec<StageId>)>,
    subs: Seq<TopologySubgraphInfo>,
)
    requires
        is_level_error(e1, stages, edges, adj, subs),
        is_level_error(e2, stages, edges, adj, subs),
    ensures
        same_report(e1, e2),
{
    if !structure_ok(stages, edges) {
        lemma_structure_error_unique(e1, e2, stages, edges);
    } else if !boundaries_ok(edges, subs) {
        lemma_boundary_error_unique(e1, e2, edges, subs);
    } else if !connections_ok(stages, edges) {
        let i1 = choose|i: int| 0 <= i < edges.len() && !edge_allowed(stages, #[trigger] edges[i])
            && (forall|j: int| 0 <= j < i ==> edge_allowed(stages, edges[j]))
            && is_rejection(e1, stage_named(stages, edges[i].from), stage_named(stages, edges[i].to), edges[i].kind);
        let i2 = choose|i: int| 0 <= i < edges.len() && !edge_allowed(stages, #[trigger] edges[i])
            && (forall|j: int| 0 <= j < i ==> edge_allowed(stages, edges[j]))
            && is_rejection(e2, stage_named(stages, edges[i].from), stage_named(stages, edges[i].to), edges[i].kind);
        assert(i1 == i2);
    }
}

/// Lists of cycle components over the same stages, along adjacencies that
/// link the same pairs, have the same number of components.
proof fn lemma_component_count_unique(
    ids: Seq<StageId>,
    adj1: Seq<(StageId, Vec<StageId>)>,
    r1: Seq<Vec<StageId>>,
    adj2: Seq<(StageId, Vec<StageId>)>,
    r2: Seq<Vec<StageId>>,
)
    requires
        cycle_components(ids, adj1, r1),
        cycle_components(ids, adj2, r2),
        forall|a: StageId, b: StageId| #[trigger] adj_has(adj1, a, b) <==> #[trigger] adj_has(adj2, a, b),
    ensures
        r1.len() == r2.len(),
{
    assert forall|a: StageId, b: StageId| reaches(adj1, a, b) == #[trigger] reaches(adj2, a, b) by {
        crate::graph::lemma_same_links_reaches(adj1, adj2, a, b);
    }
    assert forall|v: StageId| #[trigger] reached_from_stages(ids, adj1, v) == reached_from_stages(ids, adj2, v) by {
        if reached_from_stages(ids, adj1, v) {
            let i = choose|i: int| 0 <= i < ids.len() && reaches(adj1, #[trigger] ids[i], v);
            assert(reaches(adj2, ids[i], v));
        }
        if reached_from_stages(ids, adj2, v) {
            let i = choose|i: int| 0 <= i < ids.len() && reaches(adj2, #[trigger] ids[i], v);
            assert(reaches(adj1, ids[i], v));
        }
    }
    assert forall|v: StageId| #[trigger] cyclic(adj1, v) == cyclic(adj2, v) by {
        if on_cycle(adj1, v) {
            let u = choose|u: StageId| u != v && #[trigger] mutually_reach(adj1, v, u);
            assert(mutually_reach(adj2, v, u));
        }
        if on_cycle(adj2, v) {
            let u = choose|u: StageId| u != v && #[trigger] mutually_reach(adj2, v, u);
            assert(mutually_reach(adj1, v, u));
        }
    }
    let l1 = Seq::new(r1.len(), |k: int| least_of(r1[k]@));
    let l2 = Seq::new(r2.len(), |k: int| least_of(r2[k]@));
    let key = |x: StageId| (x.value, 0u128);
    if r1.len() > 0 {
        lemma_component_by_least(ids, adj1, r1, 0, l1[0]);
    }
    if r2.len() > 0 {
        lemma_component_by_least(ids, adj2, r2, 0, l2[0]);
    }
    assert forall|i: int, j: int| 0 <= i < j < l1.len() implies pair_lt(key(#[trigger] l1[i]), key(#[trigger] l1[j])) by {
        assert(least_of(r1[i]@).value < least_of(r1[j]@).value);
    }
    assert forall|i: int, j: int| 0 <= i < j < l2.len() implies pair_lt(key(#[trigger] l2[i]), key(#[trigger] l2[j])) by {
        assert(least_of(r2[i]@).value < least_of(r2[j]@).value);
    }
    assert forall|x: StageId| l1.contains(x) <==> l2.contains(x) by {
        if l1.contains(x) {
            let k = choose|k: int| 0 <= k < l1.len() && l1[k] == x;
            lemma_component_in_other(ids, adj1, r1, ids, adj2, r2, k);
            let l = choose|l: int| 0 <= l < r2.len() && #[trigger] least_of(r2[l]@) == least_of(r1[k]@);
            assert(l2[l] == x);
        }
        if l2.contains(x) {
            let l = choose|l: int| 0 <= l < l2.len() && l2[l] == x;
            lemma_component_in_other(ids, adj2, r2, ids, adj1, r1, l);
            let k = choose|k: int| 0 <= k < r1.len() && #[trigger] least_of(r1[k]@) == least_of(r2[l]@);
            assert(l1[k] == x);
        }
    }
    lemma_sorted_unique(l1, l2, key);
    assert(l1.len() == l2.len());
}

/// Edge lists that agree on their endpoints give every stage the same other
/// ends.
proof fn lemma_targets_same_ends(e1: Seq<DirectedEdge>, e2: Seq<DirectedEdge>, id: StageId, outgoing: bool)
    requires
        e1.len() == e2.len(),
        forall|i: int| 0 <= i < e1.len() ==> (#[trigger] e1[i]).from == e2[i].from && e1[i].to == e2[i].to,
    ensures
        targets_of(e1, id, outgoing) == targets_of(e2, id, outgoing),
    decreases e1.len(),
{
    if e1.len() > 0 {
        assert forall|i: int| 0 <= i < e1.drop_last().len() implies (#[trigger] e1.drop_last()[i]).from == e2.drop_last()[i].from
            && e1.drop_last()[i].to == e2.drop_last()[i].to by {
            assert(e1.drop_last()[i] == e1[i]);
            assert(e2.drop_last()[i] == e2[i]);
        }
        lemma_targets_same_ends(e1.drop_last(), e2.drop_last(), id, outgoing);
        assert(e1.last() == e1[e1.len() - 1]);
        assert(e2.last() == e2[e2.len() - 1]);
    }
}

} // verus!
