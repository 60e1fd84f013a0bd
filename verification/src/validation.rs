//! Topology validation: structural checks, connection semantics, and the
//! reachability invariants of a complete flow.

use vstd::prelude::*;
use vstd::string::*;
use crate::edge::{DirectedEdge, EdgeKind, operator_text};
use crate::graph::{
    adj_has, reaches, build_numbering, mark_reachable, numbering, reached_from, idx_reach, idx_edge, idx_mutual,
    lemma_idx_reach_iff, lemma_mutual_iff, lemma_on_cycle_iff, lemma_reach_stays_numbered, lemma_idx_reach_trans,
    lemma_mutual_equiv, mutually_reach, on_cycle, reach_matrix, is_reach_matrix, nontrivial_flags, has_self_edge,
    cycle_classes, classes_ok, ids_at, graph_wf, is_walk, idx_cycle, successor_reaching, cycle_from,
};
use crate::ids::{StageId, ulid_text};
use crate::annotations::PortDirection;
use crate::index::{position_index, position_of_value, touched_values, holds_value, pair_key_of};
use std::collections::HashSet;
use crate::stage_info::StageInfo;
use crate::stage_type::{StageRole, StageType, spec_role, stage_type_name, role_debug_name};

verus! {

/// Errors reported by topology validation.
#[derive(Debug, Clone)]
pub enum TopologyError {
    /// An edge names a stage that does not exist.
    InvalidEdge { from: StageId, to: StageId, reason: String },
    /// The same `(from, to)` pair occurs twice.
    DuplicateEdge { from: StageId, to: StageId },
    /// A cycle, as the closed walk `stages[0] -> ... -> stages[last] == stages[0]`.
    CycleDetected { stages: Vec<StageId> },
    /// Stages with no incoming and no outgoing edge.
    DisconnectedStages { stages: Vec<StageId> },
    /// A stage connects to itself.
    SelfCycle { stage: String },
    /// An edge whose kind is not allowed between the roles of its endpoints.
    InvalidConnection {
        from: StageId,
        from_name: String,
        from_type: StageType,
        from_role: StageRole,
        to: StageId,
        to_name: String,
        to_type: StageType,
        to_role: StageRole,
        operator: String,
        reason: String,
    },
    /// No stage has the Producer role.
    NoSources,
    /// No stage has the Consumer role.
    NoSinks,
    /// Stages that no Producer reaches.
    UnreachableStages { stages: Vec<StageId> },
    /// Stages that reach no Consumer.
    UnproductiveStages { stages: Vec<StageId> },
    /// More strongly connected components than a `u32` can number.
    SccIndexOverflow { index: usize },
    /// An edge crosses the boundary of a composite that declares ports, but
    /// names none of its ports.
    UnboundCompositeCrossing { from: StageId, to: StageId, subgraph_id: String },
    /// An edge names a port that no composite declares.
    UnknownCompositePort { from: StageId, to: StageId, subgraph_id: String, port_name: String },
    /// An edge names a declared port that it does not cross: wrong
    /// direction, or not at the port's member stage.
    CompositePortMismatch {
        from: StageId,
        to: StageId,
        subgraph_id: String,
        port_name: String,
        direction: PortDirection,
    },
    /// One payload type is owned by two ports of the same direction.
    OverlappingPayloadOwnership {
        subgraph_id: String,
        payload: String,
        direction: PortDirection,
        first_port: String,
        second_port: String,
    },
}

/// Two errors report the same thing: the same variant with the same ids,
/// types, roles and directions, strings of the same text and lists of the
/// same items.
pub open spec fn same_report(a: TopologyError, b: TopologyError) -> bool {
    match (a, b) {
        (TopologyError::InvalidEdge { from: f1, to: t1, reason: r1 }, TopologyError::InvalidEdge { from: f2, to: t2, reason: r2 }) =>
            f1 == f2 && t1 == t2 && r1@ == r2@,
        (TopologyError::DuplicateEdge { from: f1, to: t1 }, TopologyError::DuplicateEdge { from: f2, to: t2 }) =>
            f1 == f2 && t1 == t2,
        (TopologyError::CycleDetected { stages: s1 }, TopologyError::CycleDetected { stages: s2 }) => s1@ == s2@,
        (TopologyError::DisconnectedStages { stages: s1 }, TopologyError::DisconnectedStages { stages: s2 }) => s1@ == s2@,
        (TopologyError::SelfCycle { stage: s1 }, TopologyError::SelfCycle { stage: s2 }) => s1@ == s2@,
        (
            TopologyError::InvalidConnection {
                from: f1, from_name: fn1, from_type: ft1, from_role: fr1, to: t1, to_name: tn1, to_type: tt1,
                to_role: tr1, operator: o1, reason: r1,
            },
            TopologyError::InvalidConnection {
                from: f2, from_name: fn2, from_type: ft2, from_role: fr2, to: t2, to_name: tn2, to_type: tt2,
                to_role: tr2, operator: o2, reason: r2,
            },
        ) => f1 == f2 && fn1@ == fn2@ && ft1 == ft2 && fr1 == fr2 && t1 == t2 && tn1@ == tn2@ && tt1 == tt2
            && tr1 == tr2 && o1@ == o2@ && r1@ == r2@,
        (TopologyError::NoSources, TopologyError::NoSources) => true,
        (TopologyError::NoSinks, TopologyError::NoSinks) => true,
        (TopologyError::UnreachableStages { stages: s1 }, TopologyError::UnreachableStages { stages: s2 }) => s1@ == s2@,
        (TopologyError::UnproductiveStages { stages: s1 }, TopologyError::UnproductiveStages { stages: s2 }) => s1@ == s2@,
        (TopologyError::SccIndexOverflow { index: i1 }, TopologyError::SccIndexOverflow { index: i2 }) => i1 == i2,
        (
            TopologyError::UnboundCompositeCrossing { from: f1, to: t1, subgraph_id: g1 },
            TopologyError::UnboundCompositeCrossing { from: f2, to: t2, subgraph_id: g2 },
        ) => f1 == f2 && t1 == t2 && g1@ == g2@,
        (
            TopologyError::UnknownCompositePort { from: f1, to: t1, subgraph_id: g1, port_name: p1 },
            TopologyError::UnknownCompositePort { from: f2, to: t2, subgraph_id: g2, port_name: p2 },
        ) => f1 == f2 && t1 == t2 && g1@ == g2@ && p1@ == p2@,
        (
            TopologyError::CompositePortMismatch { from: f1, to: t1, subgraph_id: g1, port_name: p1, direction: d1 },
            TopologyError::CompositePortMismatch { from: f2, to: t2, subgraph_id: g2, port_name: p2, direction: d2 },
        ) => f1 == f2 && t1 == t2 && g1@ == g2@ && p1@ == p2@ && d1 == d2,
        (
            TopologyError::OverlappingPayloadOwnership {
                subgraph_id: g1, payload: l1, direction: d1, first_port: a1, second_port: b1,
            },
            TopologyError::OverlappingPayloadOwnership {
                subgraph_id: g2, payload: l2, direction: d2, first_port: a2, second_port: b2,
            },
        ) => g1@ == g2@ && l1@ == l2@ && d1 == d2 && a1@ == a2@ && b1@ == b2@,
        _ => false,
    }
}

/// Result type for topology validation operations
pub type ValidationResult<T> = Result<T, TopologyError>;

// ------------------------------------------------------ connection semantics

/// The connections the role matrix allows: forward from a producer or
/// processor into a processor or consumer, and backward from a processor or
/// consumer into a processor.
pub open spec fn connection_allowed(from_role: StageRole, to_role: StageRole, kind: EdgeKind) -> bool {
    match kind {
        EdgeKind::Forward => from_role != StageRole::Consumer && to_role != StageRole::Producer,
        EdgeKind::Backward => from_role != StageRole::Producer && to_role == StageRole::Processor,
    }
}

/// The role matrix: a connection is allowed exactly on six triples. Forward
/// (`|>`) from a producer into a processor or a consumer, and from a
/// processor into a processor or a consumer; backward (`<|`) from a
/// processor or a consumer into a processor. Everything else, in particular
/// any forward edge into a producer, is rejected.
pub proof fn lemma_role_matrix(f: StageRole, t: StageRole, k: EdgeKind)
    ensures
        connection_allowed(f, t, k) <==> {
            ||| k == EdgeKind::Forward && f == StageRole::Producer && t == StageRole::Processor
            ||| k == EdgeKind::Forward && f == StageRole::Producer && t == StageRole::Consumer
            ||| k == EdgeKind::Forward && f == StageRole::Processor && t == StageRole::Processor
            ||| k == EdgeKind::Forward && f == StageRole::Processor && t == StageRole::Consumer
            ||| k == EdgeKind::Backward && f == StageRole::Processor && t == StageRole::Processor
            ||| k == EdgeKind::Backward && f == StageRole::Consumer && t == StageRole::Processor
        },
{
}

/// Nothing is piped into a source: a forward edge into a finite or an
/// infinite source is rejected, whatever stage it comes from, a source
/// included.
pub proof fn lemma_nothing_piped_into_a_source(from_type: StageType, to_type: StageType)
    requires
        to_type == StageType::FiniteSource || to_type == StageType::InfiniteSource,
    ensures
        !connection_allowed(spec_role(from_type), spec_role(to_type), EdgeKind::Forward),
{
}

/// The reason given for a rejected connection.
pub open spec fn rejection_reason(from_type: StageType, to_type: StageType, kind: EdgeKind) -> Seq<char> {
    let fr = spec_role(from_type);
    let tr = spec_role(to_type);
    match (fr, tr, kind) {
        (StageRole::Processor, StageRole::Producer, EdgeKind::Backward) =>
            "Cannot route data into a producer (source) via <| operator"@,
        (StageRole::Consumer, StageRole::Consumer, EdgeKind::Backward) =>
            "Backflow is only allowed into processor stages (transform/stateful/join)"@,
        (StageRole::Consumer, StageRole::Producer, EdgeKind::Backward) =>
            "Producers cannot consume data; consumers cannot send backflow into producers"@,
        (StageRole::Producer, _, EdgeKind::Backward) =>
            "Producers (sources) cannot consume data via <| operator"@,
        (_, StageRole::Producer, EdgeKind::Forward) => "Cannot pipe data into a producer (source)"@,
        (StageRole::Consumer, _, EdgeKind::Forward) => "Consumers (sinks) cannot produce data via |> operator"@,
        _ => "Invalid connection: "@ + stage_type_name(from_type) + " ("@ + role_debug_name(fr) + ") "@
            + operator_text(kind) + " "@ + stage_type_name(to_type) + " ("@ + role_debug_name(tr) + ")"@,
    }
}

/// `e` is the error that rejects the connection `from -> to` of kind `kind`.
pub open spec fn is_rejection(e: TopologyError, from: StageInfo, to: StageInfo, kind: EdgeKind) -> bool {
    match e {
        TopologyError::InvalidConnection {
            from: f,
            from_name,
            from_type,
            from_role,
            to: t,
            to_name,
            to_type,
            to_role,
            operator,
            reason,
        } => {
            &&& f == from.id
            &&& from_name@ == from.name@
            &&& from_type == from.stage_type
            &&& from_role == spec_role(from.stage_type)
            &&& t == to.id
            &&& to_name@ == to.name@
            &&& to_type == to.stage_type
            &&& to_role == spec_role(to.stage_type)
            &&& operator@ == operator_text(kind)
            &&& reason@ == rejection_reason(from.stage_type, to.stage_type, kind)
        },
        _ => false,
    }
}

fn rejection_text(from_type: StageType, to_type: StageType, kind: EdgeKind) -> (r: String)
    requires
        !connection_allowed(spec_role(from_type), spec_role(to_type), kind),
    ensures
        r@ == rejection_reason(from_type, to_type, kind),
{
    let fr = from_type.role();
    let tr = to_type.role();
    match (fr, tr, kind) {
        (StageRole::Processor, StageRole::Producer, EdgeKind::Backward) =>
            String::from_str("Cannot route data into a producer (source) via <| operator"),
        (StageRole::Consumer, StageRole::Consumer, EdgeKind::Backward) =>
            String::from_str("Backflow is only allowed into processor stages (transform/stateful/join)"),
        (StageRole::Consumer, StageRole::Producer, EdgeKind::Backward) =>
            String::from_str("Producers cannot consume data; consumers cannot send backflow into producers"),
        (StageRole::Producer, _, EdgeKind::Backward) =>
            String::from_str("Producers (sources) cannot consume data via <| operator"),
        (_, StageRole::Producer, EdgeKind::Forward) => String::from_str("Cannot pipe data into a producer (source)"),
        (StageRole::Consumer, _, EdgeKind::Forward) =>
            String::from_str("Consumers (sinks) cannot produce data via |> operator"),
        _ => {
            let mut s = String::from_str("Invalid connection: ");
            s.append(from_type.as_str());
            s.append(" (");
            s.append(fr.debug_name());
            s.append(") ");
            s.append(kind.as_str());
            s.append(" ");
            s.append(to_type.as_str());
            s.append(" (");
            s.append(tr.debug_name());
            s.append(")");
            s
        },
    }
}

/// Validate a single connection based on the roles of its endpoints and the
/// edge kind.
pub fn validate_connection_semantics(from: &StageInfo, to: &StageInfo, kind: EdgeKind) -> (r: ValidationResult<()>)
    ensures
        connection_allowed(spec_role(from.stage_type), spec_role(to.stage_type), kind) <==> r is Ok,
        r matches Err(e) ==> is_rejection(e, *from, *to, kind),
        kind == EdgeKind::Forward && (to.stage_type == StageType::FiniteSource
            || to.stage_type == StageType::InfiniteSource) ==> r is Err,
{
    let from_role = from.stage_type.role();
    let to_role = to.stage_type.role();
    let allowed = match kind {
        EdgeKind::Forward => from_role != StageRole::Consumer && to_role != StageRole::Producer,
        EdgeKind::Backward => from_role != StageRole::Producer && to_role == StageRole::Processor,
    };
    if allowed {
        Ok(())
    } else {
        let reason = rejection_text(from.stage_type, to.stage_type, kind);
        Err(TopologyError::InvalidConnection {
            from: from.id,
            from_name: from.name.clone(),
            from_type: from.stage_type,
            from_role,
            to: to.id,
            to_name: to.name.clone(),
            to_type: to.stage_type,
            to_role,
            operator: String::from_str(kind.as_str()),
            reason,
        })
    }
}

// ------------------------------------------------------------ stage lists

/// Some stage in `stages` has this id.
pub open spec fn has_stage(stages: Seq<StageInfo>, id: StageId) -> bool {
    exists|i: int| 0 <= i < stages.len() && (#[trigger] stages[i]).id == id
}

/// The stage ids are pairwise distinct (the stages form a map by id).
pub open spec fn distinct_ids(stages: Seq<StageInfo>) -> bool {
    forall|i: int, j: int| 0 <= i < stages.len() && 0 <= j < stages.len() && i != j ==> (#[trigger] stages[i]).id != (#[trigger] stages[j]).id
}

/// The ids of the stages, in order.
pub open spec fn stage_ids(stages: Seq<StageInfo>) -> Seq<StageId> {
    Seq::new(stages.len(), |i: int| stages[i].id)
}

/// The stage with this id (meaningful when there is exactly one).
pub open spec fn stage_named(stages: Seq<StageInfo>, id: StageId) -> StageInfo {
    stages[choose|i: int| 0 <= i < stages.len() && (#[trigger] stages[i]).id == id]
}

/// The ids of `ids` that satisfy `p`, in order.
pub open spec fn keep_ids(ids: Seq<StageId>, p: spec_fn(StageId) -> bool) -> Seq<StageId>
    decreases ids.len(),
{
    if ids.len() == 0 {
        Seq::empty()
    } else if p(ids.last()) {
        keep_ids(ids.drop_last(), p).push(ids.last())
    } else {
        keep_ids(ids.drop_last(), p)
    }
}

pub proof fn lemma_keep_ids_step(ids: Seq<StageId>, p: spec_fn(StageId) -> bool, i: int)
    requires
        0 <= i < ids.len(),
    ensures
        keep_ids(ids.subrange(0, i + 1), p) == if p(ids[i]) {
            keep_ids(ids.subrange(0, i), p).push(ids[i])
        } else {
            keep_ids(ids.subrange(0, i), p)
        },
{
    let s = ids.subrange(0, i + 1);
    assert(s.drop_last() =~= ids.subrange(0, i));
    assert(s.last() == ids[i]);
}

pub proof fn lemma_keep_ids_empty(ids: Seq<StageId>, p: spec_fn(StageId) -> bool)
    ensures
        keep_ids(ids, p).len() == 0 <==> forall|i: int| 0 <= i < ids.len() ==> !p(#[trigger] ids[i]),
    decreases ids.len(),
{
    if ids.len() > 0 {
        lemma_keep_ids_empty(ids.drop_last(), p);
        assert forall|i: int| 0 <= i < ids.len() - 1 implies ids.drop_last()[i] == #[trigger] ids[i] by {}
        if forall|i: int| 0 <= i < ids.len() ==> !p(#[trigger] ids[i]) {
            assert(!p(ids[ids.len() - 1]));
            assert forall|i: int| 0 <= i < ids.drop_last().len() implies !p(#[trigger] ids.drop_last()[i]) by {
                assert(ids.drop_last()[i] == ids[i]);
            }
        }
    }
}

pub proof fn lemma_keep_ids_members(ids: Seq<StageId>, p: spec_fn(StageId) -> bool, x: StageId)
    ensures
        keep_ids(ids, p).contains(x) <==> (ids.contains(x) && p(x)),
    decreases ids.len(),
{
    if ids.len() > 0 {
        lemma_keep_ids_members(ids.drop_last(), p, x);
        let k = keep_ids(ids.drop_last(), p);
        if ids.contains(x) && p(x) {
            let i = choose|i: int| 0 <= i < ids.len() && ids[i] == x;
            if i < ids.len() - 1 {
                assert(ids.drop_last()[i] == x);
                assert(ids.drop_last().contains(x));
                if p(ids.last()) {
                    let j = choose|j: int| 0 <= j < k.len() && k[j] == x;
                    assert(k.push(ids.last())[j] == x);
                }
            } else {
                assert(keep_ids(ids, p) == k.push(x));
                assert(k.push(x)[k.len() as int] == x);
            }
        }
        if keep_ids(ids, p).contains(x) {
            if p(ids.last()) {
                let j = choose|j: int| 0 <= j < k.len() + 1 && k.push(ids.last())[j] == x;
                if j < k.len() {
                    assert(k[j] == x);
                    assert(k.contains(x));
                    let i = choose|i: int| 0 <= i < ids.drop_last().len() && ids.drop_last()[i] == x;
                    assert(ids[i] == x);
                } else {
                    assert(ids[ids.len() - 1] == x);
                }
            } else {
                let i = choose|i: int| 0 <= i < ids.drop_last().len() && ids.drop_last()[i] == x;
                assert(ids[i] == x);
            }
        }
    }
}

/// Position of the stage with this id.
pub fn find_stage(stages: &[StageInfo], id: StageId) -> (r: Option<usize>)
    ensures
        match r {
            Some(i) => i < stages@.len() && stages@[i as int].id == id,
            None => !has_stage(stages@, id),
        },
{
    let mut i: usize = 0;
    while i < stages.len()
        invariant
            i <= stages@.len(),
            forall|k: int| 0 <= k < i ==> stages@[k].id != id,
        decreases stages.len() - i,
    {
        if stages[i].id == id {
            return Some(i);
        }
        i = i + 1;
    }
    None
}

// ------------------------------------------------------ structural checks

/// An earlier edge links the same pair as edge `i`.
pub open spec fn duplicate_at(edges: Seq<DirectedEdge>, i: int) -> bool {
    exists|j: int| 0 <= j < i && (#[trigger] edges[j]).from == edges[i].from && edges[j].to == edges[i].to
}

/// Edge `i` names a missing stage or repeats an earlier pair.
pub open spec fn edge_fault(stages: Seq<StageInfo>, edges: Seq<DirectedEdge>, i: int) -> bool {
    !has_stage(stages, edges[i].from) || !has_stage(stages, edges[i].to) || duplicate_at(edges, i)
}

/// Some edge starts or ends at `id`.
pub open spec fn touches(edges: Seq<DirectedEdge>, id: StageId) -> bool {
    exists|i: int| 0 <= i < edges.len() && ((#[trigger] edges[i]).from == id || edges[i].to == id)
}

/// The ids of the stages no edge touches, in stage order.
pub open spec fn isolated_ids(stages: Seq<StageInfo>, edges: Seq<DirectedEdge>) -> Seq<StageId> {
    keep_ids(stage_ids(stages), |id: StageId| !touches(edges, id))
}

/// Structural soundness: every edge names existing stages, no pair repeats,
/// no edge is a self-loop, and every stage has an edge.
pub open spec fn structure_ok(stages: Seq<StageInfo>, edges: Seq<DirectedEdge>) -> bool {
    &&& forall|i: int| 0 <= i < edges.len() ==> !edge_fault(stages, edges, i)
    &&& forall|i: int| 0 <= i < edges.len() ==> (#[trigger] edges[i]).from != edges[i].to
    &&& forall|k: int| 0 <= k < stages.len() ==> touches(edges, (#[trigger] stages[k]).id)
}

/// `e` is the error reported for the faulty edge `edge`.
pub open spec fn is_edge_error(e: TopologyError, stages: Seq<StageInfo>, edge: DirectedEdge) -> bool {
    if !has_stage(stages, edge.from) {
        (e matches TopologyError::InvalidEdge { from, to, reason } && from == edge.from && to == edge.to
            && reason@ == "Source stage "@ + ulid_text(edge.from.value) + " not found"@)
    } else if !has_stage(stages, edge.to) {
        (e matches TopologyError::InvalidEdge { from, to, reason } && from == edge.from && to == edge.to
            && reason@ == "Target stage "@ + ulid_text(edge.to.value) + " not found"@)
    } else {
        (e matches TopologyError::DuplicateEdge { from, to } && from == edge.from && to == edge.to)
    }
}

/// The error the structural checks report, in the order they run: the first
/// faulty edge, then the first self-loop, then the isolated stages.
pub open spec fn is_structure_error(e: TopologyError, stages: Seq<StageInfo>, edges: Seq<DirectedEdge>) -> bool {
    if exists|i: int| 0 <= i < edges.len() && edge_fault(stages, edges, i) {
        exists|i: int| 0 <= i < edges.len() && #[trigger] edge_fault(stages, edges, i)
            && (forall|j: int| 0 <= j < i ==> !edge_fault(stages, edges, j))
            && is_edge_error(e, stages, edges[i])
    } else if exists|i: int| 0 <= i < edges.len() && (#[trigger] edges[i]).from == edges[i].to {
        exists|i: int| 0 <= i < edges.len() && (#[trigger] edges[i]).from == edges[i].to
            && (forall|j: int| 0 <= j < i ==> edges[j].from != edges[j].to)
            && (e matches TopologyError::SelfCycle { stage } && stage@ == stage_named(stages, edges[i].from).name@)
    } else {
        (e matches TopologyError::DisconnectedStages { stages: l } && l@ == isolated_ids(stages, edges))
    }
}

/// The hash key of an edge's pair of endpoints: the position of its source
/// in the high 64 bits, that of its target in the low 64 bits.
pub open spec fn pair_key(pm: Map<u128, usize>, e: DirectedEdge) -> int {
    pm[e.from.value] * 0x1_0000_0000_0000_0000 + pm[e.to.value]
}

/// Pair keys of positions below 2^64 are equal only for equal positions.
pub(crate) proof fn lemma_pair_key_injective(a1: int, b1: int, a2: int, b2: int)
    requires
        0 <= a1,
        0 <= a2,
        0 <= b1 < 0x1_0000_0000_0000_0000,
        0 <= b2 < 0x1_0000_0000_0000_0000,
        a1 * 0x1_0000_0000_0000_0000 + b1 == a2 * 0x1_0000_0000_0000_0000 + b2,
    ensures
        a1 == a2,
        b1 == b2,
{
    let x = a1 * 0x1_0000_0000_0000_0000 + b1;
    vstd::arithmetic::div_mod::lemma_fundamental_div_mod_converse(x, 0x1_0000_0000_0000_0000, a1, b1);
    vstd::arithmetic::div_mod::lemma_fundamental_div_mod_converse(x, 0x1_0000_0000_0000_0000, a2, b2);
}

/// Validate structural aspects of edges (endpoints, duplicates, self-cycles)
/// and stages (no isolated stage).
pub fn validate_edges_and_structure(stages: &[StageInfo], edges: &[DirectedEdge]) -> (r: ValidationResult<()>)
    requires
        distinct_ids(stages@),
    ensures
        r is Ok <==> structure_ok(stages@, edges@),
        r matches Err(e) ==> is_structure_error(e, stages@, edges@),
{
    let ghost sv = stages@;
    let ghost ev = edges@;
    let pos = position_index(stages);
    let ghost pm = pos@;
    let mut seen: HashSet<u128> = HashSet::new();
    let mut i: usize = 0;
    while i < edges.len()
        invariant
            i <= ev.len(),
            sv == stages@,
            ev == edges@,
            pm == pos@,
            distinct_ids(sv),
            forall|v: u128| #[trigger] pm.contains_key(v) <==> has_stage(sv, StageId { value: v }),
            forall|v: u128| #[trigger] pm.contains_key(v) ==> pm[v] < sv.len() && sv[pm[v] as int].id.value == v,
            forall|j: int| 0 <= j < i ==> !edge_fault(sv, ev, j),
            forall|k: u128| #[trigger] seen@.contains(k) <==> exists|j: int| 0 <= j < i && k == #[trigger] pair_key(pm, ev[j]),
        decreases edges.len() - i,
    {
        let e = &edges[i];
        let a = match position_of_value(&pos, e.from.value) {
            Some(a) => a,
            None => {
                let mut reason = String::from_str("Source stage ");
                let t = e.from.to_string();
                reason.append(t.as_str());
                reason.append(" not found");
                proof {
                    assert(!has_stage(sv, StageId { value: e.from.value }));
                    assert(edge_fault(sv, ev, i as int));
                }
                return Err(TopologyError::InvalidEdge { from: e.from, to: e.to, reason });
            },
        };
        let b = match position_of_value(&pos, e.to.value) {
            Some(b) => b,
            None => {
                let mut reason = String::from_str("Target stage ");
                let t = e.to.to_string();
                reason.append(t.as_str());
                reason.append(" not found");
                proof {
                    assert(!has_stage(sv, StageId { value: e.to.value }));
                    assert(edge_fault(sv, ev, i as int));
                }
                return Err(TopologyError::InvalidEdge { from: e.from, to: e.to, reason });
            },
        };
        let key = pair_key_of(a, b);
        proof {
            assert(key == pair_key(pm, ev[i as int]));
            assert(has_stage(sv, ev[i as int].from)) by {
                assert(pm.contains_key(e.from.value));
            }
            assert(has_stage(sv, ev[i as int].to)) by {
                assert(pm.contains_key(e.to.value));
            }
        }
        let fresh = seen.insert(key);
        if !fresh {
            proof {
                let j = choose|j: int| 0 <= j < i && key == #[trigger] pair_key(pm, ev[j]);
                assert(!edge_fault(sv, ev, j));
                assert(pm.contains_key(ev[j].from.value)) by {
                    assert(ev[j].from == StageId { value: ev[j].from.value });
                }
                assert(pm.contains_key(ev[j].to.value)) by {
                    assert(ev[j].to == StageId { value: ev[j].to.value });
                }
                lemma_pair_key_injective(a as int, b as int, pm[ev[j].from.value] as int, pm[ev[j].to.value] as int);
                assert(ev[j].from.value == ev[i as int].from.value);
                assert(ev[j].to.value == ev[i as int].to.value);
                assert(ev[j].from == ev[i as int].from);
                assert(ev[j].to == ev[i as int].to);
                assert(duplicate_at(ev, i as int));
                assert(edge_fault(sv, ev, i as int));
            }
            return Err(TopologyError::DuplicateEdge { from: e.from, to: e.to });
        }
        proof {
            assert(!duplicate_at(ev, i as int)) by {
                if duplicate_at(ev, i as int) {
                    let j = choose|j: int| 0 <= j < i && (#[trigger] ev[j]).from == ev[i as int].from && ev[j].to == ev[i as int].to;
                    assert(pair_key(pm, ev[j]) == pair_key(pm, ev[i as int]));
                }
            }
            assert(!edge_fault(sv, ev, i as int));
            assert forall|k: u128| #[trigger] seen@.contains(k) <==> exists|j: int| 0 <= j < i + 1 && k == #[trigger] pair_key(pm, ev[j]) by {
                if seen@.contains(k) && k != key {
                    let j = choose|j: int| 0 <= j < i && k == #[trigger] pair_key(pm, ev[j]);
                }
                if k == key {
                    assert(k == pair_key(pm, ev[i as int]));
                }
            }
        }
        i = i + 1;
    }
    let mut i: usize = 0;
    while i < edges.len()
        invariant
            i <= ev.len(),
            sv == stages@,
            ev == edges@,
            forall|j: int| 0 <= j < ev.len() ==> !edge_fault(sv, ev, j),
            forall|j: int| 0 <= j < i ==> (#[trigger] ev[j]).from != ev[j].to,
            distinct_ids(sv),
        decreases edges.len() - i,
    {
        if edges[i].from == edges[i].to {
            let k = match find_stage(stages, edges[i].from) {
                Some(k) => k,
                None => {
                    proof {
                        assert(!edge_fault(sv, ev, i as int));
                    }
                    0
                },
            };
            let name = stages[k].name.clone();
            proof {
                assert(has_stage(sv, ev[i as int].from));
                let c = choose|c: int| 0 <= c < sv.len() && (#[trigger] sv[c]).id == ev[i as int].from;
                assert(sv[c].id == sv[k as int].id);
                assert(c == k as int);
                assert(exists|i2: int| 0 <= i2 < ev.len() && (#[trigger] ev[i2]).from == ev[i2].to);
            }
            return Err(TopologyError::SelfCycle { stage: name });
        }
        i = i + 1;
    }
    let isolated = isolated_stages(stages, edges);
    if isolated.len() > 0 {
        proof {
            lemma_keep_ids_empty(stage_ids(sv), |id: StageId| !touches(ev, id));
            let k = choose|k: int| 0 <= k < stage_ids(sv).len() && !touches(ev, #[trigger] stage_ids(sv)[k]);
            assert(!touches(ev, sv[k].id));
        }
        return Err(TopologyError::DisconnectedStages { stages: isolated });
    }
    proof {
        lemma_keep_ids_empty(stage_ids(sv), |id: StageId| !touches(ev, id));
        assert forall|k: int| 0 <= k < sv.len() implies touches(ev, (#[trigger] sv[k]).id) by {
            assert(stage_ids(sv)[k] == sv[k].id);
        }
    }
    Ok(())
}

/// The ids of the stages that no edge touches, in stage order.
fn isolated_stages(stages: &[StageInfo], edges: &[DirectedEdge]) -> (r: Vec<StageId>)
    ensures
        r@ == isolated_ids(stages@, edges@),
{
    let ghost p = |id: StageId| !touches(edges@, id);
    let touched = touched_values(edges);
    let mut r: Vec<StageId> = Vec::new();
    let mut k: usize = 0;
    while k < stages.len()
        invariant
            k <= stages@.len(),
            p == (|id: StageId| !touches(edges@, id)),
            r@ == keep_ids(stage_ids(stages@).subrange(0, k as int), p),
            forall|v: u128| #[trigger] touched@.contains(v) <==> touches(edges@, StageId { value: v }),
        decreases stages.len() - k,
    {
        proof {
            lemma_keep_ids_step(stage_ids(stages@), p, k as int);
            assert(StageId { value: stages@[k as int].id.value } == stages@[k as int].id);
        }
        if !holds_value(&touched, stages[k].id.value) {
            r.push(stages[k].id);
        }
        k = k + 1;
    }
    proof {
        assert(stage_ids(stages@).subrange(0, stages@.len() as int) =~= stage_ids(stages@));
    }
    r
}

// ----------------------------------------------------- semantic checks

/// The edge is allowed between the roles of the stages it names.
pub open spec fn edge_allowed(stages: Seq<StageInfo>, e: DirectedEdge) -> bool {
    connection_allowed(
        spec_role(stage_named(stages, e.from).stage_type),
        spec_role(stage_named(stages, e.to).stage_type),
        e.kind,
    )
}

/// Every edge names stages of `stages`.
pub open spec fn endpoints_known(stages: Seq<StageInfo>, edges: Seq<DirectedEdge>) -> bool {
    forall|i: int| 0 <= i < edges.len() ==> has_stage(stages, (#[trigger] edges[i]).from) && has_stage(stages, edges[i].to)
}

pub proof fn lemma_stage_named(stages: Seq<StageInfo>, k: int)
    requires
        distinct_ids(stages),
        0 <= k < stages.len(),
    ensures
        stage_named(stages, stages[k].id) == stages[k],
{
    let c = choose|c: int| 0 <= c < stages.len() && (#[trigger] stages[c]).id == stages[k].id;
    assert(stages[c].id == stages[k].id);
}

/// Validate all edges semantically (roles + edge kind); the first edge that
/// breaks the role matrix is reported.
pub fn validate_all_connections(stages: &[StageInfo], edges: &[DirectedEdge]) -> (r: ValidationResult<()>)
    requires
        distinct_ids(stages@),
        endpoints_known(stages@, edges@),
    ensures
        r is Ok <==> forall|i: int| 0 <= i < edges@.len() ==> edge_allowed(stages@, #[trigger] edges@[i]),
        r matches Err(e) ==> exists|i: int| 0 <= i < edges@.len() && !edge_allowed(stages@, #[trigger] edges@[i])
            && (forall|j: int| 0 <= j < i ==> edge_allowed(stages@, edges@[j]))
            && is_rejection(e, stage_named(stages@, edges@[i].from), stage_named(stages@, edges@[i].to), edges@[i].kind),
{
    let pos = position_index(stages);
    let mut i: usize = 0;
    while i < edges.len()
        invariant
            i <= edges@.len(),
            distinct_ids(stages@),
            endpoints_known(stages@, edges@),
            forall|v: u128| #[trigger] pos@.contains_key(v) <==> has_stage(stages@, StageId { value: v }),
            forall|v: u128| #[trigger] pos@.contains_key(v) ==> pos@[v] < stages@.len() && stages@[pos@[v] as int].id.value == v,
            forall|j: int| 0 <= j < i ==> edge_allowed(stages@, #[trigger] edges@[j]),
        decreases edges.len() - i,
    {
        let e = &edges[i];
        proof {
            assert(has_stage(stages@, edges@[i as int].from));
            assert(has_stage(stages@, edges@[i as int].to));
            assert(StageId { value: e.from.value } == e.from);
            assert(StageId { value: e.to.value } == e.to);
        }
        let f = match position_of_value(&pos, e.from.value) {
            Some(f) => f,
            None => { proof { assert(false); } 0 },
        };
        let t = match position_of_value(&pos, e.to.value) {
            Some(t) => t,
            None => { proof { assert(false); } 0 },
        };
        proof {
            assert(stages@[f as int].id == e.from);
            assert(stages@[t as int].id == e.to);
        }
        proof {
            lemma_stage_named(stages@, f as int);
            lemma_stage_named(stages@, t as int);
        }
        let res = validate_connection_semantics(&stages[f], &stages[t], e.kind);
        match res {
            Ok(()) => {},
            Err(err) => {
                return Err(err);
            },
        }
        i = i + 1;
    }
    Ok(())
}

// ---------------------------------------------------- reachability checks

/// Some stage has this role.
pub open spec fn has_role(stages: Seq<StageInfo>, role: StageRole) -> bool {
    exists|i: int| 0 <= i < stages.len() && spec_role((#[trigger] stages[i]).stage_type) == role
}

/// Some Producer stage reaches `v`.
#[verifier::opaque]
pub open spec fn reached_by_producer(stages: Seq<StageInfo>, adj: Seq<(StageId, Vec<StageId>)>, v: StageId) -> bool {
    exists|i: int| 0 <= i < stages.len() && spec_role((#[trigger] stages[i]).stage_type) == StageRole::Producer
        && reaches(adj, stages[i].id, v)
}

/// `v` reaches some Consumer stage.
#[verifier::opaque]
pub open spec fn reaches_consumer(stages: Seq<StageInfo>, adj: Seq<(StageId, Vec<StageId>)>, v: StageId) -> bool {
    exists|i: int| 0 <= i < stages.len() && spec_role((#[trigger] stages[i]).stage_type) == StageRole::Consumer
        && reaches(adj, v, stages[i].id)
}

/// Stages no Producer reaches, in stage order.
pub open spec fn unreachable_ids(stages: Seq<StageInfo>, adj: Seq<(StageId, Vec<StageId>)>) -> Seq<StageId> {
    keep_ids(stage_ids(stages), |v: StageId| !reached_by_producer(stages, adj, v))
}

/// Stages that reach no Consumer, in stage order.
pub open spec fn unproductive_ids(stages: Seq<StageInfo>, adj: Seq<(StageId, Vec<StageId>)>) -> Seq<StageId> {
    keep_ids(stage_ids(stages), |v: StageId| !reaches_consumer(stages, adj, v))
}

/// The reachability invariants of a complete flow: there is a Producer and
/// a Consumer, every stage is reached from a Producer, and every stage
/// reaches a Consumer.
pub open spec fn flow_complete(stages: Seq<StageInfo>, adj: Seq<(StageId, Vec<StageId>)>) -> bool {
    &&& has_role(stages, StageRole::Producer)
    &&& has_role(stages, StageRole::Consumer)
    &&& forall|k: int| 0 <= k < stages.len() ==> reached_by_producer(stages, adj, (#[trigger] stages[k]).id)
    &&& forall|k: int| 0 <= k < stages.len() ==> reaches_consumer(stages, adj, (#[trigger] stages[k]).id)
}

/// The error the reachability checks report, in the order they run.
pub open spec fn is_flow_error(e: TopologyError, stages: Seq<StageInfo>, adj: Seq<(StageId, Vec<StageId>)>) -> bool {
    if !has_role(stages, StageRole::Producer) {
        e is NoSources
    } else if !has_role(stages, StageRole::Consumer) {
        e is NoSinks
    } else if unreachable_ids(stages, adj).len() > 0 {
        e matches TopologyError::UnreachableStages { stages: l } && l@ == unreachable_ids(stages, adj)
    } else {
        e matches TopologyError::UnproductiveStages { stages: l } && l@ == unproductive_ids(stages, adj)
    }
}

pub(crate) fn ids_of(stages: &[StageInfo]) -> (r: Vec<StageId>)
    requires
        distinct_ids(stages@),
    ensures
        r@ == stage_ids(stages@),
        r@.no_duplicates(),
{
    let mut r: Vec<StageId> = Vec::new();
    let mut i: usize = 0;
    while i < stages.len()
        invariant
            i <= stages@.len(),
            r@ == stage_ids(stages@).subrange(0, i as int),
        decreases stages.len() - i,
    {
        r.push(stages[i].id);
        proof {
            assert(stage_ids(stages@).subrange(0, i + 1) =~= stage_ids(stages@).subrange(0, i as int).push(stages@[i as int].id));
        }
        i = i + 1;
    }
    proof {
        assert(r@ =~= stage_ids(stages@));
        assert forall|a: int, b: int| 0 <= a < r@.len() && 0 <= b < r@.len() && a != b implies r@[a] != r@[b] by {
            assert(r@[a] == stages@[a].id && r@[b] == stages@[b].id);
        }
    }
    r
}

/// Positions of the stages whose type has this role.
fn positions_with_role(stages: &[StageInfo], role: StageRole) -> (r: Vec<usize>)
    ensures
        forall|k: int| 0 <= k < r@.len() ==> #[trigger] r@[k] < stages@.len(),
        forall|k: int| 0 <= k < stages@.len() ==> (r@.contains(k as usize) <==> spec_role(#[trigger] stages@[k].stage_type) == role),
        r@.len() == 0 <==> !has_role(stages@, role),
{
    let ghost sv = stages@;
    let n_st = stages.len();
    let mut r: Vec<usize> = Vec::new();
    let mut i: usize = 0;
    while i < n_st
        invariant
            n_st == sv.len(),
            sv == stages@,
            i <= n_st,
            forall|k: int| 0 <= k < r@.len() ==> #[trigger] r@[k] < i,
            forall|k: int| 0 <= k < n_st ==> (r@.contains(k as usize) <==> (k < i && spec_role(#[trigger] sv[k].stage_type) == role)),
        decreases n_st - i,
    {
        let ghost r0 = r@;
        if stages[i].stage_type.role() == role {
            r.push(i);
        }
        proof {
            assert forall|k: int| 0 <= k < n_st implies (r@.contains(k as usize) <==> (k < i + 1 && spec_role(#[trigger] sv[k].stage_type) == role)) by {
                if r@.contains(k as usize) && !r0.contains(k as usize) {
                    let e = choose|e: int| 0 <= e < r@.len() && r@[e] == k as usize;
                    assert(e == r0.len());
                }
                if r0.contains(k as usize) {
                    let e = choose|e: int| 0 <= e < r0.len() && r0[e] == k as usize;
                    assert(r@[e] == k as usize);
                }
                if k == i as int && spec_role(sv[k].stage_type) == role {
                    assert(r@[r0.len() as int] == i);
                }
            }
            assert forall|k: int| 0 <= k < r@.len() implies #[trigger] r@[k] < i + 1 by {
                if k < r0.len() { assert(r@[k] == r0[k]); }
            }
        }
        i = i + 1;
    }
    proof {
        if r@.len() > 0 {
            let m = r@[0] as int;
            assert(r@.contains(m as usize));
            assert(spec_role(sv[m].stage_type) == role);
        }
        if has_role(sv, role) {
            let k = choose|k: int| 0 <= k < sv.len() && spec_role((#[trigger] sv[k]).stage_type) == role;
            assert(r@.contains(k as usize));
        }
    }
    r
}

/// Validate the reachability constraints: a Producer and a Consumer exist,
/// every stage is reachable from a Producer, and every stage can reach a
/// Consumer (paths follow `downstream`, including nodes that are not
/// stages).
pub fn validate_topology_structure(stages: &[StageInfo], downstream: &[(StageId, Vec<StageId>)]) -> (r: ValidationResult<()>)
    requires
        distinct_ids(stages@),
    ensures
        r is Ok <==> flow_complete(stages@, downstream@),
        r matches Err(e) ==> is_flow_error(e, stages@, downstream@),
{
    let ghost sv = stages@;
    let ghost adj = downstream@;
    let producers = positions_with_role(stages, StageRole::Producer);
    if producers.len() == 0 {
        return Err(TopologyError::NoSources);
    }
    let consumers = positions_with_role(stages, StageRole::Consumer);
    if consumers.len() == 0 {
        return Err(TopologyError::NoSinks);
    }
    let sids = ids_of(stages);
    let (ids, g) = build_numbering(&sids, downstream);
    let unreachable = unreachable_from(stages, downstream, &producers, &ids, &g);
    proof {
        lemma_reach_checks(sv, adj);
    }
    if unreachable.len() > 0 {
        return Err(TopologyError::UnreachableStages { stages: unreachable });
    }
    let unproductive = unproductive_toward(stages, downstream, &consumers, &ids, &g);
    if unproductive.len() > 0 {
        return Err(TopologyError::UnproductiveStages { stages: unproductive });
    }
    Ok(())
}

proof fn lemma_same_links_roles(stages: Seq<StageInfo>, adj1: Seq<(StageId, Vec<StageId>)>, adj2: Seq<(StageId, Vec<StageId>)>, v: StageId)
    requires
        forall|a: StageId, b: StageId| reaches(adj1, a, b) == #[trigger] reaches(adj2, a, b),
    ensures
        reached_by_producer(stages, adj1, v) == reached_by_producer(stages, adj2, v),
        reaches_consumer(stages, adj1, v) == reaches_consumer(stages, adj2, v),
{
    reveal(reached_by_producer);
    reveal(reaches_consumer);
    if reached_by_producer(stages, adj1, v) {
        let i = choose|i: int| 0 <= i < stages.len() && spec_role((#[trigger] stages[i]).stage_type) == StageRole::Producer
            && reaches(adj1, stages[i].id, v);
        assert(reaches(adj2, stages[i].id, v));
    }
    if reached_by_producer(stages, adj2, v) {
        let i = choose|i: int| 0 <= i < stages.len() && spec_role((#[trigger] stages[i]).stage_type) == StageRole::Producer
            && reaches(adj2, stages[i].id, v);
        assert(reaches(adj1, stages[i].id, v));
    }
    if reaches_consumer(stages, adj1, v) {
        let i = choose|i: int| 0 <= i < stages.len() && spec_role((#[trigger] stages[i]).stage_type) == StageRole::Consumer
            && reaches(adj1, v, stages[i].id);
        assert(reaches(adj2, v, stages[i].id));
    }
    if reaches_consumer(stages, adj2, v) {
        let i = choose|i: int| 0 <= i < stages.len() && spec_role((#[trigger] stages[i]).stage_type) == StageRole::Consumer
            && reaches(adj2, v, stages[i].id);
        assert(reaches(adj1, v, stages[i].id));
    }
}

/// The reachability invariants, and the error reported for them, depend
/// only on which pairs the adjacency lists link.
pub proof fn lemma_flow_same_links(stages: Seq<StageInfo>, adj1: Seq<(StageId, Vec<StageId>)>, adj2: Seq<(StageId, Vec<StageId>)>)
    requires
        forall|x: StageId, y: StageId| #[trigger] adj_has(adj1, x, y) <==> #[trigger] adj_has(adj2, x, y),
    ensures
        flow_complete(stages, adj1) == flow_complete(stages, adj2),
        forall|e: TopologyError| is_flow_error(e, stages, adj1) == is_flow_error(e, stages, adj2),
{
    assert forall|a: StageId, b: StageId| reaches(adj1, a, b) == #[trigger] reaches(adj2, a, b) by {
        crate::graph::lemma_same_links_reaches(adj1, adj2, a, b);
    }
    assert forall|v: StageId|
        #![trigger reached_by_producer(stages, adj1, v)]
        #![trigger reached_by_producer(stages, adj2, v)]
        reached_by_producer(stages, adj1, v) == reached_by_producer(stages, adj2, v) by {
        lemma_same_links_roles(stages, adj1, adj2, v);
    }
    assert forall|v: StageId|
        #![trigger reaches_consumer(stages, adj1, v)]
        #![trigger reaches_consumer(stages, adj2, v)]
        reaches_consumer(stages, adj1, v) == reaches_consumer(stages, adj2, v) by {
        lemma_same_links_roles(stages, adj1, adj2, v);
    }
    let p1 = |v: StageId| !reached_by_producer(stages, adj1, v);
    let p2 = |v: StageId| !reached_by_producer(stages, adj2, v);
    assert(p1 =~= p2);
    let q1 = |v: StageId| !reaches_consumer(stages, adj1, v);
    let q2 = |v: StageId| !reaches_consumer(stages, adj2, v);
    assert(q1 =~= q2);
    assert(unreachable_ids(stages, adj1) == unreachable_ids(stages, adj2));
    assert(unproductive_ids(stages, adj1) == unproductive_ids(stages, adj2));
}

/// Empty unreachable/unproductive lists are the reachability half of
/// `flow_complete`.
proof fn lemma_reach_checks(sv: Seq<StageInfo>, adj: Seq<(StageId, Vec<StageId>)>)
    ensures
        (unreachable_ids(sv, adj).len() == 0) <==> forall|k: int| 0 <= k < sv.len() ==> reached_by_producer(sv, adj, (#[trigger] sv[k]).id),
        (unproductive_ids(sv, adj).len() == 0) <==> forall|k: int| 0 <= k < sv.len() ==> reaches_consumer(sv, adj, (#[trigger] sv[k]).id),
{
    let p1 = |v: StageId| !reached_by_producer(sv, adj, v);
    let p2 = |v: StageId| !reaches_consumer(sv, adj, v);
    lemma_keep_ids_empty(stage_ids(sv), p1);
    lemma_keep_ids_empty(stage_ids(sv), p2);
    assert forall|k: int| 0 <= k < sv.len() implies #[trigger] stage_ids(sv)[k] == sv[k].id by {}
    if forall|k: int| 0 <= k < sv.len() ==> reached_by_producer(sv, adj, (#[trigger] sv[k]).id) {
        assert forall|k: int| 0 <= k < stage_ids(sv).len() implies !p1(#[trigger] stage_ids(sv)[k]) by {
            assert(reached_by_producer(sv, adj, sv[k].id));
        }
    }
    if forall|k: int| 0 <= k < sv.len() ==> reaches_consumer(sv, adj, (#[trigger] sv[k]).id) {
        assert forall|k: int| 0 <= k < stage_ids(sv).len() implies !p2(#[trigger] stage_ids(sv)[k]) by {
            assert(reaches_consumer(sv, adj, sv[k].id));
        }
    }
    if unreachable_ids(sv, adj).len() == 0 {
        assert forall|k: int| 0 <= k < sv.len() implies reached_by_producer(sv, adj, (#[trigger] sv[k]).id) by {
            assert(!p1(stage_ids(sv)[k]));
        }
    }
    if unproductive_ids(sv, adj).len() == 0 {
        assert forall|k: int| 0 <= k < sv.len() implies reaches_consumer(sv, adj, (#[trigger] sv[k]).id) by {
            assert(!p2(stage_ids(sv)[k]));
        }
    }
}

fn unreachable_from(
    stages: &[StageInfo],
    downstream: &[(StageId, Vec<StageId>)],
    producers: &Vec<usize>,
    ids: &Vec<StageId>,
    g: &Vec<Vec<usize>>,
) -> (r: Vec<StageId>)
    requires
        distinct_ids(stages@),
        numbering(ids@, g.deep_view(), downstream@),
        ids@.len() >= stages@.len(),
        forall|m: int| 0 <= m < stages@.len() ==> ids@[m] == stage_ids(stages@)[m],
        forall|m: int| 0 <= m < producers@.len() ==> #[trigger] producers@[m] < stages@.len(),
        forall|m: int| 0 <= m < stages@.len() ==> (producers@.contains(m as usize) <==> spec_role(#[trigger] stages@[m].stage_type) == StageRole::Producer),
    ensures
        r@ == unreachable_ids(stages@, downstream@),
{
    let ghost sv = stages@;
    let ghost adj = downstream@;
    let ghost gv = g.deep_view();
    let n_st = stages.len();
    let reached = mark_reachable(g, producers);
    let ghost p_unreach = |v: StageId| !reached_by_producer(sv, adj, v);
    let mut unreachable: Vec<StageId> = Vec::new();
    let mut k: usize = 0;
    while k < n_st
        invariant
            n_st == sv.len(),
            sv == stages@,
            adj == downstream@,
            gv == g.deep_view(),
            distinct_ids(sv),
            numbering(ids@, gv, adj),
            ids@.len() >= n_st,
            forall|m: int| 0 <= m < n_st ==> ids@[m] == stage_ids(sv)[m],
            reached@.len() == g.len(),
            forall|j: int| 0 <= j < g.len() ==> (reached@[j] <==> reached_from(gv, producers@, j)),
            forall|m: int| 0 <= m < producers@.len() ==> #[trigger] producers@[m] < n_st,
            forall|m: int| 0 <= m < n_st ==> (producers@.contains(m as usize) <==> spec_role(#[trigger] sv[m].stage_type) == StageRole::Producer),
            k <= n_st,
            p_unreach == (|v: StageId| !reached_by_producer(sv, adj, v)),
            unreachable@ == keep_ids(stage_ids(sv).subrange(0, k as int), p_unreach),
        decreases n_st - k,
    {
        proof {
            lemma_keep_ids_step(stage_ids(sv), p_unreach, k as int);
            lemma_producer_reach(sv, adj, ids@, gv, producers@, k as int);
        }
        if !reached[k] {
            unreachable.push(stages[k].id);
        }
        k = k + 1;
    }
    proof {
        assert(stage_ids(sv).subrange(0, n_st as int) =~= stage_ids(sv));
    }
    unreachable
}

fn unproductive_toward(
    stages: &[StageInfo],
    downstream: &[(StageId, Vec<StageId>)],
    consumers: &Vec<usize>,
    ids: &Vec<StageId>,
    g: &Vec<Vec<usize>>,
) -> (r: Vec<StageId>)
    requires
        distinct_ids(stages@),
        numbering(ids@, g.deep_view(), downstream@),
        ids@.len() >= stages@.len(),
        forall|m: int| 0 <= m < stages@.len() ==> ids@[m] == stage_ids(stages@)[m],
        forall|m: int| 0 <= m < consumers@.len() ==> #[trigger] consumers@[m] < stages@.len(),
        forall|m: int| 0 <= m < stages@.len() ==> (consumers@.contains(m as usize) <==> spec_role(#[trigger] stages@[m].stage_type) == StageRole::Consumer),
    ensures
        r@ == unproductive_ids(stages@, downstream@),
{
    let ghost sv = stages@;
    let ghost adj = downstream@;
    let ghost gv = g.deep_view();
    let n_st = stages.len();
    let ghost p_unprod = |v: StageId| !reaches_consumer(sv, adj, v);
    let mut unproductive: Vec<StageId> = Vec::new();
    let mut k: usize = 0;
    while k < n_st
        invariant
            n_st == sv.len(),
            sv == stages@,
            adj == downstream@,
            gv == g.deep_view(),
            distinct_ids(sv),
            numbering(ids@, gv, adj),
            ids@.len() >= n_st,
            forall|m: int| 0 <= m < n_st ==> ids@[m] == stage_ids(sv)[m],
            forall|m: int| 0 <= m < consumers@.len() ==> #[trigger] consumers@[m] < n_st,
            forall|m: int| 0 <= m < n_st ==> (consumers@.contains(m as usize) <==> spec_role(#[trigger] sv[m].stage_type) == StageRole::Consumer),
            k <= n_st,
            p_unprod == (|v: StageId| !reaches_consumer(sv, adj, v)),
            unproductive@ == keep_ids(stage_ids(sv).subrange(0, k as int), p_unprod),
        decreases n_st - k,
    {
        proof {
            lemma_keep_ids_step(stage_ids(sv), p_unprod, k as int);
        }
        let srcs = vec![k];
        proof {
            assert(srcs@ =~= seq![k]);
        }
        let row = mark_reachable(g, &srcs);
        let mut found = false;
        let mut c: usize = 0;
        while c < consumers.len()
            invariant
                row@.len() == g.len(),
                forall|m: int| 0 <= m < consumers@.len() ==> #[trigger] consumers@[m] < n_st,
                n_st <= g.len(),
                c <= consumers@.len(),
                found == exists|m: int| 0 <= m < c && row@[#[trigger] consumers@[m] as int],
            decreases consumers.len() - c,
        {
            if row[consumers[c]] {
                found = true;
            }
            c = c + 1;
        }
        proof {
            lemma_consumer_reach(sv, adj, ids@, gv, consumers@, k, srcs@, row@);
        }
        if !found {
            unproductive.push(stages[k].id);
        }
        k = k + 1;
    }
    proof {
        assert(stage_ids(sv).subrange(0, n_st as int) =~= stage_ids(sv));
    }
    unproductive
}

/// Stage `k` is marked from the producers exactly when a Producer reaches it.
proof fn lemma_producer_reach(
    sv: Seq<StageInfo>,
    adj: Seq<(StageId, Vec<StageId>)>,
    ids: Seq<StageId>,
    gv: Seq<Seq<usize>>,
    producers: Seq<usize>,
    k: int,
)
    requires
        sv.len() <= usize::MAX,
        distinct_ids(sv),
        numbering(ids, gv, adj),
        ids.len() >= sv.len(),
        forall|m: int| 0 <= m < sv.len() ==> ids[m] == stage_ids(sv)[m],
        forall|m: int| 0 <= m < producers.len() ==> #[trigger] producers[m] < sv.len(),
        forall|m: int| 0 <= m < sv.len() ==> (producers.contains(m as usize) <==> spec_role(#[trigger] sv[m].stage_type) == StageRole::Producer),
        0 <= k < sv.len(),
    ensures
        reached_from(gv, producers, k) <==> reached_by_producer(sv, adj, sv[k].id),
{
    reveal(reached_by_producer);
    assert(ids[k] == sv[k].id);
    if reached_from(gv, producers, k) {
        let s = choose|s: int| 0 <= s < producers.len() && idx_reach(gv, #[trigger] producers[s] as int, k);
        let p = producers[s] as int;
        lemma_idx_reach_iff(ids, gv, adj, p, k);
        assert(ids[p] == sv[p].id);
        assert(producers.contains(p as usize));
        assert(spec_role(sv[p].stage_type) == StageRole::Producer);
    }
    if reached_by_producer(sv, adj, sv[k].id) {
        let p = choose|p: int| 0 <= p < sv.len() && spec_role((#[trigger] sv[p]).stage_type) == StageRole::Producer
            && reaches(adj, sv[p].id, sv[k].id);
        assert(ids[p] == sv[p].id);
        lemma_idx_reach_iff(ids, gv, adj, p, k);
        assert(producers.contains(p as usize));
        let s = choose|s: int| 0 <= s < producers.len() && producers[s] == p as usize;
        assert(idx_reach(gv, producers[s] as int, k));
    }
}

/// Stage `k` reaches a consumer position in its row exactly when it reaches
/// a Consumer.
proof fn lemma_consumer_reach(
    sv: Seq<StageInfo>,
    adj: Seq<(StageId, Vec<StageId>)>,
    ids: Seq<StageId>,
    gv: Seq<Seq<usize>>,
    consumers: Seq<usize>,
    k: usize,
    srcs: Seq<usize>,
    row: Seq<bool>,
)
    requires
        sv.len() <= usize::MAX,
        distinct_ids(sv),
        numbering(ids, gv, adj),
        ids.len() >= sv.len(),
        forall|m: int| 0 <= m < sv.len() ==> ids[m] == stage_ids(sv)[m],
        forall|m: int| 0 <= m < consumers.len() ==> #[trigger] consumers[m] < sv.len(),
        forall|m: int| 0 <= m < sv.len() ==> (consumers.contains(m as usize) <==> spec_role(#[trigger] sv[m].stage_type) == StageRole::Consumer),
        k < sv.len(),
        srcs == seq![k],
        row.len() == gv.len(),
        forall|j: int| 0 <= j < gv.len() ==> (row[j] <==> reached_from(gv, srcs, j)),
    ensures
        (exists|m: int| 0 <= m < consumers.len() && row[#[trigger] consumers[m] as int]) <==> reaches_consumer(sv, adj, sv[k as int].id),
{
    reveal(reaches_consumer);
    let k = k as int;
    assert(ids[k] == sv[k].id);
    if exists|m: int| 0 <= m < consumers.len() && row[#[trigger] consumers[m] as int] {
        let m = choose|m: int| 0 <= m < consumers.len() && row[#[trigger] consumers[m] as int];
        let c = consumers[m] as int;
        let s = choose|s: int| 0 <= s < srcs.len() && idx_reach(gv, #[trigger] srcs[s] as int, c);
        assert(srcs[s] as int == k);
        lemma_idx_reach_iff(ids, gv, adj, k, c);
        assert(ids[c] == sv[c].id);
        assert(consumers.contains(c as usize));
        assert(spec_role(sv[c].stage_type) == StageRole::Consumer);
    }
    if reaches_consumer(sv, adj, sv[k].id) {
        let c = choose|c: int| 0 <= c < sv.len() && spec_role((#[trigger] sv[c]).stage_type) == StageRole::Consumer
            && reaches(adj, sv[k].id, sv[c].id);
        assert(ids[c] == sv[c].id);
        lemma_idx_reach_iff(ids, gv, adj, k, c);
        assert(srcs[0] as int == k);
        assert(reached_from(gv, srcs, c));
        assert(consumers.contains(c as usize));
        let m = choose|m: int| 0 <= m < consumers.len() && consumers[m] == c as usize;
        assert(row[consumers[m] as int]);
    }
}

// ----------------------------------------------- strongly connected parts

/// Some stage of `stages` reaches `v`.
pub open spec fn reached_from_stages(stages: Seq<StageId>, adj: Seq<(StageId, Vec<StageId>)>, v: StageId) -> bool {
    exists|i: int| 0 <= i < stages.len() && reaches(adj, #[trigger] stages[i], v)
}

/// `v` lies on a cycle: it shares its component with another node, or it
/// has an edge to itself.
pub open spec fn cyclic(adj: Seq<(StageId, Vec<StageId>)>, v: StageId) -> bool {
    on_cycle(adj, v) || adj_has(adj, v, v)
}

/// `0, 1, ..., n - 1`.
fn positions_upto(n: usize) -> (r: Vec<usize>)
    ensures
        r@.len() == n,
        forall|i: int| 0 <= i < n ==> #[trigger] r@[i] == i,
{
    let mut r: Vec<usize> = Vec::new();
    let mut i: usize = 0;
    while i < n
        invariant
            i <= n,
            r@.len() == i,
            forall|k: int| 0 <= k < i ==> #[trigger] r@[k] == k,
        decreases n - i,
    {
        r.push(i);
        i = i + 1;
    }
    r
}

fn copy_ids(stages: &[StageId]) -> (r: Vec<StageId>)
    ensures
        r@ == stages@,
{
    let mut r: Vec<StageId> = Vec::new();
    let mut i: usize = 0;
    while i < stages.len()
        invariant
            i <= stages@.len(),
            r@ == stages@.subrange(0, i as int),
        decreases stages.len() - i,
    {
        r.push(stages[i]);
        proof {
            assert(stages@.subrange(0, i + 1) =~= stages@.subrange(0, i as int).push(stages@[i as int]));
        }
        i = i + 1;
    }
    proof {
        assert(r@ =~= stages@);
    }
    r
}

/// The numbered form of "reached from a stage and on a cycle".
spec fn scc_candidate(gv: Seq<Seq<usize>>, srcs: Seq<usize>, m: Seq<Seq<bool>>, i: int) -> bool {
    reached_from(gv, srcs, i) && ((exists|j: int| 0 <= j < m.len() && j != i && #[trigger] m[i][j] && m[j][i]) || idx_edge(gv, i, i))
}

proof fn lemma_candidates_closed(gv: Seq<Seq<usize>>, srcs: Seq<usize>, m: Seq<Seq<bool>>, i: int, j: int)
    requires
        is_reach_matrix(gv, m),
        forall|k: int| 0 <= k < srcs.len() ==> #[trigger] srcs[k] < gv.len(),
        0 <= i < gv.len(),
        0 <= j < gv.len(),
        scc_candidate(gv, srcs, m, i),
        idx_mutual(gv, i, j),
    ensures
        scc_candidate(gv, srcs, m, j),
{
    let s = choose|s: int| 0 <= s < srcs.len() && idx_reach(gv, #[trigger] srcs[s] as int, i);
    lemma_idx_reach_trans(gv, srcs[s] as int, i, j);
    assert(reached_from(gv, srcs, j));
    if j != i {
        assert(m[j][i] && m[i][j]);
    }
}

/// `x` is the member of `c` with the least id value.
pub open spec fn is_least(c: Seq<StageId>, x: StageId) -> bool {
    c.contains(x) && forall|y: StageId| #[trigger] c.contains(y) ==> x.value <= y.value
}

/// The member of `c` with the least id value.
pub open spec fn least_of(c: Seq<StageId>) -> StageId {
    choose|x: StageId| is_least(c, x)
}

/// `r` lists, once each and in increasing order of their least id, the
/// strongly connected components that are cycles (more than one node, or a
/// node with an edge to itself) among the nodes reachable from `stages`.
#[verifier::opaque]
pub open spec fn cycle_components(stages: Seq<StageId>, adj: Seq<(StageId, Vec<StageId>)>, r: Seq<Vec<StageId>>) -> bool {
    &&& forall|k: int| 0 <= k < r.len() ==> (#[trigger] r[k])@.len() > 0 && r[k]@.no_duplicates()
    &&& forall|k: int, x: StageId, w: StageId|
        #![trigger r[k]@.contains(x), r[k]@.contains(w)]
        #![trigger r[k]@.contains(x), mutually_reach(adj, x, w)]
        0 <= k < r.len() && r[k]@.contains(x) ==> (r[k]@.contains(w) <==> mutually_reach(adj, x, w))
    &&& forall|k: int, x: StageId| 0 <= k < r.len() && #[trigger] r[k]@.contains(x) ==>
        reached_from_stages(stages, adj, x) && cyclic(adj, x)
    &&& forall|v: StageId| reached_from_stages(stages, adj, v) && #[trigger] cyclic(adj, v) ==>
        exists|k: int| 0 <= k < r.len() && #[trigger] r[k]@.contains(v)
    &&& forall|k: int, l: int, x: StageId| 0 <= k < r.len() && 0 <= l < r.len() && k != l && #[trigger] r[k]@.contains(x)
        ==> !#[trigger] r[l]@.contains(x)
    &&& forall|k: int| 0 <= k < r.len() ==> is_least((#[trigger] r[k])@, least_of(r[k]@))
    &&& forall|k: int, l: int| 0 <= k < l < r.len() ==> least_of((#[trigger] r[k])@).value < least_of((#[trigger] r[l])@).value
}

/// Compute the strongly connected components that are cycles (more than one
/// node, or a node with an edge to itself) among the nodes reachable from
/// `stages` along `downstream`. Each component is listed once.
pub fn compute_sccs(stages: &[StageId], downstream: &[(StageId, Vec<StageId>)]) -> (r: Vec<Vec<StageId>>)
    requires
        stages@.no_duplicates(),
    ensures
        cycle_components(stages@, downstream@, r@),
{
    let ghost adj = downstream@;
    let sids = copy_ids(stages);
    let (ids, g) = build_numbering(&sids, downstream);
    let ghost gv = g.deep_view();
    let m = reach_matrix(&g);
    let ghost mv = m.deep_view();
    proof {
        assert forall|a: int| 0 <= a < m@.len() implies (#[trigger] m@[a])@.len() == m@.len() by {
            assert(mv[a] == m@[a]@);
        }
    }
    let srcs = positions_upto(stages.len());
    let from = mark_reachable(&g, &srcs);
    let nt = nontrivial_flags(&m);
    let n = g.len();
    let mut cand: Vec<bool> = Vec::new();
    let mut i: usize = 0;
    while i < n
        invariant
            n == g.len(),
            gv == g.deep_view(),
            mv == m.deep_view(),
            m@.len() == n,
            forall|a: int| 0 <= a < m@.len() ==> (#[trigger] m@[a])@.len() == m@.len(),
            from@.len() == n,
            nt@.len() == n,
            forall|a: int| 0 <= a < n ==> (from@[a] <==> reached_from(gv, srcs@, a)),
            forall|a: int| 0 <= a < n ==> (nt@[a] <==> exists|j: int| 0 <= j < n && j != a && #[trigger] m@[a]@[j] && m@[j]@[a]),
            i <= n,
            cand@.len() == i,
            forall|a: int| 0 <= a < i ==> (cand@[a] <==> scc_candidate(gv, srcs@, mv, a)),
        decreases n - i,
    {
        let c = from[i] && (nt[i] || has_self_edge(&g, i));
        proof {
            assert forall|j: int| 0 <= j < n implies (m@[i as int]@[j] == mv[i as int][j] && m@[j]@[i as int] == mv[j][i as int]) by {
                assert(mv[i as int] == m@[i as int]@);
                assert(mv[j] == m@[j]@);
            }
            if nt@[i as int] {
                let j = choose|j: int| 0 <= j < n && j != i && #[trigger] m@[i as int]@[j] && m@[j]@[i as int];
                assert(mv[i as int][j] && mv[j][i as int]);
            }
            if exists|j: int| 0 <= j < mv.len() && j != i && #[trigger] mv[i as int][j] && mv[j][i as int] {
                let j = choose|j: int| 0 <= j < mv.len() && j != i && #[trigger] mv[i as int][j] && mv[j][i as int];
                assert(m@[i as int]@[j] && m@[j]@[i as int]);
            }
        }
        cand.push(c);
        i = i + 1;
    }
    proof {
        assert forall|a: int, b: int| 0 <= a < n && 0 <= b < n && cand@[a] && #[trigger] idx_mutual(gv, a, b) implies cand@[b] by {
            lemma_candidates_closed(gv, srcs@, mv, a, b);
        }
    }
    let (reps, classes) = cycle_classes(&g, &ids, &m, &cand);
    let ghost cv = classes.deep_view();
    let mut out: Vec<Vec<StageId>> = Vec::new();
    let mut k: usize = 0;
    while k < classes.len()
        invariant
            k <= classes@.len(),
            cv == classes.deep_view(),
            cv.len() == classes@.len(),
            forall|a: int, e: int| 0 <= a < cv.len() && 0 <= e < cv[a].len() ==> #[trigger] cv[a][e] < ids@.len(),
            out@.len() == k,
            forall|a: int| 0 <= a < k ==> (#[trigger] out@[a])@.len() == cv[a].len()
                && forall|e: int| 0 <= e < cv[a].len() ==> out@[a]@[e] == ids@[#[trigger] cv[a][e] as int],
        decreases classes.len() - k,
    {
        proof {
            assert(cv[k as int] == classes@[k as int]@);
        }
        let row = ids_at(&ids, &classes[k]);
        out.push(row);
        k = k + 1;
    }
    proof {
        lemma_class_members(ids@, gv, cand@, reps@, cv, out@);
        lemma_class_is_mutual(adj, ids@, gv, reps@, out@);
        lemma_class_members_cyclic(stages@, adj, ids@, gv, mv, srcs@, cand@, reps@, out@);
        lemma_cyclic_listed(stages@, adj, ids@, gv, mv, srcs@, cand@, reps@, cv, out@);
        lemma_classes_disjoint(ids@, gv, cand@, reps@, cv, out@);
        lemma_classes_ordered(ids@, gv, cand@, reps@, cv, out@);
        reveal(cycle_components);
    }
    out
}

/// The representative of each class is its least member, so the classes come
/// in increasing order of their least id.
proof fn lemma_classes_ordered(ids: Seq<StageId>, gv: Seq<Seq<usize>>, cand: Seq<bool>, reps: Seq<usize>, cv: Seq<Seq<usize>>, out: Seq<Vec<StageId>>)
    requires
        ids.len() == gv.len(),
        classes_ok(gv, ids, cand, reps, cv),
        class_members(ids, gv, reps, out),
        out.len() == cv.len(),
    ensures
        forall|k: int| 0 <= k < out.len() ==> is_least((#[trigger] out[k])@, least_of(out[k]@)),
        forall|k: int, l: int| 0 <= k < l < out.len() ==> least_of((#[trigger] out[k])@).value < least_of((#[trigger] out[l])@).value,
{
    assert forall|k: int| 0 <= k < out.len() implies least_of((#[trigger] out[k])@) == ids[reps[k] as int] && is_least(out[k]@, least_of(out[k]@)) by {
        let b = reps[k] as int;
        lemma_mutual_equiv(gv, b, b, b);
        assert(out[k]@.contains(ids[b]));
        assert forall|y: StageId| #[trigger] out[k]@.contains(y) implies ids[b].value <= y.value by {
            let j = choose|j: int| 0 <= j < ids.len() && ids[j] == y && #[trigger] idx_mutual(gv, b, j);
        }
        assert(is_least(out[k]@, ids[b]));
        let x = least_of(out[k]@);
        assert(is_least(out[k]@, x));
        assert(x.value <= ids[b].value);
        assert(ids[b].value <= x.value);
    }
    assert forall|k: int, l: int| 0 <= k < l < out.len() implies least_of((#[trigger] out[k])@).value < least_of((#[trigger] out[l])@).value by {
        assert(least_of(out[k]@) == ids[reps[k] as int]);
        assert(least_of(out[l]@) == ids[reps[l] as int]);
    }
}

/// Class `k` of `out` holds exactly the ids of the numbered nodes mutually
/// reachable with `reps[k]`.
spec fn class_members(ids: Seq<StageId>, gv: Seq<Seq<usize>>, reps: Seq<usize>, out: Seq<Vec<StageId>>) -> bool {
    forall|k: int, x: StageId| 0 <= k < out.len() ==>
        (#[trigger] out[k]@.contains(x) <==> exists|j: int| 0 <= j < ids.len() && ids[j] == x && #[trigger] idx_mutual(gv, reps[k] as int, j))
}

/// One class row: `row` lists the ids of the positions in `cvk`, which are
/// exactly the positions mutually reachable with `b`.
proof fn lemma_class_row(ids: Seq<StageId>, gv: Seq<Seq<usize>>, b: int, cvk: Seq<usize>, row: Seq<StageId>)
    requires
        ids.len() == gv.len(),
        gv.len() <= usize::MAX,
        ids.no_duplicates(),
        0 <= b < gv.len(),
        cvk.no_duplicates(),
        row.len() == cvk.len(),
        forall|e: int| 0 <= e < cvk.len() ==> #[trigger] cvk[e] < gv.len(),
        forall|e: int| 0 <= e < cvk.len() ==> row[e] == ids[#[trigger] cvk[e] as int],
        forall|j: int| 0 <= j < gv.len() ==> (#[trigger] cvk.contains(j as usize) <==> idx_mutual(gv, b, j)),
    ensures
        forall|x: StageId| #[trigger] row.contains(x) <==> exists|j: int| 0 <= j < ids.len() && ids[j] == x && #[trigger] idx_mutual(gv, b, j),
        row.len() > 0,
        row.no_duplicates(),
{
    assert forall|x: StageId| #[trigger] row.contains(x) <==> exists|j: int| 0 <= j < ids.len() && ids[j] == x && #[trigger] idx_mutual(gv, b, j) by {
        if row.contains(x) {
            let e = choose|e: int| 0 <= e < row.len() && row[e] == x;
            let j = cvk[e] as int;
            assert(row[e] == ids[j]);
            assert(cvk.contains(j as usize));
            assert(idx_mutual(gv, b, j));
        }
        if exists|j: int| 0 <= j < ids.len() && ids[j] == x && #[trigger] idx_mutual(gv, b, j) {
            let j = choose|j: int| 0 <= j < ids.len() && ids[j] == x && #[trigger] idx_mutual(gv, b, j);
            assert(cvk.contains(j as usize));
            let e = choose|e: int| 0 <= e < cvk.len() && cvk[e] == j as usize;
            assert(row[e] == ids[cvk[e] as int]);
            assert(row.contains(x));
        }
    }
    lemma_mutual_equiv(gv, b, b, b);
    assert(cvk.contains(b as usize));
    assert forall|e1: int, e2: int| 0 <= e1 < row.len() && 0 <= e2 < row.len() && e1 != e2 implies row[e1] != row[e2] by {
        assert(cvk[e1] != cvk[e2]);
        assert(row[e1] == ids[cvk[e1] as int]);
        assert(row[e2] == ids[cvk[e2] as int]);
    }
}

proof fn lemma_class_members(ids: Seq<StageId>, gv: Seq<Seq<usize>>, cand: Seq<bool>, reps: Seq<usize>, cv: Seq<Seq<usize>>, out: Seq<Vec<StageId>>)
    requires
        ids.len() == gv.len(),
        gv.len() <= usize::MAX,
        ids.no_duplicates(),
        classes_ok(gv, ids, cand, reps, cv),
        out.len() == cv.len(),
        forall|a: int| 0 <= a < cv.len() ==> (#[trigger] out[a])@.len() == cv[a].len()
            && forall|e: int| 0 <= e < cv[a].len() ==> out[a]@[e] == ids[#[trigger] cv[a][e] as int],
    ensures
        class_members(ids, gv, reps, out),
        forall|k: int| 0 <= k < out.len() ==> (#[trigger] out[k])@.len() > 0 && out[k]@.no_duplicates(),
{
    assert forall|k: int| 0 <= k < out.len() implies
        (forall|x: StageId| #[trigger] out[k]@.contains(x) <==> exists|j: int| 0 <= j < ids.len() && ids[j] == x && #[trigger] idx_mutual(gv, reps[k] as int, j))
        && (#[trigger] out[k])@.len() > 0 && out[k]@.no_duplicates() by {
        let cvk = cv[k];
        let row = out[k]@;
        assert forall|e: int| 0 <= e < cvk.len() implies #[trigger] cvk[e] < gv.len() by {
            assert(cv[k][e] < gv.len());
        }
        assert forall|e: int| 0 <= e < cvk.len() implies row[e] == ids[#[trigger] cvk[e] as int] by {
            assert(out[k]@[e] == ids[cv[k][e] as int]);
        }
        assert forall|j: int| 0 <= j < gv.len() implies (#[trigger] cvk.contains(j as usize) <==> idx_mutual(gv, reps[k] as int, j)) by {
            assert(cv[k].contains(j as usize) <==> idx_mutual(gv, reps[k] as int, j));
        }
        assert(cv[k].no_duplicates());
        lemma_class_row(ids, gv, reps[k] as int, cvk, row);
    }
}

proof fn lemma_class_is_mutual(adj: Seq<(StageId, Vec<StageId>)>, ids: Seq<StageId>, gv: Seq<Seq<usize>>, reps: Seq<usize>, out: Seq<Vec<StageId>>)
    requires
        numbering(ids, gv, adj),
        class_members(ids, gv, reps, out),
        forall|k: int| 0 <= k < reps.len() ==> #[trigger] reps[k] < gv.len(),
        reps.len() == out.len(),
    ensures
        forall|k: int, x: StageId, w: StageId|
            #![trigger out[k]@.contains(x), out[k]@.contains(w)]
            #![trigger out[k]@.contains(x), mutually_reach(adj, x, w)]
            0 <= k < out.len() && out[k]@.contains(x) ==> (out[k]@.contains(w) <==> mutually_reach(adj, x, w)),
{
    assert forall|k: int, x: StageId, w: StageId|
        #![trigger out[k]@.contains(x), out[k]@.contains(w)]
        #![trigger out[k]@.contains(x), mutually_reach(adj, x, w)]
        0 <= k < out.len() && out[k]@.contains(x) implies (out[k]@.contains(w) <==> mutually_reach(adj, x, w)) by {
        let b = reps[k] as int;
        let j1 = choose|j: int| 0 <= j < ids.len() && ids[j] == x && #[trigger] idx_mutual(gv, b, j);
        if out[k]@.contains(w) {
            let j2 = choose|j: int| 0 <= j < ids.len() && ids[j] == w && #[trigger] idx_mutual(gv, b, j);
            lemma_mutual_equiv(gv, b, j1, j2);
            lemma_mutual_equiv(gv, j1, b, j2);
            lemma_mutual_equiv(gv, b, b, j2);
            assert(idx_mutual(gv, j1, b));
            assert(idx_mutual(gv, j1, j2));
            lemma_mutual_iff(ids, gv, adj, j1, j2);
        }
        if mutually_reach(adj, x, w) {
            lemma_reach_stays_numbered(ids, gv, adj, j1, w);
            let j2 = choose|j: int| 0 <= j < ids.len() && ids[j] == w;
            lemma_mutual_iff(ids, gv, adj, j1, j2);
            lemma_mutual_equiv(gv, b, j1, j2);
            assert(idx_mutual(gv, b, j2));
        }
    }
}

proof fn lemma_class_members_cyclic(
    stages: Seq<StageId>,
    adj: Seq<(StageId, Vec<StageId>)>,
    ids: Seq<StageId>,
    gv: Seq<Seq<usize>>,
    mv: Seq<Seq<bool>>,
    srcs: Seq<usize>,
    cand: Seq<bool>,
    reps: Seq<usize>,
    out: Seq<Vec<StageId>>,
)
    requires
        numbering(ids, gv, adj),
        ids.len() >= stages.len(),
        forall|i: int| 0 <= i < stages.len() ==> ids[i] == stages[i],
        is_reach_matrix(gv, mv),
        srcs.len() == stages.len(),
        forall|i: int| 0 <= i < stages.len() ==> #[trigger] srcs[i] == i,
        cand.len() == gv.len(),
        forall|a: int| 0 <= a < gv.len() ==> (cand[a] <==> scc_candidate(gv, srcs, mv, a)),
        class_members(ids, gv, reps, out),
        reps.len() == out.len(),
        forall|k: int| 0 <= k < reps.len() ==> #[trigger] reps[k] < gv.len() && cand[reps[k] as int],
    ensures
        forall|k: int, x: StageId| 0 <= k < out.len() && #[trigger] out[k]@.contains(x) ==>
            reached_from_stages(stages, adj, x) && cyclic(adj, x),
{
    assert forall|k: int, x: StageId| 0 <= k < out.len() && #[trigger] out[k]@.contains(x) implies
        reached_from_stages(stages, adj, x) && cyclic(adj, x) by {
        let b = reps[k] as int;
        let j = choose|j: int| 0 <= j < ids.len() && ids[j] == x && #[trigger] idx_mutual(gv, b, j);
        assert(cand[b]);
        lemma_candidates_closed(gv, srcs, mv, b, j);
        let s = choose|s: int| 0 <= s < srcs.len() && idx_reach(gv, #[trigger] srcs[s] as int, j);
        assert(srcs[s] as int == s);
        lemma_idx_reach_iff(ids, gv, adj, s, j);
        assert(reaches(adj, stages[s], x));
        if exists|j2: int| 0 <= j2 < mv.len() && j2 != j && #[trigger] mv[j][j2] && mv[j2][j] {
            let j2 = choose|j2: int| 0 <= j2 < mv.len() && j2 != j && #[trigger] mv[j][j2] && mv[j2][j];
            assert(idx_mutual(gv, j, j2));
            lemma_on_cycle_iff(ids, gv, adj, j);
        } else {
            assert(idx_edge(gv, j, j));
        }
    }
}

proof fn lemma_cyclic_listed(
    stages: Seq<StageId>,
    adj: Seq<(StageId, Vec<StageId>)>,
    ids: Seq<StageId>,
    gv: Seq<Seq<usize>>,
    mv: Seq<Seq<bool>>,
    srcs: Seq<usize>,
    cand: Seq<bool>,
    reps: Seq<usize>,
    cv: Seq<Seq<usize>>,
    out: Seq<Vec<StageId>>,
)
    requires
        numbering(ids, gv, adj),
        ids.len() >= stages.len(),
        forall|i: int| 0 <= i < stages.len() ==> ids[i] == stages[i],
        is_reach_matrix(gv, mv),
        srcs.len() == stages.len(),
        forall|i: int| 0 <= i < stages.len() ==> #[trigger] srcs[i] == i,
        cand.len() == gv.len(),
        forall|a: int| 0 <= a < gv.len() ==> (cand[a] <==> scc_candidate(gv, srcs, mv, a)),
        classes_ok(gv, ids, cand, reps, cv),
        class_members(ids, gv, reps, out),
        out.len() == cv.len(),
    ensures
        forall|v: StageId| reached_from_stages(stages, adj, v) && #[trigger] cyclic(adj, v) ==>
            exists|k: int| 0 <= k < out.len() && #[trigger] out[k]@.contains(v),
{
    assert forall|v: StageId| reached_from_stages(stages, adj, v) && #[trigger] cyclic(adj, v) implies
        exists|k: int| 0 <= k < out.len() && #[trigger] out[k]@.contains(v) by {
        let s = choose|s: int| 0 <= s < stages.len() && reaches(adj, #[trigger] stages[s], v);
        assert(ids[s] == stages[s]);
        lemma_reach_stays_numbered(ids, gv, adj, s, v);
        let j = choose|j: int| 0 <= j < ids.len() && ids[j] == v;
        lemma_idx_reach_iff(ids, gv, adj, s, j);
        assert(srcs[s] as int == s);
        assert(reached_from(gv, srcs, j));
        if on_cycle(adj, v) {
            lemma_on_cycle_iff(ids, gv, adj, j);
            let j2 = choose|j2: int| 0 <= j2 < ids.len() && j2 != j && #[trigger] idx_mutual(gv, j, j2);
            assert(mv[j][j2] && mv[j2][j]);
        } else {
            assert(idx_edge(gv, j, j));
        }
        assert(scc_candidate(gv, srcs, mv, j));
        assert(cand[j]);
        let k = choose|k: int| 0 <= k < cv.len() && #[trigger] cv[k].contains(j as usize);
        assert(idx_mutual(gv, reps[k] as int, j));
        assert(out[k]@.contains(v));
    }
}

proof fn lemma_classes_disjoint(ids: Seq<StageId>, gv: Seq<Seq<usize>>, cand: Seq<bool>, reps: Seq<usize>, cv: Seq<Seq<usize>>, out: Seq<Vec<StageId>>)
    requires
        ids.len() == gv.len(),
        ids.no_duplicates(),
        classes_ok(gv, ids, cand, reps, cv),
        class_members(ids, gv, reps, out),
        out.len() == cv.len(),
    ensures
        forall|k: int, l: int, x: StageId| 0 <= k < out.len() && 0 <= l < out.len() && k != l && #[trigger] out[k]@.contains(x)
            ==> !#[trigger] out[l]@.contains(x),
{
    assert forall|k: int, l: int, x: StageId| 0 <= k < out.len() && 0 <= l < out.len() && k != l && #[trigger] out[k]@.contains(x)
        implies !#[trigger] out[l]@.contains(x) by {
        if out[l]@.contains(x) {
            let bk = reps[k] as int;
            let bl = reps[l] as int;
            let j = choose|j: int| 0 <= j < ids.len() && ids[j] == x && #[trigger] idx_mutual(gv, bk, j);
            let j2 = choose|j2: int| 0 <= j2 < ids.len() && ids[j2] == x && #[trigger] idx_mutual(gv, bl, j2);
            assert(j == j2);
            lemma_mutual_equiv(gv, bk, j, bl);
            lemma_mutual_equiv(gv, bl, j, bk);
            lemma_mutual_equiv(gv, j, bl, bl);
            assert(idx_mutual(gv, j, bl));
            assert(idx_mutual(gv, bk, bl));
            lemma_mutual_equiv(gv, bk, bl, bk);
            assert(idx_mutual(gv, bl, bk));
            assert(ids[bk].value <= ids[bl].value);
            assert(ids[bl].value <= ids[bk].value);
            if k < l {
                assert(ids[reps[k] as int].value < ids[reps[l] as int].value);
            } else {
                assert(ids[reps[l] as int].value < ids[reps[k] as int].value);
            }
        }
    }
}

// ------------------------------------------------------------- acyclicity

/// `v` leads back to itself along at least one edge.
pub open spec fn returns_to(adj: Seq<(StageId, Vec<StageId>)>, v: StageId) -> bool {
    exists|w: StageId| #[trigger] adj_has(adj, v, w) && reaches(adj, w, v)
}

/// `c` is a cycle of `adj`: a closed walk of at least one edge whose stages
/// repeat only at its two ends.
pub open spec fn is_cycle(adj: Seq<(StageId, Vec<StageId>)>, c: Seq<StageId>) -> bool {
    &&& c.len() >= 2
    &&& is_walk(adj, c)
    &&& c[0] == c.last()
    &&& c.drop_last().no_duplicates()
}

/// Validate that no cycle passes through a stage; on failure, report one
/// such cycle.
pub fn validate_acyclic(stages: &[StageId], downstream: &[(StageId, Vec<StageId>)]) -> (r: Result<(), TopologyError>)
    requires
        stages@.no_duplicates(),
    ensures
        r is Ok <==> forall|i: int| 0 <= i < stages@.len() ==> !returns_to(downstream@, #[trigger] stages@[i]),
        r matches Err(e) ==> (e matches TopologyError::CycleDetected { stages: c } && is_cycle(downstream@, c@)),
{
    let ghost adj = downstream@;
    let sids = copy_ids(stages);
    let (ids, g) = build_numbering(&sids, downstream);
    let ghost gv = g.deep_view();
    let m = reach_matrix(&g);
    let mut i: usize = 0;
    while i < stages.len()
        invariant
            i <= stages@.len(),
            adj == downstream@,
            gv == g.deep_view(),
            numbering(ids@, gv, adj),
            ids@.len() >= stages@.len(),
            forall|k: int| 0 <= k < stages@.len() ==> ids@[k] == stages@[k],
            is_reach_matrix(gv, m.deep_view()),
            forall|k: int| 0 <= k < i ==> !returns_to(adj, #[trigger] stages@[k]),
        decreases stages.len() - i,
    {
        match successor_reaching(&g, &m, i, i) {
            Some(w) => {
                let c = cycle_from(&g, &m, i, w);
                let cycle = ids_at(&ids, &c);
                proof {
                    lemma_cycle_ids(ids@, gv, adj, c@, cycle@);
                    lemma_idx_reach_iff(ids@, gv, adj, w as int, i as int);
                    assert(adj_has(adj, ids@[i as int], ids@[w as int]));
                    assert(returns_to(adj, stages@[i as int]));
                }
                return Err(TopologyError::CycleDetected { stages: cycle });
            },
            None => {
                proof {
                    if returns_to(adj, stages@[i as int]) {
                        let v = stages@[i as int];
                        let w = choose|w: StageId| #[trigger] adj_has(adj, v, w) && reaches(adj, w, v);
                        assert(ids@[i as int] == v);
                        assert(ids@.contains(w));
                        let j = choose|j: int| 0 <= j < ids@.len() && ids@[j] == w;
                        assert(idx_edge(gv, i as int, j));
                        lemma_idx_reach_iff(ids@, gv, adj, j, i as int);
                        assert(false);
                    }
                }
            },
        }
        i = i + 1;
    }
    Ok(())
}

/// The ids along a numbered cycle form a cycle of the adjacency list.
proof fn lemma_cycle_ids(ids: Seq<StageId>, gv: Seq<Seq<usize>>, adj: Seq<(StageId, Vec<StageId>)>, c: Seq<usize>, cycle: Seq<StageId>)
    requires
        numbering(ids, gv, adj),
        idx_cycle(gv, c),
        cycle.len() == c.len(),
        forall|e: int| 0 <= e < c.len() ==> cycle[e] == ids[#[trigger] c[e] as int],
    ensures
        is_cycle(adj, cycle),
{
    assert forall|k: int| 0 <= k < cycle.len() - 1 implies adj_has(adj, #[trigger] cycle[k], cycle[k + 1]) by {
        assert(idx_edge(gv, c[k] as int, c[k + 1] as int));
        assert(cycle[k] == ids[c[k] as int]);
        assert(cycle[k + 1] == ids[c[k + 1] as int]);
    }
    assert(cycle[0] == ids[c[0] as int]);
    assert(cycle.last() == ids[c.last() as int]);
    assert(idx_edge(gv, c[0] as int, c[1] as int));
    assert(idx_edge(gv, c[c.len() - 2] as int, c[c.len() - 1] as int));
    assert forall|a: int, b: int| 0 <= a < cycle.len() - 1 && 0 <= b < cycle.len() - 1 && a != b implies
        cycle.drop_last()[a] != cycle.drop_last()[b] by {
        assert(c.drop_last()[a] != c.drop_last()[b]);
        assert(idx_edge(gv, c[a] as int, c[a + 1] as int));
        assert(idx_edge(gv, c[b] as int, c[b + 1] as int));
        assert(ids.no_duplicates());
    }
}

// ------------------------------------------------------ disconnected stages

/// `id` has at least one neighbour in `adj`.
pub open spec fn has_links(adj: Seq<(StageId, Vec<StageId>)>, id: StageId) -> bool {
    exists|b: StageId| #[trigger] adj_has(adj, id, b)
}

/// The stages with no outgoing link in `downstream` and no incoming link in
/// `upstream`, in stage order.
pub open spec fn disconnected_ids(
    stages: Seq<StageId>,
    downstream: Seq<(StageId, Vec<StageId>)>,
    upstream: Seq<(StageId, Vec<StageId>)>,
) -> Seq<StageId> {
    keep_ids(stages, |id: StageId| !has_links(downstream, id) && !has_links(upstream, id))
}

/// Whether `id` has a neighbour in `adj`.
fn has_links_exec(adj: &[(StageId, Vec<StageId>)], id: StageId) -> (r: bool)
    ensures
        r == has_links(adj@, id),
{
    let mut k: usize = 0;
    while k < adj.len()
        invariant
            k <= adj@.len(),
            forall|j: int| 0 <= j < k && (#[trigger] adj@[j]).0 == id ==> adj@[j].1@.len() == 0,
        decreases adj.len() - k,
    {
        if adj[k].0 == id && adj[k].1.len() > 0 {
            proof {
                assert(adj@[k as int].1@.contains(adj@[k as int].1@[0]));
                assert(adj_has(adj@, id, adj@[k as int].1@[0]));
            }
            return true;
        }
        k = k + 1;
    }
    false
}

/// Find the stages that have no connection at all: no outgoing link in
/// `downstream` and no incoming link in `upstream`. `None` when there are
/// none.
pub fn find_disconnected_stages(
    stages: &[StageId],
    downstream: &[(StageId, Vec<StageId>)],
    upstream: &[(StageId, Vec<StageId>)],
) -> (r: Option<Vec<StageId>>)
    ensures
        match r {
            Some(v) => v@ == disconnected_ids(stages@, downstream@, upstream@) && v@.len() > 0,
            None => disconnected_ids(stages@, downstream@, upstream@).len() == 0,
        },
{
    let ghost p = |id: StageId| !has_links(downstream@, id) && !has_links(upstream@, id);
    let mut r: Vec<StageId> = Vec::new();
    let mut k: usize = 0;
    while k < stages.len()
        invariant
            k <= stages@.len(),
            p == (|id: StageId| !has_links(downstream@, id) && !has_links(upstream@, id)),
            r@ == keep_ids(stages@.subrange(0, k as int), p),
        decreases stages.len() - k,
    {
        proof {
            lemma_keep_ids_step(stages@, p, k as int);
        }
        if !has_links_exec(downstream, stages[k]) && !has_links_exec(upstream, stages[k]) {
            r.push(stages[k]);
        }
        k = k + 1;
    }
    proof {
        assert(stages@.subrange(0, stages@.len() as int) =~= stages@);
    }
    if r.len() == 0 {
        None
    } else {
        Some(r)
    }
}

} // verus!
