//! Directed edges between stages.

use vstd::prelude::*;
use vstd::string::*;
use crate::annotations::{CompositePortRef, ContractInfo};
use crate::ids::{StageId, ulid_text};
use crate::typing::EdgeTypingInfo;

verus! {

/// Edge direction kind: forward flow (`a |> b`) or backflow (`a <| b`).
#[derive(Debug, Clone, Copy, PartialEq, Eq, Hash, Structural)]
pub enum EdgeKind {
    /// Forward data flow (a |> b)
    Forward,
    /// Backward data flow / backpressure (a <| b)
    Backward,
}

/// The operator text of an edge kind.
pub open spec fn operator_text(k: EdgeKind) -> Seq<char> {
    match k {
        EdgeKind::Forward => "|>"@,
        EdgeKind::Backward => "<|"@,
    }
}

impl EdgeKind {
    /// The operator of the kind: `|>` or `<|`.
    pub fn as_str(&self) -> (r: &'static str)
        ensures
            r@ == operator_text(*self),
    {
        match self {
            EdgeKind::Forward => "|>",
            EdgeKind::Backward => "<|",
        }
    }
}

/// Directed edge: explicit flow direction between stages.
///
/// `from`, `to` and `kind` drive validation and traversal; the remaining
/// fields are annotations. Equality considers only `(from, to, kind)`.
#[derive(Debug, Clone)]
#[non_exhaustive]
pub struct DirectedEdge {
    pub from: StageId,
    pub to: StageId,
    pub kind: EdgeKind,
    /// Structural contracts attached to this edge.
    pub contracts: Option<Vec<ContractInfo>>,
    /// Per-edge payload typing projection.
    pub typing: Option<EdgeTypingInfo>,
    /// Named composite ports crossed by this physical edge.
    pub composite_ports: Vec<CompositePortRef>,
}

/// Display text of an edge: `<from> <op> <to>`.
pub open spec fn edge_text(e: DirectedEdge) -> Seq<char> {
    ulid_text(e.from.value) + " "@ + operator_text(e.kind) + " "@ + ulid_text(e.to.value)
}

/// `e` links `from` to `to` with `kind` and carries no annotation.
pub open spec fn is_plain_edge(e: DirectedEdge, from: StageId, to: StageId, kind: EdgeKind) -> bool {
    &&& e.from == from
    &&& e.to == to
    &&& e.kind == kind
    &&& e.contracts is None
    &&& e.typing is None
    &&& e.composite_ports@.len() == 0
}

impl DirectedEdge {
    pub fn new(from: StageId, to: StageId, kind: EdgeKind) -> (r: DirectedEdge)
        ensures
            is_plain_edge(r, from, to, kind),
    {
        DirectedEdge { from, to, kind, contracts: None, typing: None, composite_ports: Vec::new() }
    }

    pub fn with_contracts(self, contracts: Vec<ContractInfo>) -> (r: DirectedEdge)
        ensures
            r == (DirectedEdge { contracts: Some(contracts), ..self }),
    {
        DirectedEdge { contracts: Some(contracts), ..self }
    }

    pub fn with_typing(self, typing: EdgeTypingInfo) -> (r: DirectedEdge)
        ensures
            r == (DirectedEdge { typing: Some(typing), ..self }),
    {
        DirectedEdge { typing: Some(typing), ..self }
    }

    pub fn with_composite_ports(self, ports: Vec<CompositePortRef>) -> (r: DirectedEdge)
        ensures
            r == (DirectedEdge { composite_ports: ports, ..self }),
    {
        DirectedEdge { composite_ports: ports, ..self }
    }

    /// The edge as text: `<from> <op> <to>`.
    pub fn to_string(&self) -> (r: String)
        ensures
            r@ == edge_text(*self),
    {
        let mut s = self.from.to_string();
        s.append(" ");
        s.append(self.kind.as_str());
        s.append(" ");
        let to = self.to.to_string();
        s.append(to.as_str());
        s
    }
}

impl PartialEq for DirectedEdge {
    fn eq(&self, other: &Self) -> (r: bool) {
        self.from == other.from && self.to == other.to && self.kind == other.kind
    }
}

impl Eq for DirectedEdge {}

/// Hashes what equality compares: the endpoints and the kind.
impl std::hash::Hash for DirectedEdge {
    fn hash<H: std::hash::Hasher>(&self, state: &mut H) {
        let kind: u8 = match self.kind {
            EdgeKind::Forward => 0,
            EdgeKind::Backward => 1,
        };
        std::hash::Hash::hash(&self.from.value, state);
        std::hash::Hash::hash(&self.to.value, state);
        std::hash::Hash::hash(&kind, state);
    }
}

/// `Hash::hash` of a `u128` into any hasher: feeds the value to it.
pub assume_specification<H: std::hash::Hasher>[ <u128 as std::hash::Hash>::hash::<H> ](value: &u128, state: &mut H);

/// `Hash::hash` of a `u8` into any hasher: feeds the value to it.
pub assume_specification<H: std::hash::Hasher>[ <u8 as std::hash::Hash>::hash::<H> ](value: &u8, state: &mut H);

impl vstd::std_specs::cmp::PartialEqSpecImpl for DirectedEdge {
    open spec fn obeys_eq_spec() -> bool {
        true
    }

    open spec fn eq_spec(&self, other: &Self) -> bool {
        self.from == other.from && self.to == other.to && self.kind == other.kind
    }
}

} // verus!
