//! Stage shapes: the port layout of a stage, for visualisation.

use vstd::prelude::*;
use crate::ids::StageId;
use crate::stage_type::StageType;

verus! {

/// Port identifier: stage id and local port number.
#[derive(Debug, Clone, Copy, PartialEq, Eq, Structural, PartialOrd, Ord, Hash)]
pub struct PortId {
    pub stage: StageId,
    /// 0, 1, 2... within that stage
    pub port: usize,
}

impl PortId {
    pub fn new(stage: StageId, port: usize) -> (r: PortId)
        ensures
            r.stage == stage,
            r.port == port,
    {
        PortId { stage, port }
    }
}

/// Connectivity of a stage.
#[derive(Debug, Clone)]
pub enum Shape {
    /// No inlets, one outlet (generates events)
    Source { out: PortId },
    /// One inlet, one outlet (transforms events)
    Flow { in_port: PortId, out: PortId },
    /// One inlet, no outlets (consumes events)
    Sink { in_port: PortId },
    /// One inlet, multiple outlets (splits stream)
    Broadcast { in_port: PortId, outs: Vec<PortId> },
    /// Multiple inlets, one outlet (merges streams)
    Merge { ins: Vec<PortId>, out: PortId },
}

/// Inlet ports of a shape, in order.
pub open spec fn inlet_ports(s: Shape) -> Seq<PortId> {
    match s {
        Shape::Source { .. } => Seq::empty(),
        Shape::Flow { in_port, .. } => seq![in_port],
        Shape::Sink { in_port } => seq![in_port],
        Shape::Broadcast { in_port, .. } => seq![in_port],
        Shape::Merge { ins, .. } => ins@,
    }
}

/// Outlet ports of a shape, in order.
pub open spec fn outlet_ports(s: Shape) -> Seq<PortId> {
    match s {
        Shape::Source { out } => seq![out],
        Shape::Flow { out, .. } => seq![out],
        Shape::Sink { .. } => Seq::empty(),
        Shape::Broadcast { outs, .. } => outs@,
        Shape::Merge { out, .. } => seq![out],
    }
}

fn refs_of(ports: &Vec<PortId>) -> (r: Vec<&PortId>)
    ensures
        r@.len() == ports@.len(),
        forall|i: int| 0 <= i < r@.len() ==> *r@[i] == ports@[i],
{
    let mut r: Vec<&PortId> = Vec::new();
    let mut i: usize = 0;
    while i < ports.len()
        invariant
            i <= ports@.len(),
            r@.len() == i,
            forall|k: int| 0 <= k < i ==> *r@[k] == ports@[k],
        decreases ports.len() - i,
    {
        r.push(&ports[i]);
        i = i + 1;
    }
    r
}

impl Shape {
    /// Get all inlet ports
    pub fn inlets(&self) -> (r: Vec<&PortId>)
        ensures
            r@.len() == inlet_ports(*self).len(),
            forall|i: int| 0 <= i < r@.len() ==> *r@[i] == inlet_ports(*self)[i],
    {
        match self {
            Shape::Source { .. } => Vec::new(),
            Shape::Flow { in_port, .. } => vec![in_port],
            Shape::Sink { in_port } => vec![in_port],
            Shape::Broadcast { in_port, .. } => vec![in_port],
            Shape::Merge { ins, .. } => refs_of(ins),
        }
    }

    /// Get all outlet ports
    pub fn outlets(&self) -> (r: Vec<&PortId>)
        ensures
            r@.len() == outlet_ports(*self).len(),
            forall|i: int| 0 <= i < r@.len() ==> *r@[i] == outlet_ports(*self)[i],
    {
        match self {
            Shape::Source { out } => vec![out],
            Shape::Flow { out, .. } => vec![out],
            Shape::Sink { .. } => Vec::new(),
            Shape::Broadcast { outs, .. } => refs_of(outs),
            Shape::Merge { out, .. } => vec![out],
        }
    }

    /// Create a source shape for the given stage
    pub fn new_source(stage: StageId) -> (r: Shape)
        ensures
            r matches Shape::Source { out } && out == (PortId { stage, port: 0 }),
    {
        Shape::Source { out: PortId::new(stage, 0) }
    }

    /// Create a flow shape for the given stage
    pub fn new_flow(stage: StageId) -> (r: Shape)
        ensures
            r matches Shape::Flow { in_port, out } && in_port == (PortId { stage, port: 0 })
                && out == (PortId { stage, port: 1 }),
    {
        Shape::Flow { in_port: PortId::new(stage, 0), out: PortId::new(stage, 1) }
    }

    /// Create a sink shape for the given stage
    pub fn new_sink(stage: StageId) -> (r: Shape)
        ensures
            r matches Shape::Sink { in_port } && in_port == (PortId { stage, port: 0 }),
    {
        Shape::Sink { in_port: PortId::new(stage, 0) }
    }

    /// Simple classification for backwards compatibility
    pub fn stage_type(&self) -> (r: StageType)
        ensures
            r == match *self {
                Shape::Source { .. } => StageType::InfiniteSource,
                Shape::Sink { .. } => StageType::Sink,
                _ => StageType::Transform,
            },
    {
        match self {
            Shape::Source { .. } => StageType::InfiniteSource,
            Shape::Sink { .. } => StageType::Sink,
            _ => StageType::Transform,
        }
    }
}

} // verus!
