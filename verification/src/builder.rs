//! Incremental construction of topologies.

use vstd::prelude::*;
use crate::edge::{DirectedEdge, EdgeKind, is_plain_edge};
use crate::ids::{StageId, u128_be_bytes, be_value};
use crate::stage_info::{StageInfo, auto_name};
use crate::stage_type::StageType;
use crate::annotations::TopologySubgraphInfo;
use crate::topology::{Topology, stage_map, links_of, new_accepts, sccs_fit, is_construction_error};
use crate::validation::{TopologyError, ValidationResult, structure_ok};

verus! {

/// `after` is `before` with a plain forward edge from `current` to `id`
/// appended when there is a current stage, and `before` otherwise.
pub open spec fn links_from_current(current: Option<StageId>, before: Seq<DirectedEdge>, after: Seq<DirectedEdge>, id: StageId) -> bool {
    match current {
        Some(from) => after.len() == before.len() + 1 && after.drop_last() == before
            && is_plain_edge(after.last(), from, id, EdgeKind::Forward),
        None => after == before,
    }
}

/// Builder for pipeline topologies. Each added stage is linked from the
/// current stage, if there is one, and becomes the current stage.
#[derive(Debug)]
pub struct TopologyBuilder {
    stages: Vec<StageInfo>,
    edges: Vec<DirectedEdge>,
    current_stage: Option<StageId>,
    issued: u128,
}

impl TopologyBuilder {
    /// The stages added so far.
    pub closed spec fn stage_list(&self) -> Seq<StageInfo> {
        self.stages@
    }

    /// The edges added so far.
    pub closed spec fn edge_list(&self) -> Seq<DirectedEdge> {
        self.edges@
    }

    /// The stage the next added stage is linked from.
    pub closed spec fn current(&self) -> Option<StageId> {
        self.current_stage
    }

    /// How many ids `add_stage` has generated.
    pub closed spec fn issued(&self) -> u128 {
        self.issued
    }

    /// An empty builder.
    pub fn new() -> (r: TopologyBuilder)
        ensures
            r.stage_list().len() == 0,
            r.edge_list().len() == 0,
            r.current() is None,
            r.issued() == 0,
    {
        TopologyBuilder { stages: Vec::new(), edges: Vec::new(), current_stage: None, issued: 0 }
    }

    /// Add a stage with an explicit id (named `stage_<id>` when no name is
    /// given), link it from the current stage, and make it current.
    pub fn add_stage_with_id(&mut self, id: StageId, name: Option<String>, stage_type: StageType) -> (r: StageId)
        ensures
            r == id,
            final(self).stage_list().len() == old(self).stage_list().len() + 1,
            final(self).stage_list().drop_last() == old(self).stage_list(),
            final(self).stage_list().last().id == id,
            final(self).stage_list().last().stage_type == stage_type,
            final(self).stage_list().last().name@ == match name {
                Some(n) => n@,
                None => auto_name(id),
            },
            links_from_current(old(self).current(), old(self).edge_list(), final(self).edge_list(), id),
            final(self).current() == Some(id),
            final(self).issued() == old(self).issued(),
    {
        let info = match name {
            Some(n) => StageInfo::new(id, n.as_str(), stage_type),
            None => StageInfo::auto_named(id, stage_type),
        };
        self.stages.push(info);
        match self.current_stage {
            Some(from) => {
                self.edges.push(DirectedEdge::new(from, id, EdgeKind::Forward));
            },
            None => {},
        }
        self.current_stage = Some(id);
        proof {
            assert(self.stages@.drop_last() =~= old(self).stages@);
            if old(self).current_stage is Some {
                assert(self.edges@.drop_last() =~= old(self).edges@);
            }
        }
        id
    }

    /// Add a Transform stage with the next generated id (1, 2, ... in
    /// big-endian bytes), linked from the current stage.
    pub fn add_stage(&mut self, name: Option<String>) -> (r: StageId)
        requires
            old(self).issued() < u128::MAX,
        ensures
            final(self).issued() == old(self).issued() + 1,
            r.value == final(self).issued(),
            final(self).stage_list().len() == old(self).stage_list().len() + 1,
            final(self).stage_list().drop_last() == old(self).stage_list(),
            final(self).stage_list().last().id == r,
            final(self).stage_list().last().stage_type == StageType::Transform,
            final(self).stage_list().last().name@ == match name {
                Some(n) => n@,
                None => auto_name(r),
            },
            links_from_current(old(self).current(), old(self).edge_list(), final(self).edge_list(), r),
            final(self).current() == Some(r),
    {
        self.issued = self.issued + 1;
        let id = StageId::from_bytes(u128_be_bytes(self.issued));
        self.add_stage_with_id(id, name, StageType::Transform)
    }

    /// Add an explicit forward edge.
    pub fn add_edge(&mut self, from: StageId, to: StageId)
        ensures
            final(self).edge_list().len() == old(self).edge_list().len() + 1,
            final(self).edge_list().drop_last() == old(self).edge_list(),
            is_plain_edge(final(self).edge_list().last(), from, to, EdgeKind::Forward),
            final(self).stage_list() == old(self).stage_list(),
            final(self).current() == old(self).current(),
            final(self).issued() == old(self).issued(),
    {
        self.edges.push(DirectedEdge::new(from, to, EdgeKind::Forward));
        proof {
            assert(self.edges@.drop_last() =~= old(self).edges@);
        }
    }

    /// Make `stage` the current stage.
    pub fn set_current(&mut self, stage: StageId)
        ensures
            final(self).current() == Some(stage),
            final(self).stage_list() == old(self).stage_list(),
            final(self).edge_list() == old(self).edge_list(),
            final(self).issued() == old(self).issued(),
    {
        self.current_stage = Some(stage);
    }

    /// Clear the current stage, to start a separate chain.
    pub fn reset_current(&mut self)
        ensures
            final(self).current() is None,
            final(self).stage_list() == old(self).stage_list(),
            final(self).edge_list() == old(self).edge_list(),
            final(self).issued() == old(self).issued(),
    {
        self.current_stage = None;
    }

    /// Build a fully validated topology.
    pub fn build(self) -> (r: Result<Topology, TopologyError>)
        ensures
            r is Ok <==> new_accepts(self.stage_list(), self.edge_list()),
            r matches Ok(t) ==> t.wf() && t.stage_list() == stage_map(self.stage_list()) && t.edge_list() == self.edge_list(),
            r matches Err(e) ==> if structure_ok(stage_map(self.stage_list()), self.edge_list())
                && !sccs_fit(stage_map(self.stage_list()), self.edge_list()) {
                is_construction_error(e, stage_map(self.stage_list()), self.edge_list())
            } else {
                forall|adj: Seq<(StageId, Vec<StageId>)>| links_of(adj, self.edge_list())
                    ==> crate::topology::is_level_error(e, stage_map(self.stage_list()), self.edge_list(), adj,
                        Seq::<TopologySubgraphInfo>::empty())
            },
    {
        Topology::new(self.stages, self.edges)
    }

    /// Build with structural validation only.
    pub fn build_unchecked(self) -> (r: ValidationResult<Topology>)
        ensures
            r is Ok <==> structure_ok(stage_map(self.stage_list()), self.edge_list())
                && sccs_fit(stage_map(self.stage_list()), self.edge_list()),
            r matches Err(e) ==> is_construction_error(e, stage_map(self.stage_list()), self.edge_list()),
            r matches Ok(t) ==> t.wf() && t.stage_list() == stage_map(self.stage_list()) && t.edge_list() == self.edge_list(),
    {
        Topology::new_unvalidated(self.stages, self.edges)
    }
}

impl Default for TopologyBuilder {
    fn default() -> (r: TopologyBuilder)
        ensures
            r.stage_list().len() == 0,
            r.edge_list().len() == 0,
            r.current() is None,
            r.issued() == 0,
    {
        TopologyBuilder::new()
    }
}

} // verus!
