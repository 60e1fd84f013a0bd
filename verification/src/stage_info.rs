//! The stage record carried by a topology.

use vstd::prelude::*;
use vstd::string::*;
use crate::annotations::{JoinMetadataInfo, MiddlewareInfo, StageSubgraphMembership};
use crate::ids::{StageId, ulid_text};
use crate::stage_type::{StageRole, StageType};
use crate::status::StageStatus;
use crate::typing::StageTypingInfo;

verus! {

/// Canonical stage record carried by the topology document.
///
/// The structural fields (`id`, `name`, `stage_type`) drive validation, SCC
/// computation and traversal. The remaining fields are optional annotations
/// that graph algorithms never read.
#[derive(Clone, Debug)]
#[non_exhaustive]
pub struct StageInfo {
    pub id: StageId,
    /// Human-readable name (for debugging/logging/UI)
    pub name: String,
    /// Semantic stage type used for validation and runtime coordination
    pub stage_type: StageType,
    /// Optional extension point for additional metadata (legacy).
    pub extensions: Option<StageExtensions>,
    /// Coarse runtime lifecycle state.
    pub status: Option<StageStatus>,
    /// Connection role derived from `stage_type` at flow build time.
    pub role: Option<StageRole>,
    /// Whether the stage participates in a cycle.
    pub is_cycle_member: Option<bool>,
    /// Structured middleware configuration.
    pub middleware: Option<MiddlewareInfo>,
    /// Catalog/stream source classification for join stages.
    pub join_metadata: Option<JoinMetadataInfo>,
    /// Authoring-time stage type contracts.
    pub typing: Option<StageTypingInfo>,
    /// Logical subgraph membership.
    pub subgraph: Option<StageSubgraphMembership>,
}

/// The name a stage gets when none is given: `stage_` and its id text.
pub open spec fn auto_name(id: StageId) -> Seq<char> {
    "stage_"@ + ulid_text(id.value)
}

impl StageInfo {
    /// Construct with all annotation fields unset.
    pub fn new(id: StageId, name: &str, stage_type: StageType) -> (r: StageInfo)
        ensures
            r.id == id,
            r.name@ == name@,
            r.stage_type == stage_type,
            r.extensions is None,
            r.status is None,
            r.role is None,
            r.is_cycle_member is None,
            r.middleware is None,
            r.join_metadata is None,
            r.typing is None,
            r.subgraph is None,
    {
        StageInfo {
            id,
            name: String::from_str(name),
            stage_type,
            extensions: None,
            status: None,
            role: None,
            is_cycle_member: None,
            middleware: None,
            join_metadata: None,
            typing: None,
            subgraph: None,
        }
    }

    /// Create with the name `stage_<id>` and all annotations unset.
    pub fn auto_named(id: StageId, stage_type: StageType) -> (r: StageInfo)
        ensures
            r.id == id,
            r.name@ == auto_name(id),
            r.stage_type == stage_type,
            r.extensions is None,
            r.status is None,
            r.role is None,
            r.is_cycle_member is None,
            r.middleware is None,
            r.join_metadata is None,
            r.typing is None,
            r.subgraph is None,
    {
        let mut name = String::from_str("stage_");
        let text = id.to_string();
        name.append(text.as_str());
        StageInfo {
            id,
            name,
            stage_type,
            extensions: None,
            status: None,
            role: None,
            is_cycle_member: None,
            middleware: None,
            join_metadata: None,
            typing: None,
            subgraph: None,
        }
    }

    pub fn with_status(self, status: StageStatus) -> (r: StageInfo)
        ensures
            r == (StageInfo { status: Some(status), ..self }),
    {
        StageInfo { status: Some(status), ..self }
    }

    pub fn with_role(self, role: StageRole) -> (r: StageInfo)
        ensures
            r == (StageInfo { role: Some(role), ..self }),
    {
        StageInfo { role: Some(role), ..self }
    }

    pub fn with_is_cycle_member(self, is_cycle_member: bool) -> (r: StageInfo)
        ensures
            r == (StageInfo { is_cycle_member: Some(is_cycle_member), ..self }),
    {
        StageInfo { is_cycle_member: Some(is_cycle_member), ..self }
    }

    pub fn with_middleware(self, middleware: MiddlewareInfo) -> (r: StageInfo)
        ensures
            r == (StageInfo { middleware: Some(middleware), ..self }),
    {
        StageInfo { middleware: Some(middleware), ..self }
    }

    pub fn with_join_metadata(self, join_metadata: JoinMetadataInfo) -> (r: StageInfo)
        ensures
            r == (StageInfo { join_metadata: Some(join_metadata), ..self }),
    {
        StageInfo { join_metadata: Some(join_metadata), ..self }
    }

    pub fn with_typing(self, typing: StageTypingInfo) -> (r: StageInfo)
        ensures
            r == (StageInfo { typing: Some(typing), ..self }),
    {
        StageInfo { typing: Some(typing), ..self }
    }

    pub fn with_subgraph(self, subgraph: StageSubgraphMembership) -> (r: StageInfo)
        ensures
            r == (StageInfo { subgraph: Some(subgraph), ..self }),
    {
        StageInfo { subgraph: Some(subgraph), ..self }
    }
}

/// Extensible metadata container for stages (legacy). Each entry is an
/// opaque JSON document.
#[derive(Clone, Debug, Default)]
pub struct StageExtensions {
    /// Middleware configuration (rate limiters, circuit breakers, retry policies)
    pub middleware: Option<serde_json::Value>,
    /// UI-specific hints (custom icons, colors, grouping)
    pub ui_hints: Option<serde_json::Value>,
}

/// Legacy metadata record; `StageInfo` is the primary carrier.
#[derive(Clone, Debug)]
pub struct StageMetadata {
    pub id: StageId,
    pub name: String,
    pub stage_type: StageType,
    pub description: Option<String>,
}

} // verus!
