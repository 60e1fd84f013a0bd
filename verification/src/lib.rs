//! Flow topology graph structures: stages, directed edges, and the
//! structural, semantic and reachability rules a flow graph must obey.

pub mod ids;

pub use ids::{Scc, Stage, StageId};
pub mod stage_type;
pub mod status;

pub use stage_type::{StageRole, StageType};
pub use status::StageStatus;
pub mod graph;
pub mod order;
pub mod text;
pub mod typing;

pub use typing::{EdgeTypingInfo, EdgeTypingLabelSource, EdgeTypingRole, StageTypingInfo, TypeHintInfo};
pub mod annotations;

pub use annotations::{
    BackoffStrategy, BoundaryPortSpec, CircuitBreakerInfo, CompositePortRef, ContractInfo, JoinMetadataInfo,
    MiddlewareInfo, OpenPolicy, PortDirection, RateLimiterInfo, RetryInfo, StageSubgraphMembership,
    SubgraphInternalEdge, TopologySubgraphInfo,
};
pub mod edge;
pub mod shape;
pub mod stage_info;

pub use edge::{DirectedEdge, EdgeKind};
pub use shape::{PortId, Shape};
pub use stage_info::{StageExtensions, StageInfo, StageMetadata};
pub mod validation;
pub mod boundary;
pub mod index;

pub use validation::{TopologyError, ValidationResult};
pub mod topology;

pub use topology::{Topology, TopologyMetrics, ValidationLevel};
pub mod ulid;

pub use ulid::{Ulid, UlidClock, UlidDecodeError, UlidGenError};
pub mod builder;

pub use builder::TopologyBuilder;
