//! Optional annotations carried by stages and edges: contracts, join
//! metadata, middleware configuration and logical subgraphs. Graph
//! validation and traversal never read them.

use vstd::prelude::*;
use vstd::string::*;
use crate::ids::StageId;

verus! {

// ----------------------------------------------------------------- contracts

/// A JSON document (`serde_json::Value`), carried through unread.
#[verifier::external_type_specification]
#[verifier::external_body]
pub struct ExJsonValue(serde_json::Value);

/// One contract attached to a directed edge, with an optional JSON
/// configuration that the library carries but never reads.
#[derive(Clone, Debug, PartialEq)]
pub struct ContractInfo {
    /// Contract name (e.g. `"TransportContract"`).
    pub name: String,
    /// Optional opaque configuration.
    pub config: Option<serde_json::Value>,
}

impl ContractInfo {
    pub fn new(name: &str) -> (r: ContractInfo)
        ensures
            r.name@ == name@,
            r.config is None,
    {
        ContractInfo { name: String::from_str(name), config: None }
    }

    pub fn with_config(self, config: serde_json::Value) -> (r: ContractInfo)
        ensures
            r.name == self.name,
            r.config == Some(config),
    {
        ContractInfo { name: self.name, config: Some(config) }
    }
}

// ------------------------------------------------------------------- joins

/// Join-specific source classification: which upstream stages feed the
/// reference (catalog) leg and which feed the stream leg.
#[derive(Clone, Debug, PartialEq, Eq)]
pub struct JoinMetadataInfo {
    pub catalog_source_ids: Vec<StageId>,
    pub stream_source_ids: Vec<StageId>,
}

impl JoinMetadataInfo {
    pub fn new(catalog_source_ids: Vec<StageId>, stream_source_ids: Vec<StageId>) -> (r: JoinMetadataInfo)
        ensures
            r.catalog_source_ids == catalog_source_ids,
            r.stream_source_ids == stream_source_ids,
    {
        JoinMetadataInfo { catalog_source_ids, stream_source_ids }
    }
}

// -------------------------------------------------------------- middleware

/// Middleware stack and configuration for one stage.
#[derive(Clone, Debug, PartialEq)]
pub struct MiddlewareInfo {
    /// Ordered list of middleware names in the stack (outermost first).
    pub stack: Vec<String>,
    pub circuit_breaker: Option<CircuitBreakerInfo>,
    pub rate_limiter: Option<RateLimiterInfo>,
    pub retry: Option<RetryInfo>,
}

impl MiddlewareInfo {
    pub fn new(stack: Vec<String>) -> (r: MiddlewareInfo)
        ensures
            r.stack == stack,
            r.circuit_breaker is None,
            r.rate_limiter is None,
            r.retry is None,
    {
        MiddlewareInfo { stack, circuit_breaker: None, rate_limiter: None, retry: None }
    }

    pub fn with_circuit_breaker(self, config: CircuitBreakerInfo) -> (r: MiddlewareInfo)
        ensures
            r.stack == self.stack,
            r.circuit_breaker == Some(config),
            r.rate_limiter == self.rate_limiter,
            r.retry == self.retry,
    {
        MiddlewareInfo { circuit_breaker: Some(config), ..self }
    }

    pub fn with_rate_limiter(self, config: RateLimiterInfo) -> (r: MiddlewareInfo)
        ensures
            r.stack == self.stack,
            r.circuit_breaker == self.circuit_breaker,
            r.rate_limiter == Some(config),
            r.retry == self.retry,
    {
        MiddlewareInfo { rate_limiter: Some(config), ..self }
    }

    pub fn with_retry(self, config: RetryInfo) -> (r: MiddlewareInfo)
        ensures
            r.stack == self.stack,
            r.circuit_breaker == self.circuit_breaker,
            r.rate_limiter == self.rate_limiter,
            r.retry == Some(config),
    {
        MiddlewareInfo { retry: Some(config), ..self }
    }
}

/// Static circuit-breaker configuration.
#[derive(Clone, Debug, PartialEq)]
pub struct CircuitBreakerInfo {
    /// Number of failures before opening.
    pub threshold: usize,
    /// Cooldown before half-open, in milliseconds.
    pub cooldown_ms: u64,
    pub open_policy: OpenPolicy,
    pub has_fallback: bool,
}

/// Behaviour while the circuit is open.
#[derive(Clone, Copy, Debug, PartialEq, Eq, Structural)]
pub enum OpenPolicy {
    EmitFallback,
    FailFast,
    Skip,
}

/// Static rate-limiter configuration. The rates are IEEE-754 double
/// precision numbers, held here by their bit patterns (`f64::to_bits`).
#[derive(Clone, Debug, PartialEq)]
pub struct RateLimiterInfo {
    pub tokens_per_sec: u64,
    pub burst_capacity: u64,
    pub configured_burst_capacity: Option<u64>,
    pub cost_per_event: u64,
    pub limit_rate: u64,
}

/// Static retry policy configuration.
#[derive(Clone, Debug, PartialEq)]
pub struct RetryInfo {
    /// Maximum retry attempts; `None` means unbounded.
    pub max_attempts: Option<usize>,
    pub backoff: BackoffStrategy,
    pub base_delay_ms: Option<u64>,
}

/// Retry backoff curve.
#[derive(Clone, Copy, Debug, PartialEq, Eq, Structural)]
pub enum BackoffStrategy {
    Fixed,
    Exponential,
    /// No backoff between attempts (serialised as `none`).
    NoBackoff,
}

// --------------------------------------------------------------- subgraphs

/// Manifest schema version assumed when none is given.
pub fn schema_version_one() -> (r: u32)
    ensures
        r == 1,
{
    1
}

/// Whether a manifest schema version is the default one (it is then left
/// out of serialised manifests).
pub fn is_schema_version_one(version: &u32) -> (r: bool)
    ensures
        r == (*version == 1),
{
    *version == 1
}

/// Per-stage logical subgraph membership.
#[derive(Clone, Debug, PartialEq, Eq)]
#[non_exhaustive]
pub struct StageSubgraphMembership {
    pub subgraph_id: String,
    pub kind: String,
    pub binding: String,
    /// Stable member role id, unique per composite.
    pub role: String,
    pub order: u16,
    pub is_entry: bool,
    pub is_exit: bool,
    /// Kind-scoped member classification.
    pub class: Option<String>,
}

impl StageSubgraphMembership {
    /// Construct with annotations unset.
    pub fn new(
        subgraph_id: &str,
        kind: &str,
        binding: &str,
        role: &str,
        order: u16,
        is_entry: bool,
        is_exit: bool,
    ) -> (r: StageSubgraphMembership)
        ensures
            r.subgraph_id@ == subgraph_id@,
            r.kind@ == kind@,
            r.binding@ == binding@,
            r.role@ == role@,
            r.order == order,
            r.is_entry == is_entry,
            r.is_exit == is_exit,
            r.class is None,
    {
        StageSubgraphMembership {
            subgraph_id: String::from_str(subgraph_id),
            kind: String::from_str(kind),
            binding: String::from_str(binding),
            role: String::from_str(role),
            order,
            is_entry,
            is_exit,
            class: None,
        }
    }

    pub fn with_class(self, class: &str) -> (r: StageSubgraphMembership)
        ensures
            r.subgraph_id == self.subgraph_id,
            r.kind == self.kind,
            r.binding == self.binding,
            r.role == self.role,
            r.order == self.order,
            r.is_entry == self.is_entry,
            r.is_exit == self.is_exit,
            r.class matches Some(c) && c@ == class@,
    {
        StageSubgraphMembership { class: Some(String::from_str(class)), ..self }
    }
}

/// Registry entry describing one logical subgraph.
#[derive(Clone, Debug, PartialEq, Eq)]
#[non_exhaustive]
pub struct TopologySubgraphInfo {
    pub subgraph_id: String,
    pub kind: String,
    pub binding: String,
    pub label: String,
    pub member_stage_ids: Vec<StageId>,
    pub internal_edges: Vec<SubgraphInternalEdge>,
    pub entry_stage_ids: Vec<StageId>,
    pub exit_stage_ids: Vec<StageId>,
    pub parent_subgraph_id: Option<String>,
    pub collapsible: bool,
    /// Manifest schema version.
    pub schema_version: u32,
    /// Declared boundary ports.
    pub boundary_ports: Vec<BoundaryPortSpec>,
}

impl TopologySubgraphInfo {
    /// Construct with annotations unset (schema version 1, no ports, no
    /// parent).
    pub fn new(
        subgraph_id: &str,
        kind: &str,
        binding: &str,
        label: &str,
        member_stage_ids: Vec<StageId>,
        internal_edges: Vec<SubgraphInternalEdge>,
        entry_stage_ids: Vec<StageId>,
        exit_stage_ids: Vec<StageId>,
        collapsible: bool,
    ) -> (r: TopologySubgraphInfo)
        ensures
            r.subgraph_id@ == subgraph_id@,
            r.kind@ == kind@,
            r.binding@ == binding@,
            r.label@ == label@,
            r.member_stage_ids == member_stage_ids,
            r.internal_edges == internal_edges,
            r.entry_stage_ids == entry_stage_ids,
            r.exit_stage_ids == exit_stage_ids,
            r.parent_subgraph_id is None,
            r.collapsible == collapsible,
            r.schema_version == 1,
            r.boundary_ports@.len() == 0,
    {
        TopologySubgraphInfo {
            subgraph_id: String::from_str(subgraph_id),
            kind: String::from_str(kind),
            binding: String::from_str(binding),
            label: String::from_str(label),
            member_stage_ids,
            internal_edges,
            entry_stage_ids,
            exit_stage_ids,
            parent_subgraph_id: None,
            collapsible,
            schema_version: 1,
            boundary_ports: Vec::new(),
        }
    }

    pub fn with_parent_subgraph_id(self, parent: &str) -> (r: TopologySubgraphInfo)
        ensures
            r.parent_subgraph_id matches Some(p) && p@ == parent@,
            r.subgraph_id == self.subgraph_id,
            r.member_stage_ids == self.member_stage_ids,
            r.internal_edges == self.internal_edges,
            r.boundary_ports == self.boundary_ports,
            r.schema_version == self.schema_version,
    {
        TopologySubgraphInfo { parent_subgraph_id: Some(String::from_str(parent)), ..self }
    }

    pub fn with_boundary_ports(self, ports: Vec<BoundaryPortSpec>) -> (r: TopologySubgraphInfo)
        ensures
            r.boundary_ports == ports,
            r.subgraph_id == self.subgraph_id,
            r.member_stage_ids == self.member_stage_ids,
            r.internal_edges == self.internal_edges,
            r.parent_subgraph_id == self.parent_subgraph_id,
            r.schema_version == self.schema_version,
    {
        TopologySubgraphInfo { boundary_ports: ports, ..self }
    }
}

/// One internal edge within a subgraph, with its lane label (kept in the
/// historical `role` field).
#[derive(Clone, Debug, PartialEq, Eq)]
#[non_exhaustive]
pub struct SubgraphInternalEdge {
    pub from_stage_id: StageId,
    pub to_stage_id: StageId,
    pub role: String,
}

impl SubgraphInternalEdge {
    pub fn new(from_stage_id: StageId, to_stage_id: StageId, lane: &str) -> (r: SubgraphInternalEdge)
        ensures
            r.from_stage_id == from_stage_id,
            r.to_stage_id == to_stage_id,
            r.role@ == lane@,
    {
        SubgraphInternalEdge { from_stage_id, to_stage_id, role: String::from_str(lane) }
    }
}

/// Direction of a composite boundary port.
#[derive(Clone, Copy, Debug, PartialEq, Eq, Hash, Structural)]
pub enum PortDirection {
    Input,
    Output,
}

/// A reference from one physical topology edge to the named composite port
/// that edge crosses.
#[derive(Clone, Debug, PartialEq, Eq, Hash)]
#[non_exhaustive]
pub struct CompositePortRef {
    pub subgraph_id: String,
    pub port_name: String,
}

impl CompositePortRef {
    pub fn new(subgraph_id: &str, port_name: &str) -> (r: CompositePortRef)
        ensures
            r.subgraph_id@ == subgraph_id@,
            r.port_name@ == port_name@,
    {
        CompositePortRef { subgraph_id: String::from_str(subgraph_id), port_name: String::from_str(port_name) }
    }
}

/// Declared boundary port on a composite.
#[derive(Clone, Debug, PartialEq, Eq)]
#[non_exhaustive]
pub struct BoundaryPortSpec {
    pub name: String,
    pub direction: PortDirection,
    pub member_stage_id: StageId,
    pub payload_event_types: Vec<String>,
    pub default: bool,
}

impl BoundaryPortSpec {
    pub fn new(
        name: &str,
        direction: PortDirection,
        member_stage_id: StageId,
        payload_event_types: Vec<String>,
        default: bool,
    ) -> (r: BoundaryPortSpec)
        ensures
            r.name@ == name@,
            r.direction == direction,
            r.member_stage_id == member_stage_id,
            r.payload_event_types == payload_event_types,
            r.default == default,
    {
        BoundaryPortSpec { name: String::from_str(name), direction, member_stage_id, payload_event_types, default }
    }
}

} // verus!
