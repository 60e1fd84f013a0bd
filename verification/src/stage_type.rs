//! Stage type classification and the connection role derived from it.

use vstd::prelude::*;

verus! {

/// Stage type classification for pipeline coordination.
#[derive(Debug, Clone, Copy, PartialEq, Eq, Hash, Structural)]
pub enum StageType {
    /// Source that will eventually complete (e.g., file reader, bounded collection)
    FiniteSource,
    /// Source that runs indefinitely (e.g., network listener, message queue consumer)
    InfiniteSource,
    /// Transforms input events to output events
    Transform,
    /// Terminal stage that consumes events (e.g., database writer, API caller)
    Sink,
    /// Stage that maintains internal state across events
    Stateful,
    /// Stage that joins events from multiple upstream sources
    Join,
}

/// Connection semantics of a stage (producer/processor/consumer).
#[derive(Debug, Clone, Copy, PartialEq, Eq, Hash, Structural)]
pub enum StageRole {
    /// Generates events only (sources)
    Producer,
    /// Consumes and produces (Transform/Stateful/Join)
    Processor,
    /// Consumes events only (sinks)
    Consumer,
}

/// The role of a stage type: sources produce, sinks consume, the rest process.
pub open spec fn spec_role(t: StageType) -> StageRole {
    match t {
        StageType::FiniteSource | StageType::InfiniteSource => StageRole::Producer,
        StageType::Transform | StageType::Stateful | StageType::Join => StageRole::Processor,
        StageType::Sink => StageRole::Consumer,
    }
}

/// The snake_case name of a stage type.
pub open spec fn stage_type_name(t: StageType) -> Seq<char> {
    match t {
        StageType::FiniteSource => "finite_source"@,
        StageType::InfiniteSource => "infinite_source"@,
        StageType::Transform => "transform"@,
        StageType::Sink => "sink"@,
        StageType::Stateful => "stateful"@,
        StageType::Join => "join"@,
    }
}

/// The variant name of a role, as its `Debug` form prints it.
pub open spec fn role_debug_name(r: StageRole) -> Seq<char> {
    match r {
        StageRole::Producer => "Producer"@,
        StageRole::Processor => "Processor"@,
        StageRole::Consumer => "Consumer"@,
    }
}

impl StageType {
    /// Check if this is a source that needs explicit start
    pub fn is_source(&self) -> (r: bool)
        ensures
            r == (*self == StageType::FiniteSource || *self == StageType::InfiniteSource),
    {
        match self {
            StageType::FiniteSource | StageType::InfiniteSource => true,
            _ => false,
        }
    }

    /// Check if this is a finite source
    pub fn is_finite_source(&self) -> (r: bool)
        ensures
            r == (*self == StageType::FiniteSource),
    {
        match self {
            StageType::FiniteSource => true,
            _ => false,
        }
    }

    /// Check if this is an infinite source
    pub fn is_infinite_source(&self) -> (r: bool)
        ensures
            r == (*self == StageType::InfiniteSource),
    {
        match self {
            StageType::InfiniteSource => true,
            _ => false,
        }
    }

    /// Check if this stage generates events (exactly the sources)
    pub fn generates_events(&self) -> (r: bool)
        ensures
            r == (*self == StageType::FiniteSource || *self == StageType::InfiniteSource),
    {
        self.is_source()
    }

    /// Check if this stage consumes events (everything but the sources)
    pub fn consumes_events(&self) -> (r: bool)
        ensures
            r == !(*self == StageType::FiniteSource || *self == StageType::InfiniteSource),
    {
        !self.is_source()
    }

    /// Check if this is a terminal stage
    pub fn is_terminal(&self) -> (r: bool)
        ensures
            r == (*self == StageType::Sink),
    {
        match self {
            StageType::Sink => true,
            _ => false,
        }
    }

    /// Get a human-readable name for the stage type
    pub fn as_str(&self) -> (r: &'static str)
        ensures
            r@ == stage_type_name(*self),
    {
        match self {
            StageType::FiniteSource => "finite_source",
            StageType::InfiniteSource => "infinite_source",
            StageType::Transform => "transform",
            StageType::Sink => "sink",
            StageType::Stateful => "stateful",
            StageType::Join => "join",
        }
    }

    /// Get the connection role for this stage type.
    pub fn role(&self) -> (r: StageRole)
        ensures
            r == spec_role(*self),
    {
        match self {
            StageType::FiniteSource | StageType::InfiniteSource => StageRole::Producer,
            StageType::Transform | StageType::Stateful | StageType::Join => StageRole::Processor,
            StageType::Sink => StageRole::Consumer,
        }
    }
}

impl StageRole {
    /// The variant name of the role (`"Producer"`, `"Processor"`, `"Consumer"`).
    pub fn debug_name(&self) -> (r: &'static str)
        ensures
            r@ == role_debug_name(*self),
    {
        match self {
            StageRole::Producer => "Producer",
            StageRole::Processor => "Processor",
            StageRole::Consumer => "Consumer",
        }
    }
}

/// Roles follow the generation predicates: a type is a producer exactly when
/// it generates events, and a consumer exactly when it is terminal.
pub proof fn lemma_role_matches_predicates(t: StageType)
    ensures
        (spec_role(t) == StageRole::Producer) <==> (t == StageType::FiniteSource
            || t == StageType::InfiniteSource),
        (spec_role(t) == StageRole::Consumer) <==> (t == StageType::Sink),
{
}

} // verus!
