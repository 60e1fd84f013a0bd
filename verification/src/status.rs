//! Coarse runtime lifecycle state of a stage, carried as an annotation.

use vstd::prelude::*;

verus! {

/// Coarse runtime lifecycle state for a stage.
#[derive(Clone, Copy, Debug, PartialEq, Eq, Structural)]
pub enum StageStatus {
    Running,
    Completed,
    Failed,
    Pending,
}

/// The snake_case name of a status.
pub open spec fn status_name(s: StageStatus) -> Seq<char> {
    match s {
        StageStatus::Running => "running"@,
        StageStatus::Completed => "completed"@,
        StageStatus::Failed => "failed"@,
        StageStatus::Pending => "pending"@,
    }
}

impl StageStatus {
    pub fn as_str(&self) -> (r: &'static str)
        ensures
            r@ == status_name(*self),
    {
        match self {
            StageStatus::Running => "running",
            StageStatus::Completed => "completed",
            StageStatus::Failed => "failed",
            StageStatus::Pending => "pending",
        }
    }
}

} // verus!
