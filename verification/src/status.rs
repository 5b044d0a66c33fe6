//! Agent status and the small classifications the dashboard derives from it.

use vstd::prelude::*;

verus! {

/// Lifecycle state of one agent session.
#[derive(Debug, Clone, Copy, PartialEq, Eq, Structural)]
pub enum AgentStatus {
    /// Session ended or has been quiet for the idle timeout.
    Idle,
    /// Recent activity, no stale tool.
    Working,
    /// Recent activity and a pending tool past the permission timeout, or an
    /// ended turn awaiting the user's reply.
    Waiting,
    Error,
}

/// Sort rank of a status: smaller is more important.
pub open spec fn status_rank(s: AgentStatus) -> u8 {
    match s {
        AgentStatus::Waiting => 0,
        AgentStatus::Error => 1,
        AgentStatus::Working => 2,
        AgentStatus::Idle => 3,
    }
}

impl AgentStatus {
    /// The CSS class that styles a tile in this state.
    pub fn css_class(&self) -> (r: &'static str)
        ensures
            r@ == (match *self {
                AgentStatus::Idle => "idle"@,
                AgentStatus::Working => "working"@,
                AgentStatus::Waiting => "waiting"@,
                AgentStatus::Error => "error"@,
            }),
    {
        match self {
            AgentStatus::Idle => "idle",
            AgentStatus::Working => "working",
            AgentStatus::Waiting => "waiting",
            AgentStatus::Error => "error",
        }
    }

    /// Human-readable name of the state.
    pub fn label(&self) -> (r: &'static str)
        ensures
            r@ == (match *self {
                AgentStatus::Idle => "Idle"@,
                AgentStatus::Working => "Working"@,
                AgentStatus::Waiting => "Waiting"@,
                AgentStatus::Error => "Error"@,
            }),
    {
        match self {
            AgentStatus::Idle => "Idle",
            AgentStatus::Working => "Working",
            AgentStatus::Waiting => "Waiting",
            AgentStatus::Error => "Error",
        }
    }

    /// Every state but `Idle` counts as active.
    pub fn is_active(&self) -> (r: bool)
        ensures
            r == (*self != AgentStatus::Idle),
    {
        match self {
            AgentStatus::Idle => false,
            _ => true,
        }
    }

    /// Sort priority: smaller is more important (Waiting first, Idle last).
    pub fn priority(&self) -> (r: u8)
        ensures
            r == status_rank(*self),
    {
        match self {
            AgentStatus::Waiting => 0,
            AgentStatus::Error => 1,
            AgentStatus::Working => 2,
            AgentStatus::Idle => 3,
        }
    }
}

/// Which agents the grid shows.
#[derive(Debug, Clone, Copy, PartialEq, Eq, Structural)]
pub enum Filter {
    All,
    Active,
    Idle,
}

pub open spec fn filter_admits(f: Filter, s: AgentStatus) -> bool {
    match f {
        Filter::All => true,
        Filter::Active => s != AgentStatus::Idle,
        Filter::Idle => s == AgentStatus::Idle,
    }
}

impl Filter {
    /// Whether an agent in state `status` passes this filter.
    pub fn matches(&self, status: AgentStatus) -> (r: bool)
        ensures
            r == filter_admits(*self, status),
    {
        match self {
            Filter::All => true,
            Filter::Active => status != AgentStatus::Idle,
            Filter::Idle => status == AgentStatus::Idle,
        }
    }
}

/// Where a log entry came from.
#[derive(Debug, Clone, Copy, PartialEq, Eq, Structural)]
pub enum LogSource {
    Jsonl,
    Hook,
}

impl LogSource {
    /// The CSS class for an entry of this source.
    pub fn css_class(&self) -> (r: &'static str)
        ensures
            r@ == (match *self {
                LogSource::Jsonl => "jsonl"@,
                LogSource::Hook => "hook"@,
            }),
    {
        match self {
            LogSource::Jsonl => "jsonl",
            LogSource::Hook => "hook",
        }
    }
}

} // verus!
