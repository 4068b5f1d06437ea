//! The soft objectives a match can be scored against, by name.
use vstd::prelude::*;

verus! {

/// Skill balance: how close the two teams' average ratings are.
#[derive(Debug, Clone, Copy)]
pub struct SkillBalanceObjective;

/// Latency: how low the players' average latency is.
#[derive(Debug, Clone, Copy)]
pub struct LatencyObjective;

/// Wait time: how little the players waited.
#[derive(Debug, Clone, Copy)]
pub struct WaitTimeObjective;

impl SkillBalanceObjective {
    /// The objective's name.
    pub fn description(&self) -> (s: String)
        ensures
            s@ == "skill balance"@,
    {
        "skill balance".to_owned()
    }
}

impl LatencyObjective {
    /// The objective's name.
    pub fn description(&self) -> (s: String)
        ensures
            s@ == "latency"@,
    {
        "latency".to_owned()
    }
}

impl WaitTimeObjective {
    /// The objective's name.
    pub fn description(&self) -> (s: String)
        ensures
            s@ == "wait time"@,
    {
        "wait time".to_owned()
    }
}

} // verus!
