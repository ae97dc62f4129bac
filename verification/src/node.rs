//! Node-level records and the challenge routing: which collaborator a
//! network challenge is dispatched to, selected by an explicit match on its
//! declared kind.

use vstd::prelude::*;
use vstd::string::StringExecFns;

verus! {

/// Counters the node reports on its heartbeat.
#[derive(Debug, Clone)]
pub struct NodeStats {
    pub threats_detected: u64,
    pub challenges_completed: u64,
    pub reputation_score: u32,
    pub energy_efficiency: u32,
    pub uptime_seconds: u64,
}

/// A network challenge as fetched from the chain.
#[derive(Debug, Clone)]
pub struct Challenge {
    pub id: String,
    pub challenge_type: String,
    pub data: String,
    pub reward: u64,
    pub deadline: u64,
}

/// What a benchmark run reports.  `parallel_efficiency` and `accuracy` are
/// whole percentages capped at one hundred; `throughput_tps` is whole
/// transactions per second, at least one for any nonempty run;
/// `avg_latency_ms` is whole milliseconds per transaction.
#[derive(Debug, Clone, PartialEq, Eq, Structural)]
pub struct BenchmarkResults {
    pub parallel_efficiency: u64,
    pub throughput_tps: u64,
    pub accuracy: u64,
    pub avg_latency_ms: u64,
}

/// The collaborator a challenge is routed to: one capability per
/// collaborator, selected by an explicit match, never by dynamic lookup.
#[derive(Debug, Clone, Copy, PartialEq, Eq, Structural)]
pub enum ChallengeKind {
    ThreatDetectionAccuracy,
    DagProcessingSpeed,
    EnergyEfficiency,
    Unknown,
}

/// The kind a challenge-type tag names.
pub open spec fn challenge_kind_of(s: Seq<char>) -> ChallengeKind {
    if s == "threat_detection_accuracy"@ {
        ChallengeKind::ThreatDetectionAccuracy
    } else if s == "dag_processing_speed"@ {
        ChallengeKind::DagProcessingSpeed
    } else if s == "energy_efficiency"@ {
        ChallengeKind::EnergyEfficiency
    } else {
        ChallengeKind::Unknown
    }
}

/// Routes a challenge-type tag to the collaborator that solves it; a tag
/// nobody claims is `Unknown`.
pub fn classify_challenge(challenge_type: &String) -> (k: ChallengeKind)
    ensures
        k == challenge_kind_of(challenge_type@),
{
    if *challenge_type == String::from_str("threat_detection_accuracy") {
        ChallengeKind::ThreatDetectionAccuracy
    } else if *challenge_type == String::from_str("dag_processing_speed") {
        ChallengeKind::DagProcessingSpeed
    } else if *challenge_type == String::from_str("energy_efficiency") {
        ChallengeKind::EnergyEfficiency
    } else {
        ChallengeKind::Unknown
    }
}

} // verus!
