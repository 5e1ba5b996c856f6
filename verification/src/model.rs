//! Candidate vocabulary shared by every query surface.

use vstd::prelude::*;

verus! {

/// How close a candidate stands to the file a query comes from, weakest
/// first.
#[derive(Debug, Clone, Copy, PartialEq, Eq, PartialOrd, Ord, Hash, Structural)]
pub enum ScopeTier {
    /// Somewhere in the index.
    Global,
    /// Reach of the current file is not closed, so the file may be visible.
    Unknown,
    /// A header outside the workspace that the current file names itself.
    External,
    /// In the closure of files that the current file reaches.
    Reachable,
    /// The current file.
    Current,
}

impl ScopeTier {
    pub open spec fn spec_rank(self) -> int {
        match self {
            ScopeTier::Current => 4,
            ScopeTier::Reachable => 3,
            ScopeTier::External => 2,
            ScopeTier::Unknown => 1,
            ScopeTier::Global => 0,
        }
    }

    /// Strength of the tier; a stronger tier wins over any match quality.
    pub fn rank(self) -> (r: i32)
        ensures
            r == self.spec_rank(),
            0 <= r <= 4,
    {
        match self {
            ScopeTier::Current => 4,
            ScopeTier::Reachable => 3,
            ScopeTier::External => 2,
            ScopeTier::Unknown => 1,
            ScopeTier::Global => 0,
        }
    }

    pub open spec fn label(self) -> Seq<char> {
        match self {
            ScopeTier::Current => "current"@,
            ScopeTier::Reachable => "reachable"@,
            ScopeTier::External => "external"@,
            ScopeTier::Unknown => "unknown"@,
            ScopeTier::Global => "global"@,
        }
    }

    pub fn as_str(self) -> (r: &'static str)
        ensures
            r@ == self.label(),
    {
        match self {
            ScopeTier::Current => "current",
            ScopeTier::Reachable => "reachable",
            ScopeTier::External => "external",
            ScopeTier::Unknown => "unknown",
            ScopeTier::Global => "global",
        }
    }
}

/// Different tiers have different ranks.
pub proof fn tier_rank_is_injective(a: ScopeTier, b: ScopeTier)
    ensures
        a.spec_rank() == b.spec_rank() <==> a == b,
{
}

#[derive(Debug, Clone, Copy, PartialEq, Eq, Hash, Structural)]
pub enum ResolutionConfidence {
    Exact,
    Reachable,
    Heuristic,
    Ambiguous,
    Fallback,
}

impl ResolutionConfidence {
    pub open spec fn label(self) -> Seq<char> {
        match self {
            ResolutionConfidence::Exact => "exact"@,
            ResolutionConfidence::Reachable => "reachable"@,
            ResolutionConfidence::Heuristic => "heuristic"@,
            ResolutionConfidence::Ambiguous => "ambiguous"@,
            ResolutionConfidence::Fallback => "fallback"@,
        }
    }

    pub fn as_str(self) -> (r: &'static str)
        ensures
            r@ == self.label(),
    {
        match self {
            ResolutionConfidence::Exact => "exact",
            ResolutionConfidence::Reachable => "reachable",
            ResolutionConfidence::Heuristic => "heuristic",
            ResolutionConfidence::Ambiguous => "ambiguous",
            ResolutionConfidence::Fallback => "fallback",
        }
    }
}

#[derive(Debug, Clone, Copy, PartialEq, Eq, Hash, Structural)]
pub enum ResolutionReason {
    CurrentFile,
    ReachableInclude,
    ExternalFirstLayer,
    GlobalFallback,
}

impl ResolutionReason {
    pub open spec fn label(self) -> Seq<char> {
        match self {
            ResolutionReason::CurrentFile => "current_file"@,
            ResolutionReason::ReachableInclude => "reachable_include"@,
            ResolutionReason::ExternalFirstLayer => "external_first_layer"@,
            ResolutionReason::GlobalFallback => "global_fallback"@,
        }
    }

    pub fn as_str(self) -> (r: &'static str)
        ensures
            r@ == self.label(),
    {
        match self {
            ResolutionReason::CurrentFile => "current_file",
            ResolutionReason::ReachableInclude => "reachable_include",
            ResolutionReason::ExternalFirstLayer => "external_first_layer",
            ResolutionReason::GlobalFallback => "global_fallback",
        }
    }
}

#[derive(Debug, Clone, Copy, PartialEq, Eq, Hash, Structural)]
pub struct CandidateRange {
    pub start_line: u32,
    pub start_col: u32,
    pub end_line: u32,
    pub end_col: u32,
}

/// One place a name may be defined, with what is known of the match.
#[derive(Debug, PartialEq, Eq)]
pub struct DefinitionCandidate {
    pub name: String,
    pub kind: String,
    pub role: String,
    pub path: String,
    pub range: CandidateRange,
    pub source: String,
    pub tier: ScopeTier,
    pub base_match: i32,
    pub confidence: ResolutionConfidence,
    pub reason: ResolutionReason,
}

impl Clone for DefinitionCandidate {
    fn clone(&self) -> (r: Self)
        ensures
            r == *self,
    {
        DefinitionCandidate {
            name: self.name.clone(),
            kind: self.kind.clone(),
            role: self.role.clone(),
            path: self.path.clone(),
            range: self.range,
            source: self.source.clone(),
            tier: self.tier,
            base_match: self.base_match,
            confidence: self.confidence,
            reason: self.reason,
        }
    }
}

} // verus!
