//! Scope tiers, packed scores and the labels derived from them.

use vstd::prelude::*;

use crate::chars::{chars_of, same_text};
use crate::model::{ResolutionConfidence, ResolutionReason, ScopeTier};
use crate::reach::{OpenReason, PathSet, ReachScope};

verus! {

/// What is known of the file that a query comes from.
#[derive(Clone, Copy)]
pub struct ResolveContext<'a> {
    pub current_path: Option<&'a str>,
    pub reach: Option<&'a ReachScope>,
    /// External headers that the current file names itself; `None` where
    /// only the index-wide evidence is at hand.
    pub direct_external_files: Option<&'a PathSet>,
}

/// An external header that the query's own file includes itself, or, without
/// such evidence, one that some workspace file includes.
pub open spec fn first_layer(
    path: Seq<char>,
    external: bool,
    directly_included: bool,
    ctx: Option<&ResolveContext>,
) -> bool {
    external && match ctx {
        Some(c) => match c.direct_external_files {
            Some(files) => files@.contains(path),
            None => directly_included,
        },
        None => directly_included,
    }
}

/// The tier of a file for a query.
pub open spec fn tier_of(
    path: Seq<char>,
    external: bool,
    directly_included: bool,
    ctx: Option<&ResolveContext>,
) -> ScopeTier {
    if first_layer(path, external, directly_included, ctx) {
        ScopeTier::External
    } else {
        match ctx {
            None => ScopeTier::Global,
            Some(c) => if c.current_path is Some && c.current_path->0@ == path {
                ScopeTier::Current
            } else {
                match c.reach {
                    None => ScopeTier::Global,
                    Some(reach) => if reach.files@.contains(path) {
                        ScopeTier::Reachable
                    } else if reach.open && !external {
                        ScopeTier::Unknown
                    } else {
                        ScopeTier::Global
                    },
                }
            },
        }
    }
}

fn is_first_layer(
    path: &str,
    external: bool,
    directly_included: bool,
    ctx: Option<&ResolveContext>,
) -> (r: bool)
    ensures
        r == first_layer(path@, external, directly_included, ctx),
{
    external && match ctx {
        Some(c) => match c.direct_external_files {
            Some(files) => files.contains(path),
            None => directly_included,
        },
        None => directly_included,
    }
}

/// Classify a candidate's file: a first-layer external header, the current
/// file, a reachable file, an unknown one where reach is open, or just
/// somewhere in the index.
pub fn scope_tier(
    path: &str,
    external: bool,
    directly_included: bool,
    ctx: Option<&ResolveContext>,
) -> (r: ScopeTier)
    ensures
        r == tier_of(path@, external, directly_included, ctx),
{
    if is_first_layer(path, external, directly_included, ctx) {
        return ScopeTier::External;
    }
    let c = match ctx {
        Some(c) => c,
        None => {
            return ScopeTier::Global;
        },
    };
    match c.current_path {
        Some(current) => {
            if same_text(current, path) {
                return ScopeTier::Current;
            }
        },
        None => {},
    }
    match c.reach {
        Some(reach) => if reach.files.contains(path) {
            ScopeTier::Reachable
        } else if reach.open && !external {
            ScopeTier::Unknown
        } else {
            ScopeTier::Global
        },
        None => ScopeTier::Global,
    }
}

/// Largest locality of a candidate.
pub const MAX_LOCALITY: i32 = 64;

/// Leading directories that two paths share, compared from `i` on.
pub open spec fn shared_dirs_from(a: Seq<char>, b: Seq<char>, i: int) -> nat
    decreases a.len() - i,
{
    if i < 0 || i >= a.len() || i >= b.len() || a[i] != b[i] {
        0
    } else {
        shared_dirs_from(a, b, i + 1) + if a[i] == '/' {
            1nat
        } else {
            0nat
        }
    }
}

/// Nearness of a path to the current one: the leading directories they share,
/// up to a limit.
pub open spec fn nearness(path: Seq<char>, current: Option<Seq<char>>) -> int {
    match current {
        Some(c) => {
            let shared = shared_dirs_from(path, c, 0);
            if shared < MAX_LOCALITY {
                shared as int
            } else {
                MAX_LOCALITY as int
            }
        },
        None => 0,
    }
}

pub open spec fn opt_str(s: Option<&str>) -> Option<Seq<char>> {
    match s {
        Some(t) => Some(t@),
        None => None,
    }
}

pub fn locality(path: &str, current_path: Option<&str>) -> (r: i32)
    ensures
        r == nearness(path@, opt_str(current_path)),
        0 <= r <= MAX_LOCALITY,
{
    let current = match current_path {
        Some(c) => chars_of(c),
        None => {
            return 0;
        },
    };
    let chars = chars_of(path);
    let mut shared: i32 = 0;
    let mut i: usize = 0;
    while i < chars.len() && i < current.len() && chars[i] == current[i]
        invariant
            i <= chars@.len(),
            i <= current@.len(),
            0 <= shared <= MAX_LOCALITY,
            nearness(chars@, Some(current@)) == (if shared + shared_dirs_from(
                chars@,
                current@,
                i as int,
            ) < MAX_LOCALITY {
                shared + shared_dirs_from(chars@, current@, i as int)
            } else {
                MAX_LOCALITY as int
            }),
        decreases chars@.len() - i,
    {
        if chars[i] == '/' && shared < MAX_LOCALITY {
            shared = shared + 1;
        }
        i = i + 1;
    }
    shared
}

/// Distance between tiers in a packed score; no match quality reaches it.
pub const TIER_STRIDE: i32 = 10_000;

/// A sort key in which the tier decides first, then match quality with
/// locality.
pub open spec fn packed(tier: ScopeTier, base_match: int, nearness: int) -> int {
    tier.spec_rank() * TIER_STRIDE + base_match + nearness
}

pub fn pack_score(tier: ScopeTier, base_match: i32, locality: i32) -> (r: i32)
    requires
        i32::MIN <= packed(tier, base_match as int, locality as int) <= i32::MAX,
    ensures
        r == packed(tier, base_match as int, locality as int),
{
    let wide: i64 = (tier.rank() * TIER_STRIDE) as i64 + base_match as i64 + locality as i64;
    wide as i32
}

/// Tiers decide strictly: whatever the match qualities within a stride, the
/// candidate of the stronger tier has the larger score.
pub proof fn tier_dominates(a: ScopeTier, b: ScopeTier, qa: int, qb: int)
    requires
        a.spec_rank() > b.spec_rank(),
        0 <= qa < TIER_STRIDE,
        0 <= qb < TIER_STRIDE,
    ensures
        packed(a, qa, 0) > packed(b, qb, 0),
{
    assert(a.spec_rank() * TIER_STRIDE >= b.spec_rank() * TIER_STRIDE + TIER_STRIDE)
        by (nonlinear_arith)
        requires
            a.spec_rank() >= b.spec_rank() + 1,
    ;
}

/// Confidence and reason of a candidate by its tier. An exact name in the
/// current file is certain; an unknown file under an ambiguous inclusion is
/// ambiguous.
pub open spec fn labels(
    tier: ScopeTier,
    exact_name: bool,
    open_reason: Option<OpenReason>,
) -> (ResolutionConfidence, ResolutionReason) {
    match tier {
        ScopeTier::Current => (
            if exact_name {
                ResolutionConfidence::Exact
            } else {
                ResolutionConfidence::Reachable
            },
            ResolutionReason::CurrentFile,
        ),
        ScopeTier::Reachable => (
            ResolutionConfidence::Reachable,
            ResolutionReason::ReachableInclude,
        ),
        ScopeTier::External => (
            ResolutionConfidence::Heuristic,
            ResolutionReason::ExternalFirstLayer,
        ),
        ScopeTier::Unknown => (
            if open_reason == Some(OpenReason::AmbiguousInclude) {
                ResolutionConfidence::Ambiguous
            } else {
                ResolutionConfidence::Fallback
            },
            ResolutionReason::GlobalFallback,
        ),
        ScopeTier::Global => (ResolutionConfidence::Fallback, ResolutionReason::GlobalFallback),
    }
}

pub fn confidence_reason_for(
    tier: ScopeTier,
    exact_name: bool,
    open_reason: Option<OpenReason>,
) -> (r: (ResolutionConfidence, ResolutionReason))
    ensures
        r == labels(tier, exact_name, open_reason),
{
    match tier {
        ScopeTier::Current => (
            if exact_name {
                ResolutionConfidence::Exact
            } else {
                ResolutionConfidence::Reachable
            },
            ResolutionReason::CurrentFile,
        ),
        ScopeTier::Reachable => (
            ResolutionConfidence::Reachable,
            ResolutionReason::ReachableInclude,
        ),
        ScopeTier::External => (
            ResolutionConfidence::Heuristic,
            ResolutionReason::ExternalFirstLayer,
        ),
        ScopeTier::Unknown => (
            match open_reason {
                Some(OpenReason::AmbiguousInclude) => ResolutionConfidence::Ambiguous,
                _ => ResolutionConfidence::Fallback,
            },
            ResolutionReason::GlobalFallback,
        ),
        ScopeTier::Global => (ResolutionConfidence::Fallback, ResolutionReason::GlobalFallback),
    }
}

/// Whether a definition may color a name: it is in scope for certain, or a
/// heuristic puts its file in reach. Open reach alone admits nothing.
pub open spec fn colors(
    path: Seq<char>,
    external: bool,
    directly_included: bool,
    ctx: Option<&ResolveContext>,
) -> bool {
    let tier = tier_of(path, external, directly_included, ctx);
    tier == ScopeTier::Current || tier == ScopeTier::Reachable || tier == ScopeTier::External
        || match ctx {
        Some(c) => match c.reach {
            Some(reach) => reach.heuristic_files@.contains(path),
            None => false,
        },
        None => false,
    }
}

pub fn coloring_scope_allows(
    path: &str,
    external: bool,
    directly_included: bool,
    ctx: Option<&ResolveContext>,
) -> (r: bool)
    ensures
        r == colors(path@, external, directly_included, ctx),
{
    match scope_tier(path, external, directly_included, ctx) {
        ScopeTier::Current | ScopeTier::Reachable | ScopeTier::External => true,
        _ => match ctx {
            Some(c) => match c.reach {
                Some(reach) => reach.heuristic_files.contains(path),
                None => false,
            },
            None => false,
        },
    }
}

/// Open reach alone colors nothing: a workspace file that is only unknown
/// colors no name, unless a heuristic puts it in reach.
pub proof fn open_reach_colors_nothing(
    path: Seq<char>,
    external: bool,
    directly_included: bool,
    ctx: Option<&ResolveContext>,
)
    requires
        tier_of(path, external, directly_included, ctx) == ScopeTier::Unknown,
        !ctx->0.reach->0.heuristic_files@.contains(path),
    ensures
        !colors(path, external, directly_included, ctx),
{
}

} // verus!
