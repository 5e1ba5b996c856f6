//! Argument counts against parameter lists.

use vstd::prelude::*;

use crate::call_model::{
    clone_opt_string, CallForm, CallSiteFact, SignatureShape, SourcePosition, SourceRange,
};
use crate::callables::ResolvedCallableAnchor;
use crate::chars::same_text;
use crate::lists::{kept, kept_contains, retain, Keep};
use crate::model::{DefinitionCandidate, ResolutionConfidence};
use crate::order::{
    is_text_before, sort_stable, stable_sort, strict_weak, text_before, text_before_is_total,
    text_before_is_transitive, Order, Ordered,
};

verus! {

/// What is known of the arguments of a call.
#[derive(Debug, Clone, Copy, PartialEq, Eq, Hash, Structural)]
pub enum ArgumentState {
    Complete,
    Partial { minimum_arity: u32, active_argument: u32 },
    Unknown,
}

#[derive(Debug, Clone, Copy, PartialEq, Eq, Hash, Structural)]
pub enum ContextReliability {
    Reliable,
    SyntaxErrorOverlap,
    UnsupportedCallForm,
}

impl ContextReliability {
    pub fn is_reliable(self) -> (r: bool)
        ensures
            r == (self == ContextReliability::Reliable),
    {
        self == ContextReliability::Reliable
    }
}

/// The call that a request is about.
#[derive(Debug, Clone, PartialEq, Eq)]
pub struct CallSiteContext {
    pub callee_name: String,
    pub qualified_name: Option<String>,
    pub form: CallForm,
    pub callee_range: SourceRange,
    pub argument_count: Option<u32>,
    pub argument_state: ArgumentState,
    pub reliability: ContextReliability,
}

pub open spec fn position_not_after(a: SourcePosition, b: SourcePosition) -> bool {
    a.line < b.line || (a.line == b.line && a.character <= b.character)
}

/// The position lies in the range, both ends included.
pub open spec fn within_range(position: SourcePosition, range: SourceRange) -> bool {
    position_not_after(range.start, position) && position_not_after(position, range.end)
}

/// How far a call expression can be trusted.
pub open spec fn reliability_of(fact: CallSiteFact) -> ContextReliability {
    if fact.syntax_error_overlap {
        ContextReliability::SyntaxErrorOverlap
    } else if !fact.form.names_function() {
        ContextReliability::UnsupportedCallForm
    } else {
        ContextReliability::Reliable
    }
}

/// The context of a complete call, when the position lies on its callee.
pub open spec fn complete_call(fact: CallSiteFact, position: SourcePosition) -> Option<
    CallSiteContext,
> {
    if !within_range(position, fact.callee_range) || fact.callee_name is None {
        None
    } else {
        Some(
            CallSiteContext {
                callee_name: fact.callee_name->0,
                qualified_name: fact.qualified_name,
                form: fact.form,
                callee_range: fact.callee_range,
                argument_count: fact.argument_count,
                argument_state: if fact.argument_count is Some {
                    ArgumentState::Complete
                } else {
                    ArgumentState::Unknown
                },
                reliability: reliability_of(fact),
            },
        )
    }
}

impl CallSiteContext {
    pub fn from_complete_call(fact: &CallSiteFact, position: SourcePosition) -> (r: Option<Self>)
        ensures
            r == complete_call(*fact, position),
    {
        if !position_in_range(position, fact.callee_range) {
            return None;
        }
        let callee_name = match &fact.callee_name {
            Some(name) => name.clone(),
            None => {
                return None;
            },
        };
        let reliability = if fact.syntax_error_overlap {
            ContextReliability::SyntaxErrorOverlap
        } else if !fact.form.is_name_form() {
            ContextReliability::UnsupportedCallForm
        } else {
            ContextReliability::Reliable
        };
        Some(
            CallSiteContext {
                callee_name,
                qualified_name: clone_opt_string(&fact.qualified_name),
                form: fact.form,
                callee_range: fact.callee_range,
                argument_count: fact.argument_count,
                argument_state: if fact.argument_count.is_some() {
                    ArgumentState::Complete
                } else {
                    ArgumentState::Unknown
                },
                reliability,
            },
        )
    }

    /// The context of a call that is still being typed.
    pub fn partial(
        callee_name: String,
        form: CallForm,
        callee_range: SourceRange,
        minimum_arity: u32,
        active_argument: u32,
        reliability: ContextReliability,
    ) -> (r: Self)
        ensures
            r == (CallSiteContext {
                callee_name,
                qualified_name: None,
                form,
                callee_range,
                argument_count: None,
                argument_state: ArgumentState::Partial { minimum_arity, active_argument },
                reliability,
            }),
    {
        CallSiteContext {
            callee_name,
            qualified_name: None,
            form,
            callee_range,
            argument_count: None,
            argument_state: ArgumentState::Partial { minimum_arity, active_argument },
            reliability,
        }
    }
}

#[derive(Debug, Clone, Copy, PartialEq, Eq, Hash, Structural)]
pub enum ArityCompatibility {
    Compatible,
    Unknown,
    Incompatible,
}

impl ArityCompatibility {
    pub open spec fn spec_rank(self) -> int {
        match self {
            ArityCompatibility::Compatible => 2,
            ArityCompatibility::Unknown => 1,
            ArityCompatibility::Incompatible => 0,
        }
    }

    pub fn rank(self) -> (r: u8)
        ensures
            r == self.spec_rank(),
    {
        match self {
            ArityCompatibility::Compatible => 2,
            ArityCompatibility::Unknown => 1,
            ArityCompatibility::Incompatible => 0,
        }
    }
}

#[derive(Debug, Clone, Copy, PartialEq, Eq, Hash, Structural)]
pub enum ArityFilterOutcome {
    NotApplied,
    Filtered,
    UnknownOnly,
    MismatchFallback,
}

/// Whether a parameter list fits a call. Only a reliable context can say.
pub open spec fn compatibility(
    signature: SignatureShape,
    context: Option<&CallSiteContext>,
) -> ArityCompatibility {
    match context {
        None => ArityCompatibility::Unknown,
        Some(c) => if c.reliability != ContextReliability::Reliable {
            ArityCompatibility::Unknown
        } else {
            match c.argument_state {
                ArgumentState::Complete => match c.argument_count {
                    None => ArityCompatibility::Unknown,
                    Some(n) => match signature.spec_accepts_arity(n) {
                        Some(true) => ArityCompatibility::Compatible,
                        Some(false) => ArityCompatibility::Incompatible,
                        None => ArityCompatibility::Unknown,
                    },
                },
                ArgumentState::Partial { minimum_arity, .. } => match signature.max_arity {
                    Some(max) => if max < minimum_arity {
                        ArityCompatibility::Incompatible
                    } else {
                        ArityCompatibility::Compatible
                    },
                    None => if signature.variadic && signature.min_arity is Some {
                        ArityCompatibility::Compatible
                    } else {
                        ArityCompatibility::Unknown
                    },
                },
                ArgumentState::Unknown => ArityCompatibility::Unknown,
            }
        },
    }
}

pub fn compatibility_for_signature(
    signature: &SignatureShape,
    context: Option<&CallSiteContext>,
) -> (r: ArityCompatibility)
    ensures
        r == compatibility(*signature, context),
{
    let context = match context {
        Some(c) => c,
        None => {
            return ArityCompatibility::Unknown;
        },
    };
    if !context.reliability.is_reliable() {
        return ArityCompatibility::Unknown;
    }
    match context.argument_state {
        ArgumentState::Complete => match context.argument_count {
            None => ArityCompatibility::Unknown,
            Some(arity) => match signature.accepts_arity(arity) {
                Some(true) => ArityCompatibility::Compatible,
                Some(false) => ArityCompatibility::Incompatible,
                None => ArityCompatibility::Unknown,
            },
        },
        ArgumentState::Partial { minimum_arity, .. } => match signature.max_arity {
            Some(max) => if max < minimum_arity {
                ArityCompatibility::Incompatible
            } else {
                ArityCompatibility::Compatible
            },
            None => if signature.variadic && signature.min_arity.is_some() {
                ArityCompatibility::Compatible
            } else {
                ArityCompatibility::Unknown
            },
        },
        ArgumentState::Unknown => ArityCompatibility::Unknown,
    }
}

// ---------------------------------------------------------------------------
// The arity policy

pub open spec fn with_compatibility(
    a: ResolvedCallableAnchor,
    context: Option<&CallSiteContext>,
) -> ResolvedCallableAnchor {
    ResolvedCallableAnchor {
        arity_compatibility: compatibility(a.anchor.signature, context),
        ..a
    }
}

pub open spec fn as_fallback(a: ResolvedCallableAnchor) -> ResolvedCallableAnchor {
    ResolvedCallableAnchor {
        candidate: DefinitionCandidate {
            confidence: ResolutionConfidence::Fallback,
            ..a.candidate
        },
        ..a
    }
}

pub open spec fn annotated(
    s: Seq<ResolvedCallableAnchor>,
    context: Option<&CallSiteContext>,
) -> Seq<ResolvedCallableAnchor> {
    Seq::new(s.len(), |i: int| with_compatibility(s[i], context))
}

pub open spec fn all_fallback(s: Seq<ResolvedCallableAnchor>) -> Seq<ResolvedCallableAnchor> {
    Seq::new(s.len(), |i: int| as_fallback(s[i]))
}

pub open spec fn some_is(s: Seq<ResolvedCallableAnchor>, c: ArityCompatibility) -> bool {
    exists|i: int| 0 <= i < s.len() && s[i].arity_compatibility == c
}

/// The call says enough of its arguments for candidates to be dropped.
pub open spec fn policy_applies(context: Option<&CallSiteContext>) -> bool {
    match context {
        Some(c) => c.reliability == ContextReliability::Reliable && c.argument_state
            != ArgumentState::Unknown,
        None => false,
    }
}

/// What the policy makes of candidates: compatible ones drop the incompatible;
/// without them unknown ones do; with neither all stay, as fallbacks.
pub open spec fn policy_outcome(
    s: Seq<ResolvedCallableAnchor>,
    context: Option<&CallSiteContext>,
) -> ArityFilterOutcome {
    let known = annotated(s, context);
    if !policy_applies(context) || s.len() == 0 {
        ArityFilterOutcome::NotApplied
    } else if some_is(known, ArityCompatibility::Compatible) {
        ArityFilterOutcome::Filtered
    } else if some_is(known, ArityCompatibility::Unknown) {
        ArityFilterOutcome::UnknownOnly
    } else {
        ArityFilterOutcome::MismatchFallback
    }
}

/// Candidates whose parameter list may fit.
pub struct NotIncompatible;

impl Keep<ResolvedCallableAnchor> for NotIncompatible {
    open spec fn keeps(&self, x: ResolvedCallableAnchor) -> bool {
        x.arity_compatibility != ArityCompatibility::Incompatible
    }

    fn keep(&self, x: &ResolvedCallableAnchor) -> (r: bool) {
        x.arity_compatibility != ArityCompatibility::Incompatible
    }
}

/// Candidates of whose parameter list nothing is known.
pub struct OnlyUnknown;

impl Keep<ResolvedCallableAnchor> for OnlyUnknown {
    open spec fn keeps(&self, x: ResolvedCallableAnchor) -> bool {
        x.arity_compatibility == ArityCompatibility::Unknown
    }

    fn keep(&self, x: &ResolvedCallableAnchor) -> (r: bool) {
        x.arity_compatibility == ArityCompatibility::Unknown
    }
}

/// The candidates that the policy keeps, before they are sorted.
pub open spec fn policy_keeps(
    s: Seq<ResolvedCallableAnchor>,
    context: Option<&CallSiteContext>,
) -> Seq<ResolvedCallableAnchor> {
    let known = annotated(s, context);
    match policy_outcome(s, context) {
        ArityFilterOutcome::NotApplied => known,
        ArityFilterOutcome::Filtered => kept(known, NotIncompatible),
        ArityFilterOutcome::UnknownOnly => kept(known, OnlyUnknown),
        ArityFilterOutcome::MismatchFallback => all_fallback(known),
    }
}

/// Judge each candidate's parameter list against the call, drop what cannot
/// be meant, and sort what is left by tier, compatibility, match quality,
/// path and place.
pub fn apply_arity_policy(
    anchors: &mut Vec<ResolvedCallableAnchor>,
    context: Option<&CallSiteContext>,
) -> (r: ArityFilterOutcome)
    ensures
        r == policy_outcome(old(anchors)@, context),
        final(anchors)@ == stable_sort::<ResolvedCallableAnchor, AnchorOrder>(
            policy_keeps(old(anchors)@, context),
        ),
{
    let ghost input = anchors@;
    let len: usize = anchors.len();
    let mut i: usize = 0;
    while i < len
        invariant
            i <= len,
            len == input.len(),
            anchors@.len() == len,
            forall|k: int| 0 <= k < i ==> anchors@[k] == with_compatibility(input[k], context),
            forall|k: int| i <= k < len ==> anchors@[k] == input[k],
        decreases len - i,
    {
        let c = compatibility_for_signature(&anchors[i].anchor.signature, context);
        anchors[i].arity_compatibility = c;
        i = i + 1;
    }
    assert(anchors@ =~= annotated(input, context));
    let can_apply = match context {
        Some(c) => c.reliability.is_reliable() && c.argument_state != ArgumentState::Unknown,
        None => false,
    };
    if !can_apply || len == 0 {
        sort_stable::<ResolvedCallableAnchor, AnchorOrder>(anchors);
        return ArityFilterOutcome::NotApplied;
    }
    let outcome = if any_is(anchors, ArityCompatibility::Compatible) {
        retain(anchors, &NotIncompatible);
        ArityFilterOutcome::Filtered
    } else if any_is(anchors, ArityCompatibility::Unknown) {
        retain(anchors, &OnlyUnknown);
        ArityFilterOutcome::UnknownOnly
    } else {
        let ghost known = anchors@;
        let mut i: usize = 0;
        while i < len
            invariant
                i <= len,
                len == known.len(),
                anchors@.len() == len,
                forall|k: int| 0 <= k < i ==> anchors@[k] == as_fallback(known[k]),
                forall|k: int| i <= k < len ==> anchors@[k] == known[k],
            decreases len - i,
        {
            anchors[i].candidate.confidence = ResolutionConfidence::Fallback;
            i = i + 1;
        }
        assert(anchors@ =~= all_fallback(known));
        ArityFilterOutcome::MismatchFallback
    };
    sort_stable::<ResolvedCallableAnchor, AnchorOrder>(anchors);
    outcome
}

fn any_is(anchors: &Vec<ResolvedCallableAnchor>, c: ArityCompatibility) -> (r: bool)
    ensures
        r == some_is(anchors@, c),
{
    let mut i: usize = 0;
    while i < anchors.len()
        invariant
            i <= anchors@.len(),
            forall|k: int| 0 <= k < i ==> anchors@[k].arity_compatibility != c,
        decreases anchors@.len() - i,
    {
        if anchors[i].arity_compatibility == c {
            return true;
        }
        i = i + 1;
    }
    false
}

/// Candidates by tier, compatibility and match quality, strongest first, then
/// by path and place.
pub struct AnchorOrder;

impl Order<ResolvedCallableAnchor> for AnchorOrder {
    open spec fn before(a: ResolvedCallableAnchor, b: ResolvedCallableAnchor) -> bool {
        if a.candidate.tier.spec_rank() != b.candidate.tier.spec_rank() {
            a.candidate.tier.spec_rank() > b.candidate.tier.spec_rank()
        } else if a.arity_compatibility.spec_rank() != b.arity_compatibility.spec_rank() {
            a.arity_compatibility.spec_rank() > b.arity_compatibility.spec_rank()
        } else if a.candidate.base_match != b.candidate.base_match {
            a.candidate.base_match > b.candidate.base_match
        } else if a.anchor.path@ != b.anchor.path@ {
            text_before(a.anchor.path@, b.anchor.path@)
        } else {
            a.anchor.name_range.start_byte < b.anchor.name_range.start_byte
        }
    }
}

impl Ordered<ResolvedCallableAnchor> for AnchorOrder {
    fn is_before(a: &ResolvedCallableAnchor, b: &ResolvedCallableAnchor) -> (r: bool) {
        if a.candidate.tier.rank() != b.candidate.tier.rank() {
            a.candidate.tier.rank() > b.candidate.tier.rank()
        } else if a.arity_compatibility.rank() != b.arity_compatibility.rank() {
            a.arity_compatibility.rank() > b.arity_compatibility.rank()
        } else if a.candidate.base_match != b.candidate.base_match {
            a.candidate.base_match > b.candidate.base_match
        } else if !same_text(a.anchor.path.as_str(), b.anchor.path.as_str()) {
            is_text_before(a.anchor.path.as_str(), b.anchor.path.as_str())
        } else {
            a.anchor.name_range.start_byte < b.anchor.name_range.start_byte
        }
    }
}

/// The candidate order is a strict weak order, so a sorted list of candidates
/// has no candidate in front of a better one.
pub proof fn anchor_order_is_strict_weak()
    ensures
        strict_weak::<ResolvedCallableAnchor, AnchorOrder>(),
{
    assert forall|a: ResolvedCallableAnchor, b: ResolvedCallableAnchor|
        AnchorOrder::before(a, b) implies !#[trigger] AnchorOrder::before(b, a) by {
        text_before_is_total(a.anchor.path@, b.anchor.path@);
    }
    assert forall|a: ResolvedCallableAnchor, b: ResolvedCallableAnchor, c: ResolvedCallableAnchor|
        !(#[trigger] AnchorOrder::before(a, b)) && !(#[trigger] AnchorOrder::before(
            b,
            c,
        )) implies !AnchorOrder::before(a, c) by {
        let (pa, pb, pc) = (a.anchor.path@, b.anchor.path@, c.anchor.path@);
        text_before_is_total(pa, pb);
        text_before_is_total(pb, pc);
        text_before_is_total(pa, pc);
        if text_before(pb, pa) && text_before(pc, pb) {
            text_before_is_transitive(pc, pb, pa);
        }
    }
}

fn position_in_range(position: SourcePosition, range: SourceRange) -> (r: bool)
    ensures
        r == within_range(position, range),
{
    let after_start = range.start.line < position.line || (range.start.line == position.line
        && range.start.character <= position.character);
    let before_end = position.line < range.end.line || (position.line == range.end.line
        && position.character <= range.end.character);
    after_start && before_end
}

// ---------------------------------------------------------------------------
// Laws

/// The policy never drops every candidate, and never drops a compatible one.
pub proof fn policy_keeps_what_fits(
    s: Seq<ResolvedCallableAnchor>,
    context: Option<&CallSiteContext>,
    i: int,
)
    requires
        0 <= i < s.len(),
    ensures
        policy_keeps(s, context).len() > 0,
        compatibility(s[i].anchor.signature, context) == ArityCompatibility::Compatible
            ==> policy_keeps(s, context).contains(with_compatibility(s[i], context)),
{
    let known = annotated(s, context);
    let outcome = policy_outcome(s, context);
    assert(known[i] == with_compatibility(s[i], context));
    if outcome == ArityFilterOutcome::Filtered {
        let w = choose|w: int|
            0 <= w < known.len() && known[w].arity_compatibility == ArityCompatibility::Compatible;
        kept_contains(known, NotIncompatible, w);
        if known[i].arity_compatibility == ArityCompatibility::Compatible {
            kept_contains(known, NotIncompatible, i);
        }
    } else if outcome == ArityFilterOutcome::UnknownOnly {
        let w = choose|w: int|
            0 <= w < known.len() && known[w].arity_compatibility == ArityCompatibility::Unknown;
        kept_contains(known, OnlyUnknown, w);
    }
    if compatibility(s[i].anchor.signature, context) == ArityCompatibility::Compatible {
        assert(some_is(known, ArityCompatibility::Compatible));
        if outcome == ArityFilterOutcome::NotApplied {
            assert(known.contains(known[i]));
        }
    }
}

/// So many arguments are within the bounds of the list.
pub open spec fn takes(signature: SignatureShape, n: int) -> bool {
    signature.min_arity->0 <= n && (signature.max_arity is None || n <= signature.max_arity->0)
}

/// A reliable call with this many arguments, closed or still open.
pub open spec fn calls_with(context: CallSiteContext, state: ArgumentState, n: u32) -> bool {
    &&& context.reliability == ContextReliability::Reliable
    &&& context.argument_state == state
    &&& state == ArgumentState::Complete ==> context.argument_count == Some(n)
}

/// A closed call fits exactly within the bounds of the list. A call that is
/// still open fits exactly where some closed call with at least as many
/// arguments does.
pub proof fn open_call_fits_if_it_can_be_closed(
    signature: SignatureShape,
    closed: CallSiteContext,
    n: u32,
    open: CallSiteContext,
    minimum_arity: u32,
    active_argument: u32,
)
    requires
        signature.min_arity is Some,
        signature.max_arity is None ==> signature.variadic,
        signature.max_arity is Some ==> signature.min_arity->0 <= signature.max_arity->0,
        calls_with(closed, ArgumentState::Complete, n),
        calls_with(open, ArgumentState::Partial { minimum_arity, active_argument }, n),
    ensures
        compatibility(signature, Some(&closed)) == if takes(signature, n as int) {
            ArityCompatibility::Compatible
        } else {
            ArityCompatibility::Incompatible
        },
        compatibility(signature, Some(&open)) == if exists|k: int|
            minimum_arity <= k && #[trigger] takes(signature, k) {
            ArityCompatibility::Compatible
        } else {
            ArityCompatibility::Incompatible
        },
        compatibility(signature, None) == ArityCompatibility::Unknown,
{
    let most: int = match signature.max_arity {
        Some(max) => max as int,
        None => minimum_arity + signature.min_arity->0,
    };
    assert(takes(signature, most));
}

} // verus!
