//! Request-time callable candidate resolution.

pub mod arity;
pub mod counterpart;
pub mod laws;
pub mod presentation;
pub mod whole_laws;

use vstd::prelude::*;

use crate::call_model::{CallableAnchor, LinkageDomain, OwnerKindHint};
use crate::callables::arity::{
    apply_arity_policy, policy_keeps, policy_outcome, AnchorOrder, ArityCompatibility,
    ArityFilterOutcome, CallSiteContext, ContextReliability,
};
use crate::callables::counterpart::{
    group_views, resolve_counterparts, unsorted_groups, CounterpartEvidence, GroupOrder,
};
use crate::chars::same_text;
use crate::lists::{dedup_by_key, first_of_key, kept, retain, targets, Keep, SameKey};
use crate::model::{DefinitionCandidate, ScopeTier};
use crate::order::stable_sort;
use crate::reach::{PathSet, SourceReach};

verus! {

/// Changes whenever callable identity, filter or grouping semantics change.
pub const CALLABLE_CANDIDATE_RESOLVER_VERSION: u32 = 5;

#[derive(Debug, Clone, Copy, PartialEq, Eq, Hash, Structural)]
pub enum CandidateOrigin {
    Base,
    Overlay,
}

#[derive(Debug, Clone, Copy, PartialEq, Eq, Hash, Structural)]
pub enum CandidateIncompleteReason {
    ScanLimit,
    CandidateBudget,
    TimeBudget,
    Cancelled,
    FactsUnavailable,
    GenerationMismatch,
}

/// How much of the candidates a bounded recall has seen.
#[derive(Debug, Clone, Copy, PartialEq, Eq, Structural)]
pub struct CandidateCoverage {
    pub scanned: usize,
    pub truncated: bool,
    pub scope_open: bool,
    pub incomplete_reason: Option<CandidateIncompleteReason>,
}

impl Default for CandidateCoverage {
    fn default() -> (r: Self)
        ensures
            r == (CandidateCoverage {
                scanned: 0,
                truncated: false,
                scope_open: false,
                incomplete_reason: None,
            }),
    {
        CandidateCoverage {
            scanned: 0,
            truncated: false,
            scope_open: false,
            incomplete_reason: None,
        }
    }
}

impl CandidateCoverage {
    pub fn complete(scanned: usize) -> (r: Self)
        ensures
            r == (CandidateCoverage {
                scanned,
                truncated: false,
                scope_open: false,
                incomplete_reason: None,
            }),
    {
        CandidateCoverage { scanned, truncated: false, scope_open: false, incomplete_reason: None }
    }

    /// Whether a single candidate may be taken for the only one.
    pub fn permits_uniqueness(&self) -> (r: bool)
        ensures
            r == (!self.truncated && !self.scope_open && self.incomplete_reason is None),
    {
        !self.truncated && !self.scope_open && self.incomplete_reason.is_none()
    }
}

/// A callable with what resolution found out about it.
#[derive(Debug, PartialEq, Eq)]
pub struct ResolvedCallableAnchor {
    pub anchor: CallableAnchor,
    pub candidate: DefinitionCandidate,
    pub arity_compatibility: ArityCompatibility,
    pub origin: CandidateOrigin,
}

impl Clone for ResolvedCallableAnchor {
    fn clone(&self) -> (r: Self)
        ensures
            r == *self,
    {
        ResolvedCallableAnchor {
            anchor: self.anchor.clone(),
            candidate: self.candidate.clone(),
            arity_compatibility: self.arity_compatibility,
            origin: self.origin,
        }
    }
}

impl ResolvedCallableAnchor {
    pub fn new(
        anchor: CallableAnchor,
        candidate: DefinitionCandidate,
        origin: CandidateOrigin,
    ) -> (r: Self)
        ensures
            r == (ResolvedCallableAnchor {
                anchor,
                candidate,
                arity_compatibility: ArityCompatibility::Unknown,
                origin,
            }),
    {
        ResolvedCallableAnchor {
            anchor,
            candidate,
            arity_compatibility: ArityCompatibility::Unknown,
            origin,
        }
    }

    pub fn canonical_signature(&self) -> (r: &str)
        ensures
            r@ == self.anchor.canonical_signature@,
    {
        self.anchor.canonical_signature.as_str()
    }
}

/// Candidates that are one callable: a header declaration with its source
/// definition, or a single anchor.
#[derive(Debug, Clone, PartialEq, Eq)]
pub struct CallableVariantGroup {
    pub header_declaration: Option<ResolvedCallableAnchor>,
    pub source_definition: Option<ResolvedCallableAnchor>,
    pub other_variants: Vec<ResolvedCallableAnchor>,
    pub group_tier: ScopeTier,
    pub counterpart_evidence: CounterpartEvidence,
}

/// A group with its variants as a sequence.
pub struct Group {
    pub header_declaration: Option<ResolvedCallableAnchor>,
    pub source_definition: Option<ResolvedCallableAnchor>,
    pub other_variants: Seq<ResolvedCallableAnchor>,
    pub group_tier: ScopeTier,
    pub counterpart_evidence: CounterpartEvidence,
}

impl View for CallableVariantGroup {
    type V = Group;

    open spec fn view(&self) -> Group {
        Group {
            header_declaration: self.header_declaration,
            source_definition: self.source_definition,
            other_variants: self.other_variants@,
            group_tier: self.group_tier,
            counterpart_evidence: self.counterpart_evidence,
        }
    }
}

pub open spec fn opt_seq(a: Option<ResolvedCallableAnchor>) -> Seq<ResolvedCallableAnchor> {
    match a {
        Some(x) => seq![x],
        None => Seq::empty(),
    }
}

/// The candidates of a group: declaration, definition, others.
pub open spec fn variants_of(g: Group) -> Seq<ResolvedCallableAnchor> {
    opt_seq(g.header_declaration) + opt_seq(g.source_definition) + g.other_variants
}

/// The best compatibility among the first `n` candidates.
pub open spec fn strongest_below(s: Seq<ResolvedCallableAnchor>, n: int) -> Option<
    ArityCompatibility,
>
    decreases n,
{
    if n <= 0 {
        None
    } else {
        let c = s[n - 1].arity_compatibility;
        match strongest_below(s, n - 1) {
            Some(best) => if c.spec_rank() >= best.spec_rank() {
                Some(c)
            } else {
                Some(best)
            },
            None => Some(c),
        }
    }
}

pub open spec fn strongest(g: Group) -> ArityCompatibility {
    match strongest_below(variants_of(g), variants_of(g).len() as int) {
        Some(best) => best,
        None => ArityCompatibility::Unknown,
    }
}

impl CallableVariantGroup {
    pub fn variants(&self) -> (r: Vec<&ResolvedCallableAnchor>)
        ensures
            targets(r@) == variants_of(self@),
    {
        let mut out: Vec<&ResolvedCallableAnchor> = Vec::new();
        match &self.header_declaration {
            Some(a) => {
                out.push(a);
            },
            None => {},
        }
        assert(targets(out@) =~= opt_seq(self.header_declaration));
        match &self.source_definition {
            Some(a) => {
                out.push(a);
            },
            None => {},
        }
        let ghost head = opt_seq(self.header_declaration) + opt_seq(self.source_definition);
        assert(targets(out@) =~= head);
        let mut i: usize = 0;
        while i < self.other_variants.len()
            invariant
                i <= self.other_variants@.len(),
                targets(out@) == head + self.other_variants@.subrange(0, i as int),
            decreases self.other_variants@.len() - i,
        {
            let ghost before = targets(out@);
            out.push(&self.other_variants[i]);
            i = i + 1;
            assert(targets(out@) =~= before.push(self.other_variants@[i - 1]));
            assert(targets(out@) =~= head + self.other_variants@.subrange(0, i as int));
        }
        assert(targets(out@) =~= variants_of(self@));
        out
    }

    pub fn strongest_arity_compatibility(&self) -> (r: ArityCompatibility)
        ensures
            r == strongest(self@),
    {
        let all = self.variants();
        let ghost s = variants_of(self@);
        let mut best: Option<ArityCompatibility> = None;
        let mut i: usize = 0;
        while i < all.len()
            invariant
                i <= all@.len(),
                targets(all@) == s,
                best == strongest_below(s, i as int),
            decreases all@.len() - i,
        {
            let c = all[i].arity_compatibility;
            assert(targets(all@)[i as int] == *all@[i as int]);
            best = match best {
                Some(b) => if c.rank() >= b.rank() {
                    Some(c)
                } else {
                    Some(b)
                },
                None => Some(c),
            };
            i = i + 1;
        }
        match best {
            Some(b) => b,
            None => ArityCompatibility::Unknown,
        }
    }
}

/// The outcome of one callable resolution.
#[derive(Debug, Clone, PartialEq, Eq)]
pub struct CallableCandidateSet {
    pub anchors: Vec<ResolvedCallableAnchor>,
    pub groups: Vec<CallableVariantGroup>,
    pub coverage: CandidateCoverage,
    pub arity_mismatch_fallback: bool,
}

/// Aggregate counters of one callable resolution. They hold no names, paths,
/// signatures or source text.
#[derive(Debug, Clone, Copy, PartialEq, Eq, Structural)]
pub struct CallableCandidateMetrics {
    pub raw_candidates: usize,
    pub filtered_candidates: usize,
    pub grouped_candidates: usize,
    pub arity_compatible: usize,
    pub arity_unknown: usize,
    pub arity_incompatible: usize,
    pub counterpart_strict: usize,
    pub counterpart_ambiguous: usize,
}

impl Default for CallableCandidateMetrics {
    fn default() -> (r: Self)
        ensures
            r == (CallableCandidateMetrics {
                raw_candidates: 0,
                filtered_candidates: 0,
                grouped_candidates: 0,
                arity_compatible: 0,
                arity_unknown: 0,
                arity_incompatible: 0,
                counterpart_strict: 0,
                counterpart_ambiguous: 0,
            }),
    {
        CallableCandidateMetrics {
            raw_candidates: 0,
            filtered_candidates: 0,
            grouped_candidates: 0,
            arity_compatible: 0,
            arity_unknown: 0,
            arity_incompatible: 0,
            counterpart_strict: 0,
            counterpart_ambiguous: 0,
        }
    }
}

/// Number of the first `n` candidates with compatibility `c`.
pub open spec fn count_arity(
    s: Seq<ResolvedCallableAnchor>,
    c: ArityCompatibility,
    n: int,
) -> nat
    decreases n,
{
    if n <= 0 {
        0
    } else {
        count_arity(s, c, n - 1) + if s[n - 1].arity_compatibility == c {
            1nat
        } else {
            0nat
        }
    }
}

/// Number of the first `n` groups that are strict pairs.
pub open spec fn count_strict(s: Seq<CallableVariantGroup>, n: int) -> nat
    decreases n,
{
    if n <= 0 {
        0
    } else {
        count_strict(s, n - 1) + if s[n - 1].counterpart_evidence
            == CounterpartEvidence::StrictOneToOne {
            1nat
        } else {
            0nat
        }
    }
}

/// Number of the first `n` groups with several possible counterparts.
pub open spec fn count_ambiguous(s: Seq<CallableVariantGroup>, n: int) -> nat
    decreases n,
{
    if n <= 0 {
        0
    } else {
        count_ambiguous(s, n - 1) + if s[n - 1].counterpart_evidence is Ambiguous {
            1nat
        } else {
            0nat
        }
    }
}

impl CallableCandidateSet {
    pub fn metrics(&self) -> (r: CallableCandidateMetrics)
        ensures
            r.raw_candidates == self.coverage.scanned,
            r.filtered_candidates == self.anchors@.len(),
            r.grouped_candidates == self.groups@.len(),
            r.arity_compatible == count_arity(
                self.anchors@,
                ArityCompatibility::Compatible,
                self.anchors@.len() as int,
            ),
            r.arity_unknown == count_arity(
                self.anchors@,
                ArityCompatibility::Unknown,
                self.anchors@.len() as int,
            ),
            r.arity_incompatible == count_arity(
                self.anchors@,
                ArityCompatibility::Incompatible,
                self.anchors@.len() as int,
            ),
            r.counterpart_strict == count_strict(self.groups@, self.groups@.len() as int),
            r.counterpart_ambiguous == count_ambiguous(self.groups@, self.groups@.len() as int),
    {
        let mut arity_compatible: usize = 0;
        let mut arity_unknown: usize = 0;
        let mut arity_incompatible: usize = 0;
        let mut i: usize = 0;
        while i < self.anchors.len()
            invariant
                i <= self.anchors@.len(),
                arity_compatible <= i,
                arity_unknown <= i,
                arity_incompatible <= i,
                arity_compatible == count_arity(
                    self.anchors@,
                    ArityCompatibility::Compatible,
                    i as int,
                ),
                arity_unknown == count_arity(self.anchors@, ArityCompatibility::Unknown, i as int),
                arity_incompatible == count_arity(
                    self.anchors@,
                    ArityCompatibility::Incompatible,
                    i as int,
                ),
            decreases self.anchors@.len() - i,
        {
            match self.anchors[i].arity_compatibility {
                ArityCompatibility::Compatible => {
                    arity_compatible = arity_compatible + 1;
                },
                ArityCompatibility::Unknown => {
                    arity_unknown = arity_unknown + 1;
                },
                ArityCompatibility::Incompatible => {
                    arity_incompatible = arity_incompatible + 1;
                },
            }
            i = i + 1;
        }
        let mut counterpart_strict: usize = 0;
        let mut counterpart_ambiguous: usize = 0;
        let mut g: usize = 0;
        while g < self.groups.len()
            invariant
                g <= self.groups@.len(),
                counterpart_strict <= g,
                counterpart_ambiguous <= g,
                counterpart_strict == count_strict(self.groups@, g as int),
                counterpart_ambiguous == count_ambiguous(self.groups@, g as int),
            decreases self.groups@.len() - g,
        {
            match self.groups[g].counterpart_evidence {
                CounterpartEvidence::StrictOneToOne => {
                    counterpart_strict = counterpart_strict + 1;
                },
                CounterpartEvidence::Ambiguous { .. } => {
                    counterpart_ambiguous = counterpart_ambiguous + 1;
                },
                CounterpartEvidence::Unpaired | CounterpartEvidence::IncompleteCoverage => {},
            }
            g = g + 1;
        }
        CallableCandidateMetrics {
            raw_candidates: self.coverage.scanned,
            filtered_candidates: self.anchors.len(),
            grouped_candidates: self.groups.len(),
            arity_compatible,
            arity_unknown,
            arity_incompatible,
            counterpart_strict,
            counterpart_ambiguous,
        }
    }
}

/// Recalled facts that one resolution works on.
pub struct CallableQueryInput {
    pub base_anchors: Vec<ResolvedCallableAnchor>,
    pub overlay_anchors: Vec<ResolvedCallableAnchor>,
    pub shadowed_paths: PathSet,
    pub call_context: Option<CallSiteContext>,
    pub source_reach: SourceReach,
    /// Files proven to take part in the current translation unit. An anchor
    /// of internal linkage outside them cannot be meant.
    pub visible_internal_paths: PathSet,
    pub coverage: CandidateCoverage,
}

// ---------------------------------------------------------------------------
// The candidates of a request

/// Indexed candidates of files that no open document replaces.
pub struct NotShadowed<'a> {
    pub shadowed: &'a PathSet,
}

impl<'a> Keep<ResolvedCallableAnchor> for NotShadowed<'a> {
    open spec fn keeps(&self, x: ResolvedCallableAnchor) -> bool {
        !self.shadowed@.contains(x.anchor.path@)
    }

    fn keep(&self, x: &ResolvedCallableAnchor) -> (r: bool) {
        !self.shadowed.contains(x.anchor.path.as_str())
    }
}

/// Candidates that are not known to be members of a record.
pub struct NotMember;

impl Keep<ResolvedCallableAnchor> for NotMember {
    open spec fn keeps(&self, x: ResolvedCallableAnchor) -> bool {
        x.anchor.owner_kind != Some(OwnerKindHint::Record)
    }

    fn keep(&self, x: &ResolvedCallableAnchor) -> (r: bool) {
        match x.anchor.owner_kind {
            Some(OwnerKindHint::Record) => false,
            _ => true,
        }
    }
}

/// Candidates that the linker could bind.
pub struct Linkable<'a> {
    pub visible: &'a PathSet,
}

impl<'a> Keep<ResolvedCallableAnchor> for Linkable<'a> {
    open spec fn keeps(&self, x: ResolvedCallableAnchor) -> bool {
        x.anchor.linkage is Internal ==> self.visible@.contains(x.anchor.path@)
    }

    fn keep(&self, x: &ResolvedCallableAnchor) -> (r: bool) {
        match &x.anchor.linkage {
            LinkageDomain::Internal(_) => self.visible.contains(x.anchor.path.as_str()),
            LinkageDomain::External | LinkageDomain::Unknown => true,
        }
    }
}

/// Candidates with one qualified name.
pub struct Qualified<'a> {
    pub name: &'a String,
}

impl<'a> Keep<ResolvedCallableAnchor> for Qualified<'a> {
    open spec fn keeps(&self, x: ResolvedCallableAnchor) -> bool {
        x.anchor.qualified_name@ == self.name@
    }

    fn keep(&self, x: &ResolvedCallableAnchor) -> (r: bool) {
        same_text(x.anchor.qualified_name.as_str(), self.name.as_str())
    }
}

impl SameKey for ResolvedCallableAnchor {
    open spec fn same_key(self, other: Self) -> bool {
        self.anchor.path@ == other.anchor.path@ && self.anchor.anchor_fingerprint@
            == other.anchor.anchor_fingerprint@ && self.anchor.name_range.start_byte
            == other.anchor.name_range.start_byte && self.anchor.name_range.end_byte
            == other.anchor.name_range.end_byte
    }

    fn has_same_key(&self, other: &Self) -> (r: bool) {
        same_text(self.anchor.path.as_str(), other.anchor.path.as_str()) && same_text(
            self.anchor.anchor_fingerprint.as_str(),
            other.anchor.anchor_fingerprint.as_str(),
        ) && self.anchor.name_range.start_byte == other.anchor.name_range.start_byte
            && self.anchor.name_range.end_byte == other.anchor.name_range.end_byte
    }
}

/// The call cannot name a free function.
pub open spec fn excludes_free_functions(context: Option<CallSiteContext>) -> bool {
    match context {
        Some(c) => c.reliability == ContextReliability::UnsupportedCallForm
            || !c.form.names_function(),
        None => false,
    }
}

/// Free functions that the linker could bind, out of the index and, for
/// open documents, out of the documents themselves.
pub open spec fn bindable(input: CallableQueryInput) -> Seq<ResolvedCallableAnchor> {
    let all = kept(input.base_anchors@, NotShadowed { shadowed: &input.shadowed_paths })
        + input.overlay_anchors@;
    if excludes_free_functions(input.call_context) {
        Seq::empty()
    } else {
        kept(kept(all, NotMember), Linkable { visible: &input.visible_internal_paths })
    }
}

/// The bindable candidates that carry the qualified name of a reliable call.
pub open spec fn named(input: CallableQueryInput) -> Seq<ResolvedCallableAnchor> {
    match input.call_context {
        Some(c) => if c.reliability == ContextReliability::Reliable && c.qualified_name is Some {
            kept(bindable(input), Qualified { name: &c.qualified_name->0 })
        } else {
            bindable(input)
        },
        None => bindable(input),
    }
}

/// The call that a request is about.
pub open spec fn context_in<'a>(input: CallableQueryInput) -> Option<&'a CallSiteContext> {
    match input.call_context {
        Some(c) => Some(&c),
        None => None,
    }
}

/// The candidates of a request: one per anchor, as the arity policy leaves
/// them.
pub open spec fn resolved(input: CallableQueryInput) -> Seq<ResolvedCallableAnchor> {
    stable_sort::<ResolvedCallableAnchor, AnchorOrder>(
        policy_keeps(first_of_key(named(input)), context_in(input)),
    )
}

/// The groups of a request. Those of an incomplete candidate set stay in the
/// order of the candidates.
pub open spec fn resolved_groups(input: CallableQueryInput) -> Seq<Group> {
    let groups = unsorted_groups(resolved(input), input.source_reach, input.coverage);
    if input.coverage.truncated || input.coverage.incomplete_reason is Some {
        groups
    } else {
        stable_sort::<Group, GroupOrder>(groups)
    }
}

/// Resolve the callables that a request may mean: candidates of the index and
/// of open documents, one per anchor, judged by arity and grouped into
/// counterparts. The candidates have been recalled already; nothing is read
/// here.
pub fn resolve_callable_candidates(input: CallableQueryInput) -> (r: CallableCandidateSet)
    ensures
        r.anchors@ == resolved(input),
        group_views(r.groups@) == resolved_groups(input),
        r.coverage == input.coverage,
        r.arity_mismatch_fallback == (policy_outcome(first_of_key(named(input)), context_in(input))
            == ArityFilterOutcome::MismatchFallback),
{
    let ghost whole = input;
    let mut anchors = input.base_anchors;
    let mut overlay = input.overlay_anchors;
    retain(&mut anchors, &NotShadowed { shadowed: &input.shadowed_paths });
    anchors.append(&mut overlay);
    let excluded = match &input.call_context {
        Some(c) => c.reliability == ContextReliability::UnsupportedCallForm
            || !c.form.is_name_form(),
        None => false,
    };
    if excluded {
        anchors.clear();
    } else {
        retain(&mut anchors, &NotMember);
        retain(&mut anchors, &Linkable { visible: &input.visible_internal_paths });
    }
    assert(anchors@ == bindable(whole));
    match &input.call_context {
        Some(c) => {
            if c.reliability.is_reliable() {
                match &c.qualified_name {
                    Some(name) => {
                        retain(&mut anchors, &Qualified { name });
                    },
                    None => {},
                }
            }
        },
        None => {},
    }
    assert(anchors@ == named(whole));
    dedup_by_key(&mut anchors);
    let context: Option<&CallSiteContext> = match &input.call_context {
        Some(c) => Some(c),
        None => None,
    };
    let outcome = apply_arity_policy(&mut anchors, context);
    let groups = resolve_counterparts(&anchors, &input.source_reach, &input.coverage);
    CallableCandidateSet {
        anchors,
        groups,
        coverage: input.coverage,
        arity_mismatch_fallback: outcome == ArityFilterOutcome::MismatchFallback,
    }
}

} // verus!
