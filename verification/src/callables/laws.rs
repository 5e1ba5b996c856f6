//! What holds of every resolved candidate, group and presentation.

use vstd::prelude::*;

use crate::call_model::{AnchorRole, OwnerKindHint};
use crate::callables::arity::{
    all_fallback, annotated, policy_keeps, policy_outcome, AnchorOrder, ArityCompatibility,
    ArityFilterOutcome, CallSiteContext, NotIncompatible, OnlyUnknown,
};
use crate::callables::counterpart::{
    implements, partner_is_mutual, plans_are_leads, plans_below, unsorted_groups,
    CounterpartEvidence, GroupOrder,
};
use crate::callables::presentation::{
    active_index, declaration_order, definition_order, first_with, members, of_top_candidate_tier,
    of_top_group_tier, opposite_from, top_candidate_rank, top_group_rank, CandidateRankIs, GroupRankIs,
    HeaderFirst, NearestFirst, OfRole, OfStrictPair, Picked, SourceFirst, StrictHeader,
    VisibleFrom,
};
use crate::callables::{
    bindable, context_in, excludes_free_functions, named, resolved, resolved_groups, variants_of,
    CallableQueryInput, CallableVariantGroup, Group, Linkable, NotMember, NotShadowed, Qualified,
    ResolvedCallableAnchor,
};
use crate::lists::{first_of_key, kept, kept_contains, kept_passes, key_seen, Keep, SameKey};
use crate::order::{stable_sort, stable_sort_is_permutation, stable_sort_takes_from, Order};

verus! {

// ---------------------------------------------------------------------------
// Candidates

/// A candidate that a request may mean: indexed in a file that no open
/// document replaces, or found in an open document; not known to be a member
/// of a record; and, with internal linkage, in a file that the request sees.
pub open spec fn may_be_meant(input: CallableQueryInput, a: ResolvedCallableAnchor) -> bool {
    &&& (input.base_anchors@.contains(a) && !input.shadowed_paths@.contains(a.anchor.path@))
        || input.overlay_anchors@.contains(a)
    &&& a.anchor.owner_kind != Some(OwnerKindHint::Record)
    &&& a.anchor.linkage is Internal ==> input.visible_internal_paths@.contains(a.anchor.path@)
}

proof fn bindable_may_be_meant(input: CallableQueryInput, i: int)
    requires
        0 <= i < bindable(input).len(),
    ensures
        may_be_meant(input, bindable(input)[i]),
        !excludes_free_functions(input.call_context),
{
    let base = kept(input.base_anchors@, NotShadowed { shadowed: &input.shadowed_paths });
    let all = base + input.overlay_anchors@;
    let free = kept(all, NotMember);
    let a = bindable(input)[i];
    kept_passes(free, Linkable { visible: &input.visible_internal_paths }, i);
    let j = choose|j: int| 0 <= j < free.len() && free[j] == a;
    kept_passes(all, NotMember, j);
    let k = choose|k: int| 0 <= k < all.len() && all[k] == a;
    if k < base.len() {
        kept_passes(input.base_anchors@, NotShadowed { shadowed: &input.shadowed_paths }, k);
    } else {
        assert(input.overlay_anchors@[k - base.len()] == a);
    }
}

proof fn named_may_be_meant(input: CallableQueryInput, i: int)
    requires
        0 <= i < named(input).len(),
    ensures
        may_be_meant(input, named(input)[i]),
        !excludes_free_functions(input.call_context),
{
    let b = bindable(input);
    if named(input) != b {
        let name = &input.call_context->0.qualified_name->0;
        kept_passes(b, Qualified { name }, i);
        let j = choose|j: int| 0 <= j < b.len() && b[j] == named(input)[i];
        bindable_may_be_meant(input, j);
    } else {
        bindable_may_be_meant(input, i);
    }
}

proof fn first_of_key_facts<T: SameKey>(s: Seq<T>)
    ensures
        forall|i: int| 0 <= i < first_of_key(s).len() ==> s.contains(#[trigger] first_of_key(s)[i]),
        forall|i: int, j: int|
            0 <= i < j < first_of_key(s).len() ==> !(#[trigger] first_of_key(s)[i]).same_key(
                #[trigger] first_of_key(s)[j],
            ),
    decreases s.len(),
{
    if s.len() > 0 {
        first_of_key_facts(s.drop_last());
        let before = first_of_key(s.drop_last());
        let r = first_of_key(s);
        assert forall|i: int| 0 <= i < r.len() implies s.contains(#[trigger] r[i]) by {
            if i < before.len() {
                assert(r[i] == before[i]);
                let w = choose|w: int| 0 <= w < s.len() - 1 && s.drop_last()[w] == before[i];
                assert(s[w] == r[i]);
            } else {
                assert(s[s.len() - 1] == r[i]);
            }
        }
        assert forall|i: int, j: int| 0 <= i < j < r.len() implies !(#[trigger] r[i]).same_key(
            #[trigger] r[j],
        ) by {
            assert(r[i] == before[i]);
            if j < before.len() {
                assert(r[j] == before[j]);
            } else {
                assert(!key_seen(before, s.last()));
            }
        }
    }
}

/// No two have the same path, fingerprint and place.
pub open spec fn keys_differ(s: Seq<ResolvedCallableAnchor>) -> bool {
    forall|i: int, j: int|
        0 <= i < s.len() && 0 <= j < s.len() && i != j ==> !(#[trigger] s[i]).same_key(
            #[trigger] s[j],
        )
}

proof fn kept_keys_differ<K: Keep<ResolvedCallableAnchor>>(
    s: Seq<ResolvedCallableAnchor>,
    k: K,
)
    requires
        keys_differ(s),
    ensures
        keys_differ(kept(s, k)),
    decreases s.len(),
{
    if s.len() > 0 {
        let front = s.drop_last();
        assert(keys_differ(front));
        kept_keys_differ(front, k);
        let before = kept(front, k);
        let r = kept(s, k);
        if k.keeps(s.last()) {
            assert forall|i: int| 0 <= i < before.len() implies !(#[trigger] r[i]).same_key(
                s.last(),
            ) && !s.last().same_key(r[i]) by {
                kept_passes(front, k, i);
                let w = choose|w: int| 0 <= w < front.len() && front[w] == before[i];
                assert(s[w] == r[i] && s[s.len() - 1] == s.last());
            }
            assert forall|i: int, j: int|
                0 <= i < r.len() && 0 <= j < r.len() && i != j implies !(#[trigger] r[i]).same_key(
                #[trigger] r[j],
            ) by {
                if i < before.len() && j < before.len() {
                    assert(before[i] == r[i] && before[j] == r[j]);
                }
            }
        }
    }
}

proof fn sorted_keys_differ(s: Seq<ResolvedCallableAnchor>)
    requires
        keys_differ(s),
    ensures
        keys_differ(stable_sort::<ResolvedCallableAnchor, AnchorOrder>(s)),
{
    let r = stable_sort::<ResolvedCallableAnchor, AnchorOrder>(s);
    stable_sort_is_permutation::<ResolvedCallableAnchor, AnchorOrder>(s);
    assert forall|i: int, j: int| 0 <= i < s.len() && 0 <= j < s.len() && i != j implies s[i]
        != s[j] by {
        assert(!s[i].same_key(s[j]));
    }
    s.lemma_multiset_has_no_duplicates();
    r.lemma_multiset_has_no_duplicates_conv();
    assert forall|i: int, j: int| 0 <= i < r.len() && 0 <= j < r.len() && i != j implies !(
    #[trigger] r[i]).same_key(#[trigger] r[j]) by {
        stable_sort_takes_from::<ResolvedCallableAnchor, AnchorOrder>(s, i);
        stable_sort_takes_from::<ResolvedCallableAnchor, AnchorOrder>(s, j);
        let a = choose|a: int| 0 <= a < s.len() && s[a] == r[i];
        let b = choose|b: int| 0 <= b < s.len() && s[b] == r[j];
        assert(r[i] != r[j]);
        assert(!s[a].same_key(s[b]));
    }
}

/// Judging changes what is known of a candidate, not the candidate.
proof fn policy_takes_from(
    s: Seq<ResolvedCallableAnchor>,
    context: Option<&CallSiteContext>,
    i: int,
)
    requires
        0 <= i < policy_keeps(s, context).len(),
    ensures
        exists|j: int|
            0 <= j < s.len() && (#[trigger] s[j]).anchor == policy_keeps(s, context)[i].anchor,
{
    let known = annotated(s, context);
    let r = policy_keeps(s, context);
    let j = match policy_outcome(s, context) {
        ArityFilterOutcome::Filtered => {
            kept_passes(known, NotIncompatible, i);
            choose|j: int| 0 <= j < known.len() && known[j] == r[i]
        },
        ArityFilterOutcome::UnknownOnly => {
            kept_passes(known, OnlyUnknown, i);
            choose|j: int| 0 <= j < known.len() && known[j] == r[i]
        },
        _ => i,
    };
    assert(known[j].anchor == r[i].anchor);
    assert(s[j].anchor == known[j].anchor);
}

proof fn policy_keys_differ(s: Seq<ResolvedCallableAnchor>, context: Option<&CallSiteContext>)
    requires
        keys_differ(s),
    ensures
        keys_differ(policy_keeps(s, context)),
{
    let known = annotated(s, context);
    assert(keys_differ(known)) by {
        assert forall|i: int, j: int|
            0 <= i < known.len() && 0 <= j < known.len() && i != j implies !(
        #[trigger] known[i]).same_key(#[trigger] known[j]) by {
            assert(!s[i].same_key(s[j]));
        }
    }
    kept_keys_differ(known, NotIncompatible);
    kept_keys_differ(known, OnlyUnknown);
    let all = all_fallback(known);
    assert forall|i: int, j: int| 0 <= i < all.len() && 0 <= j < all.len() && i != j implies !(
    #[trigger] all[i]).same_key(#[trigger] all[j]) by {
        assert(!known[i].same_key(known[j]));
    }
}

/// Every candidate of a request is an anchor that it may mean, and a call that
/// cannot name a free function has none.
pub proof fn resolved_may_be_meant(input: CallableQueryInput, i: int)
    requires
        0 <= i < resolved(input).len(),
    ensures
        exists|a: ResolvedCallableAnchor| #[trigger]
            may_be_meant(input, a) && a.anchor == resolved(input)[i].anchor,
        !excludes_free_functions(input.call_context),
{
    let once = first_of_key(named(input));
    let left = policy_keeps(once, context_in(input));
    stable_sort_is_permutation::<ResolvedCallableAnchor, AnchorOrder>(left);
    stable_sort_takes_from::<ResolvedCallableAnchor, AnchorOrder>(left, i);
    let k = choose|k: int| 0 <= k < left.len() && left[k] == resolved(input)[i];
    policy_takes_from(once, context_in(input), k);
    let j = choose|j: int| 0 <= j < once.len() && (#[trigger] once[j]).anchor == left[k].anchor;
    first_of_key_facts(named(input));
    assert(named(input).contains(once[j]));
    let m = choose|m: int| 0 <= m < named(input).len() && named(input)[m] == once[j];
    named_may_be_meant(input, m);
    assert(may_be_meant(input, once[j]));
}

/// An anchor that the index and an open document, or two searches, both give
/// is one candidate.
pub proof fn resolved_are_distinct(input: CallableQueryInput)
    ensures
        keys_differ(resolved(input)),
{
    let once = first_of_key(named(input));
    first_of_key_facts(named(input));
    assert forall|i: int, j: int| 0 <= i < once.len() && 0 <= j < once.len() && i != j implies !(
    #[trigger] once[i]).same_key(#[trigger] once[j]) by {
        if i < j {
            assert(!once[i].same_key(once[j]));
        } else {
            assert(!once[j].same_key(once[i]));
        }
    }
    policy_keys_differ(once, context_in(input));
    sorted_keys_differ(policy_keeps(once, context_in(input)));
}

// ---------------------------------------------------------------------------
// Groups

/// A pair is claimed only of a complete candidate set, and only where the
/// definition of a source file implements the declaration of a header that
/// the file reaches.
pub proof fn strict_pairs_are_proven(input: CallableQueryInput, k: int)
    requires
        0 <= k < resolved_groups(input).len(),
        resolved_groups(input)[k].counterpart_evidence == CounterpartEvidence::StrictOneToOne,
    ensures
        !input.coverage.truncated,
        input.coverage.incomplete_reason is None,
        ({
            let g = resolved_groups(input)[k];
            &&& g.source_definition is Some
            &&& g.header_declaration is Some
            &&& g.other_variants.len() == 0
            &&& resolved(input).contains(g.source_definition->0)
            &&& resolved(input).contains(g.header_declaration->0)
            &&& implements(g.source_definition->0, g.header_declaration->0, input.source_reach)
        }),
{
    let anchors = resolved(input);
    let reach = input.source_reach;
    let groups = unsorted_groups(anchors, reach, input.coverage);
    if input.coverage.truncated || input.coverage.incomplete_reason is Some {
        assert(groups[k].counterpart_evidence == CounterpartEvidence::IncompleteCoverage);
    } else {
        stable_sort_is_permutation::<Group, GroupOrder>(groups);
        stable_sort_takes_from::<Group, GroupOrder>(groups, k);
        let m = choose|m: int| 0 <= m < groups.len() && groups[m] == resolved_groups(input)[k];
        let n = anchors.len() as int;
        let plans = plans_below(anchors, reach, n);
        plans_are_leads(anchors, reach, n);
        let plan = plans[m];
        assert(plan.other is Some);
        partner_is_mutual(anchors, reach, plan.lead);
        assert(anchors.contains(anchors[plan.lead]));
        assert(anchors.contains(anchors[plan.other->0]));
    }
}

// ---------------------------------------------------------------------------
// Presentations

/// A candidate of one of the groups.
pub open spec fn is_member(groups: Seq<CallableVariantGroup>, a: ResolvedCallableAnchor) -> bool {
    exists|k: int| 0 <= k < members(groups).len() && *(#[trigger] members(groups)[k]).anchor == a
}

pub open spec fn has_role(
    groups: Seq<CallableVariantGroup>,
    role: AnchorRole,
) -> bool {
    exists|a: ResolvedCallableAnchor| #[trigger] is_member(groups, a) && a.anchor.role == role
}

/// Every element of `s` is an element of `from`.
spec fn picked_from(s: Seq<Picked>, from: Seq<Picked>) -> bool {
    forall|i: int| 0 <= i < s.len() ==> from.contains(#[trigger] s[i])
}

proof fn kept_picks<'a, K: Keep<Picked<'a>>>(s: Seq<Picked<'a>>, k: K, from: Seq<Picked<'a>>)
    requires
        picked_from(s, from),
    ensures
        picked_from(kept(s, k), from),
        picked_from(kept(s, k), s),
        forall|i: int| 0 <= i < kept(s, k).len() ==> k.keeps(#[trigger] kept(s, k)[i]),
{
    assert forall|i: int| 0 <= i < kept(s, k).len() implies from.contains(
        #[trigger] kept(s, k)[i],
    ) && s.contains(kept(s, k)[i]) && k.keeps(kept(s, k)[i]) by {
        kept_passes(s, k, i);
        let w = choose|w: int| 0 <= w < s.len() && s[w] == kept(s, k)[i];
        assert(from.contains(s[w]));
    }
}

proof fn sorted_picks<'a, O: Order<Picked<'a>>>(s: Seq<Picked<'a>>, from: Seq<Picked<'a>>)
    requires
        picked_from(s, from),
    ensures
        picked_from(stable_sort::<Picked<'a>, O>(s), from),
        stable_sort::<Picked<'a>, O>(s).len() == s.len(),
{
    let r = stable_sort::<Picked<'a>, O>(s);
    stable_sort_is_permutation::<Picked<'a>, O>(s);
    assert forall|i: int| 0 <= i < r.len() implies from.contains(#[trigger] r[i]) by {
        stable_sort_takes_from::<Picked<'a>, O>(s, i);
        let w = choose|w: int| 0 <= w < s.len() && s[w] == r[i];
        assert(from.contains(s[w]));
    }
}

proof fn of_one_role<'a>(groups: Seq<CallableVariantGroup>, role: AnchorRole)
    ensures
        ({
            let s: Seq<Picked<'a>> = kept(members(groups), OfRole { role });
            &&& forall|i: int|
                0 <= i < s.len() ==> is_member(groups, *(#[trigger] s[i]).anchor)
                    && s[i].anchor.anchor.role == role
            &&& s.len() > 0 <==> has_role(groups, role)
        }),
{
    let all: Seq<Picked<'a>> = members(groups);
    let test = OfRole { role };
    let s = kept(all, test);
    assert(picked_from(all, all));
    kept_picks(all, test, all);
    assert forall|i: int| 0 <= i < s.len() implies is_member(groups, *(#[trigger] s[i]).anchor)
        && s[i].anchor.anchor.role == role by {
        assert(all.contains(s[i]));
        let k = choose|k: int| 0 <= k < all.len() && all[k] == s[i];
        assert(*all[k].anchor == *s[i].anchor);
        assert(test.keeps(s[i]));
    }
    if s.len() > 0 {
        assert(is_member(groups, *s[0].anchor));
    }
    if has_role(groups, role) {
        let a = choose|a: ResolvedCallableAnchor| #[trigger]
            is_member(groups, a) && a.anchor.role == role;
        let k = choose|k: int|
            0 <= k < members(groups).len() && *(#[trigger] members(groups)[k]).anchor == a;
        assert(test.keeps(all[k]));
        kept_contains(all, test, k);
    }
}

/// Going to a definition shows definitions alone, and declarations only where
/// no candidate is a definition.
pub proof fn definitions_are_preferred(groups: Seq<CallableVariantGroup>, i: int)
    requires
        0 <= i < definition_order(groups).len(),
    ensures
        is_member(groups, definition_order(groups)[i]),
        definition_order(groups)[i].anchor.role == (if has_role(groups, AnchorRole::Definition) {
            AnchorRole::Definition
        } else {
            AnchorRole::Declaration
        }),
{
    let definitions = kept(members(groups), OfRole { role: AnchorRole::Definition });
    let declarations = kept(members(groups), OfRole { role: AnchorRole::Declaration });
    of_one_role(groups, AnchorRole::Definition);
    of_one_role(groups, AnchorRole::Declaration);
    assert(picked_from(definitions, definitions));
    assert(picked_from(declarations, declarations));
    let a = definition_order(groups)[i];
    if definitions.len() > 0 {
        let top = of_top_group_tier(definitions);
        kept_picks(
            definitions,
            GroupRankIs { rank: top_group_rank(definitions, definitions.len() as int) as i32 },
            definitions,
        );
        kept_picks(top, OfStrictPair, definitions);
        let shown = if kept(top, OfStrictPair).len() > 0 {
            kept(top, OfStrictPair)
        } else {
            top
        };
        sorted_picks::<SourceFirst>(shown, definitions);
        let p = stable_sort::<Picked, SourceFirst>(shown)[i];
        assert(*p.anchor == a);
        assert(definitions.contains(p));
        let w = choose|w: int| 0 <= w < definitions.len() && definitions[w] == p;
        assert(is_member(groups, *definitions[w].anchor));
    } else {
        let top = of_top_group_tier(declarations);
        kept_picks(
            declarations,
            GroupRankIs { rank: top_group_rank(declarations, declarations.len() as int) as i32 },
            declarations,
        );
        sorted_picks::<HeaderFirst>(top, declarations);
        let p = stable_sort::<Picked, HeaderFirst>(top)[i];
        assert(*p.anchor == a);
        assert(declarations.contains(p));
        let w = choose|w: int| 0 <= w < declarations.len() && declarations[w] == p;
        assert(is_member(groups, *declarations[w].anchor));
    }
}

/// Going to a declaration shows candidates, and of the file of the use no
/// declaration behind it.
pub proof fn declarations_are_visible(
    groups: Seq<CallableVariantGroup>,
    origin: Option<(&str, usize)>,
    i: int,
)
    requires
        0 <= i < declaration_order(groups, origin).len(),
    ensures
        is_member(groups, declaration_order(groups, origin)[i]),
        ({
            let a = declaration_order(groups, origin)[i].anchor;
            origin is Some && a.role == AnchorRole::Declaration && a.path@ == (origin->0).0@
                ==> a.name_range.start_byte <= (origin->0).1
        }),
{
    let written = kept(members(groups), OfRole { role: AnchorRole::Declaration });
    let visible = kept(written, VisibleFrom { origin });
    let declarations = of_top_candidate_tier(visible);
    let definitions = kept(members(groups), OfRole { role: AnchorRole::Definition });
    let defined = of_top_candidate_tier(definitions);
    of_one_role(groups, AnchorRole::Definition);
    of_one_role(groups, AnchorRole::Declaration);
    assert(picked_from(written, written));
    assert(picked_from(definitions, definitions));
    kept_picks(written, VisibleFrom { origin }, written);
    assert(picked_from(visible, visible));
    kept_picks(
        visible,
        CandidateRankIs { rank: top_candidate_rank(visible, visible.len() as int) as i32 },
        visible,
    );
    kept_picks(
        definitions,
        CandidateRankIs { rank: top_candidate_rank(definitions, definitions.len() as int) as i32 },
        definitions,
    );
    let strict = kept(declarations, StrictHeader);
    kept_picks(declarations, StrictHeader, visible);
    sorted_picks::<HeaderFirst>(strict, visible);
    sorted_picks::<NearestFirst>(declarations, visible);
    sorted_picks::<NearestFirst>(defined, definitions);
    let a = declaration_order(groups, origin)[i];
    if declarations.len() > 0 {
        let p = if strict.len() > 0 {
            stable_sort::<Picked, HeaderFirst>(strict)[i]
        } else {
            stable_sort::<Picked, NearestFirst>(declarations)[0]
        };
        assert(*p.anchor == a);
        assert(visible.contains(p));
        let v = choose|v: int| 0 <= v < visible.len() && visible[v] == p;
        assert(written.contains(visible[v]));
        assert((VisibleFrom { origin }).keeps(visible[v]));
        let w = choose|w: int| 0 <= w < written.len() && written[w] == p;
        assert(is_member(groups, *written[w].anchor));
    } else {
        let p = stable_sort::<Picked, NearestFirst>(defined)[0];
        assert(*p.anchor == a);
        assert(definitions.contains(p));
        let w = choose|w: int| 0 <= w < definitions.len() && definitions[w] == p;
        assert(is_member(groups, *definitions[w].anchor));
    }
}

proof fn first_with_facts(s: Seq<ResolvedCallableAnchor>, c: ArityCompatibility, i: int)
    requires
        0 <= i,
    ensures
        match first_with(s, c, i) {
            Some(k) => i <= k < s.len() && s[k].arity_compatibility == c,
            None => forall|k: int|
                i <= k < s.len() ==> (#[trigger] s[k]).arity_compatibility != c,
        },
    decreases s.len() - i,
{
    if i < s.len() && s[i].arity_compatibility != c {
        first_with_facts(s, c, i + 1);
    }
}

/// The highlighted signature is one that is shown, and none that is shown fits
/// the call better.
pub proof fn active_signature_fits_best(s: Seq<ResolvedCallableAnchor>, k: int)
    requires
        0 <= k < s.len(),
    ensures
        0 <= active_index(s) < s.len(),
        s[active_index(s)].arity_compatibility.spec_rank()
            >= s[k].arity_compatibility.spec_rank(),
{
    first_with_facts(s, ArityCompatibility::Compatible, 0);
    first_with_facts(s, ArityCompatibility::Unknown, 0);
}

// ---------------------------------------------------------------------------
// Opposites

/// A strict pair with both sides.
pub open spec fn is_strict_pair(g: CallableVariantGroup) -> bool {
    g.counterpart_evidence == CounterpartEvidence::StrictOneToOne && g.header_declaration is Some
        && g.source_definition is Some
}

pub open spec fn fingerprint(a: ResolvedCallableAnchor) -> Seq<char> {
    a.anchor.anchor_fingerprint@
}

/// No two candidates of the groups have one fingerprint.
pub open spec fn fingerprints_differ(groups: Seq<CallableVariantGroup>) -> bool {
    forall|i: int, k: int, j: int, m: int|
        0 <= i < groups.len() && 0 <= j < groups.len() && 0 <= k < variants_of(groups[i]@).len()
            && 0 <= m < variants_of(groups[j]@).len() && fingerprint(
            #[trigger] variants_of(groups[i]@)[k],
        ) == fingerprint(#[trigger] variants_of(groups[j]@)[m]) ==> i == j && k == m
}

proof fn opposite_found(groups: Seq<CallableVariantGroup>, f: Seq<char>, i: int)
    requires
        0 <= i,
    ensures
        match opposite_from(groups, f, i) {
            Some(a) => exists|g: int|
                i <= g < groups.len() && is_strict_pair(#[trigger] groups[g]) && ((fingerprint(
                    groups[g].header_declaration->0,
                ) == f && a == groups[g].source_definition->0) || (fingerprint(
                    groups[g].source_definition->0,
                ) == f && a == groups[g].header_declaration->0)),
            None => forall|g: int|
                i <= g < groups.len() && is_strict_pair(#[trigger] groups[g]) ==> fingerprint(
                    groups[g].header_declaration->0,
                ) != f && fingerprint(groups[g].source_definition->0) != f,
        },
    decreases groups.len() - i,
{
    if i < groups.len() {
        opposite_found(groups, f, i + 1);
        if is_strict_pair(groups[i]) {
            assert(is_strict_pair(groups[i]));
        }
    }
}

/// Where fingerprints differ, going to the opposite and back leads to the
/// candidate that was asked for: the two are the sides of one strict pair.
pub proof fn opposite_leads_back(groups: Seq<CallableVariantGroup>, f: Seq<char>)
    requires
        fingerprints_differ(groups),
        opposite_from(groups, f, 0) is Some,
    ensures
        ({
            let a = opposite_from(groups, f, 0)->0;
            let back = opposite_from(groups, fingerprint(a), 0);
            &&& back is Some
            &&& fingerprint(back->0) == f
            &&& exists|g: int|
                0 <= g < groups.len() && is_strict_pair(#[trigger] groups[g]) && ((
                groups[g].header_declaration == Some(a) && groups[g].source_definition == back) || (
                groups[g].source_definition == Some(a) && groups[g].header_declaration == back))
        }),
{
    let a = opposite_from(groups, f, 0)->0;
    opposite_found(groups, f, 0);
    opposite_found(groups, fingerprint(a), 0);
    let g = choose|g: int|
        0 <= g < groups.len() && is_strict_pair(#[trigger] groups[g]) && ((fingerprint(
            groups[g].header_declaration->0,
        ) == f && a == groups[g].source_definition->0) || (fingerprint(
            groups[g].source_definition->0,
        ) == f && a == groups[g].header_declaration->0));
    let v = variants_of(groups[g]@);
    assert(v[0] == groups[g].header_declaration->0 && v[1] == groups[g].source_definition->0);
    assert(opposite_from(groups, fingerprint(a), 0) is Some);
    let b = opposite_from(groups, fingerprint(a), 0)->0;
    let h = choose|h: int|
        0 <= h < groups.len() && is_strict_pair(#[trigger] groups[h]) && ((fingerprint(
            groups[h].header_declaration->0,
        ) == fingerprint(a) && b == groups[h].source_definition->0) || (fingerprint(
            groups[h].source_definition->0,
        ) == fingerprint(a) && b == groups[h].header_declaration->0));
    let w = variants_of(groups[h]@);
    assert(w[0] == groups[h].header_declaration->0 && w[1] == groups[h].source_definition->0);
    let side = if a == groups[g].header_declaration->0 {
        0int
    } else {
        1int
    };
    let other = if fingerprint(w[0]) == fingerprint(a) && b == w[1] {
        0int
    } else {
        1int
    };
    assert(fingerprint(v[side]) == fingerprint(a));
    assert(fingerprint(w[other]) == fingerprint(a));
    assert(g == h && side == other);
}

/// Where fingerprints differ, only a side of a strict pair has an opposite.
pub proof fn others_have_no_opposite(groups: Seq<CallableVariantGroup>, i: int, k: int)
    requires
        fingerprints_differ(groups),
        0 <= i < groups.len(),
        0 <= k < variants_of(groups[i]@).len(),
        !is_strict_pair(groups[i]),
    ensures
        opposite_from(groups, fingerprint(variants_of(groups[i]@)[k]), 0) is None,
{
    let f = fingerprint(variants_of(groups[i]@)[k]);
    opposite_found(groups, f, 0);
    if opposite_from(groups, f, 0) is Some {
        let a = opposite_from(groups, f, 0)->0;
        let g = choose|g: int|
            0 <= g < groups.len() && is_strict_pair(#[trigger] groups[g]) && ((fingerprint(
                groups[g].header_declaration->0,
            ) == f && a == groups[g].source_definition->0) || (fingerprint(
                groups[g].source_definition->0,
            ) == f && a == groups[g].header_declaration->0));
        let v = variants_of(groups[g]@);
        assert(v[0] == groups[g].header_declaration->0 && v[1] == groups[g].source_definition->0);
        assert(fingerprint(v[0]) == f || fingerprint(v[1]) == f);
    }
}

} // verus!
