//! What no resolution and no presentation leaves out.

use vstd::prelude::*;
use vstd::set_lib::set_int_range;

use crate::call_model::AnchorRole;
use crate::callables::arity::{
    annotated, compatibility, policy_keeps, policy_keeps_what_fits, with_compatibility,
    AnchorOrder, ArityCompatibility, ContextReliability,
};
use crate::callables::counterpart::{
    face, first_link, implements, linked, links, links_below, pair, partner, planned_group,
    plans_are_leads, plans_below, unsorted_groups, CounterpartEvidence,
};
use crate::callables::laws::may_be_meant;
use crate::callables::presentation::{
    anchors_of, definition_order, faces, faces_below, hover_order, members, members_below,
    of_top_group_tier, picks_of, top_group_rank, GroupRankIs, HeaderFirst, OfRole, OfStrictPair,
    Picked, SourceFirst,
};
use crate::callables::{
    bindable, context_in, count_arity, excludes_free_functions, named, resolved, variants_of,
    CallableQueryInput, CallableVariantGroup, CandidateCoverage, Linkable, NotMember, NotShadowed, Qualified,
    ResolvedCallableAnchor,
};
use crate::count_laws::one_more;
use crate::lists::{first_of_key, kept, kept_contains, kept_passes, key_seen, Keep, SameKey};
use crate::order::{stable_sort, stable_sort_is_permutation, Order};
use crate::reach::SourceReach;

verus! {

// ---------------------------------------------------------------------------
// Candidates

proof fn sorted_contains<T, O: Order<T>>(s: Seq<T>, x: T)
    requires
        s.contains(x),
    ensures
        stable_sort::<T, O>(s).contains(x),
{
    broadcast use vstd::seq_lib::group_to_multiset_ensures;

    stable_sort_is_permutation::<T, O>(s);
    assert(s.to_multiset().count(x) > 0);
}

proof fn bindable_holds(input: CallableQueryInput, a: ResolvedCallableAnchor)
    requires
        may_be_meant(input, a),
        !excludes_free_functions(input.call_context),
    ensures
        bindable(input).contains(a),
{
    let test = NotShadowed { shadowed: &input.shadowed_paths };
    let base = kept(input.base_anchors@, test);
    let all = base + input.overlay_anchors@;
    if input.base_anchors@.contains(a) && test.keeps(a) {
        let i = choose|i: int| 0 <= i < input.base_anchors@.len() && input.base_anchors@[i] == a;
        kept_contains(input.base_anchors@, test, i);
        let k = choose|k: int| 0 <= k < base.len() && base[k] == a;
        assert(all[k] == a);
    } else {
        let i = choose|i: int|
            0 <= i < input.overlay_anchors@.len() && input.overlay_anchors@[i] == a;
        assert(all[base.len() + i] == a);
    }
    let k = choose|k: int| 0 <= k < all.len() && all[k] == a;
    kept_contains(all, NotMember, k);
    let free = kept(all, NotMember);
    let j = choose|j: int| 0 <= j < free.len() && free[j] == a;
    kept_contains(free, Linkable { visible: &input.visible_internal_paths }, j);
}

/// The candidate has the qualified name of a reliable call, where the call has
/// one.
pub open spec fn is_named_so(input: CallableQueryInput, a: ResolvedCallableAnchor) -> bool {
    match input.call_context {
        Some(c) => c.reliability == ContextReliability::Reliable && c.qualified_name is Some
            ==> a.anchor.qualified_name@ == c.qualified_name->0@,
        None => true,
    }
}

proof fn named_holds(input: CallableQueryInput, a: ResolvedCallableAnchor)
    requires
        may_be_meant(input, a),
        !excludes_free_functions(input.call_context),
        is_named_so(input, a),
    ensures
        named(input).contains(a),
{
    bindable_holds(input, a);
    let b = bindable(input);
    let j = choose|j: int| 0 <= j < b.len() && b[j] == a;
    if input.call_context is Some {
        let c = input.call_context->0;
        if c.reliability == ContextReliability::Reliable && c.qualified_name is Some {
            kept_contains(b, Qualified { name: &c.qualified_name->0 }, j);
        }
    }
}

proof fn key_is_kept(s: Seq<ResolvedCallableAnchor>, i: int)
    requires
        0 <= i < s.len(),
    ensures
        key_seen(first_of_key(s), s[i]),
    decreases s.len(),
{
    let front = s.drop_last();
    let before = first_of_key(front);
    let r = first_of_key(s);
    if i < front.len() {
        key_is_kept(front, i);
        let k = choose|k: int| 0 <= k < before.len() && (#[trigger] before[k]).same_key(front[i]);
        assert(r[k] == before[k]);
        assert(r[k].same_key(s[i]));
    } else if !key_seen(before, s.last()) {
        assert(r[r.len() - 1].same_key(s[i]));
    }
}

proof fn first_is_from(s: Seq<ResolvedCallableAnchor>, i: int)
    requires
        0 <= i < first_of_key(s).len(),
    ensures
        s.contains(first_of_key(s)[i]),
    decreases s.len(),
{
    let front = s.drop_last();
    let before = first_of_key(front);
    if i < before.len() {
        first_is_from(front, i);
        let k = choose|k: int| 0 <= k < front.len() && front[k] == before[i];
        assert(s[k] == first_of_key(s)[i]);
    } else {
        assert(s[s.len() - 1] == first_of_key(s)[i]);
    }
}

/// Every candidate that a request may mean, under the name that it asks for,
/// is resolved, itself or by another with its path, fingerprint and place:
/// without a call always, with one where those fit the call.
pub proof fn every_meant_candidate_is_resolved(
    input: CallableQueryInput,
    a: ResolvedCallableAnchor,
)
    requires
        may_be_meant(input, a),
        !excludes_free_functions(input.call_context),
        is_named_so(input, a),
        input.call_context is Some ==> forall|b: ResolvedCallableAnchor|
            #[trigger] named(input).contains(b) && b.same_key(a) ==> compatibility(
                b.anchor.signature,
                context_in(input),
            ) == ArityCompatibility::Compatible,
    ensures
        exists|k: int|
            0 <= k < resolved(input).len() && (#[trigger] resolved(input)[k]).same_key(a),
{
    named_holds(input, a);
    let all = named(input);
    let once = first_of_key(all);
    let i = choose|i: int| 0 <= i < all.len() && all[i] == a;
    key_is_kept(all, i);
    let j = choose|j: int| 0 <= j < once.len() && (#[trigger] once[j]).same_key(a);
    first_is_from(all, j);
    let context = context_in(input);
    let left = policy_keeps(once, context);
    let b = with_compatibility(once[j], context);
    policy_keeps_what_fits(once, context, j);
    if input.call_context is None {
        assert(left == annotated(once, context));
        assert(left[j] == b);
    }
    assert(left.contains(b));
    sorted_contains::<ResolvedCallableAnchor, AnchorOrder>(left, b);
    let k = choose|k: int| 0 <= k < resolved(input).len() && resolved(input)[k] == b;
    assert(resolved(input)[k].same_key(a));
}

// ---------------------------------------------------------------------------
// Presentations

proof fn face_is_listed<'a>(groups: Seq<CallableVariantGroup>, g: int, n: int)
    requires
        0 <= g < n <= groups.len(),
        face(groups[g]@) is Some,
    ensures
        anchors_of(faces_below(groups, n)).contains(face(groups[g]@)->0),
    decreases n,
{
    let a = face(groups[g]@)->0;
    let now = anchors_of(faces_below(groups, n));
    let before = anchors_of(faces_below(groups, n - 1));
    if g < n - 1 {
        face_is_listed(groups, g, n - 1);
        let k = choose|k: int| 0 <= k < before.len() && before[k] == a;
        assert(now[k] == before[k]);
    } else {
        assert(now[now.len() - 1] == a);
    }
}

proof fn sorting_keeps_anchors<'a, O: Order<Picked<'a>>>(
    s: Seq<Picked<'a>>,
    a: ResolvedCallableAnchor,
)
    requires
        anchors_of(s).contains(a),
    ensures
        anchors_of(stable_sort::<Picked<'a>, O>(s)).contains(a),
{
    let r = stable_sort::<Picked<'a>, O>(s);
    let k = choose|k: int| 0 <= k < anchors_of(s).len() && anchors_of(s)[k] == a;
    assert(s.contains(s[k]));
    sorted_contains::<Picked<'a>, O>(s, s[k]);
    let m = choose|m: int| 0 <= m < r.len() && r[m] == s[k];
    assert(anchors_of(r)[m] == a);
}

/// Every group that has a candidate is shown by one of its candidates,
/// however many groups there are: by the declaration of the header, else the
/// definition, else its first other candidate.
pub proof fn every_group_is_shown(groups: Seq<CallableVariantGroup>, g: int)
    requires
        0 <= g < groups.len(),
        variants_of(groups[g]@).len() > 0,
    ensures
        hover_order(groups).contains(variants_of(groups[g]@)[0]),
{
    let a = variants_of(groups[g]@)[0];
    assert(face(groups[g]@) == Some(a));
    face_is_listed(groups, g, groups.len() as int);
    sorting_keeps_anchors::<HeaderFirst>(faces(groups), a);
}

proof fn member_is_listed<'a>(groups: Seq<CallableVariantGroup>, g: int, k: int, n: int)
    requires
        0 <= g < n <= groups.len(),
        0 <= k < variants_of(groups[g]@).len(),
    ensures
        members_below(groups, n).contains(
            Picked { group: &groups[g], anchor: &variants_of(groups[g]@)[k] },
        ),
    decreases n,
{
    let p = Picked { group: &groups[g], anchor: &variants_of(groups[g]@)[k] };
    let before = members_below(groups, n - 1);
    let now = members_below(groups, n);
    if g < n - 1 {
        member_is_listed(groups, g, k, n - 1);
        let w = choose|w: int| 0 <= w < before.len() && before[w] == p;
        assert(now[w] == p);
    } else {
        assert(picks_of(groups[g])[k] == p);
        assert(now[before.len() + k] == p);
    }
}

proof fn listed_is_member<'a>(groups: Seq<CallableVariantGroup>, i: int, n: int) -> (r: (int, int))
    requires
        0 <= n <= groups.len(),
        0 <= i < members_below(groups, n).len(),
    ensures
        0 <= r.0 < n,
        0 <= r.1 < variants_of(groups[r.0]@).len(),
        members_below(groups, n)[i] == (Picked {
            group: &groups[r.0],
            anchor: &variants_of(groups[r.0]@)[r.1],
        }),
    decreases n,
{
    let before = members_below(groups, n - 1);
    if i < before.len() {
        listed_is_member(groups, i, n - 1)
    } else {
        (n - 1, i - before.len())
    }
}

proof fn top_rank_is(s: Seq<Picked>, n: int, rank: int)
    requires
        0 <= n <= s.len(),
        0 <= rank,
        forall|i: int| 0 <= i < n ==> (#[trigger] s[i]).group.group_tier.spec_rank() <= rank,
    ensures
        0 <= top_group_rank(s, n) <= rank,
        (exists|i: int| 0 <= i < n && (#[trigger] s[i]).group.group_tier.spec_rank() == rank)
            ==> top_group_rank(s, n) == rank,
    decreases n,
{
    if n > 0 {
        top_rank_is(s, n - 1, rank);
    }
}

/// The group is a proven pair.
pub open spec fn is_pair(group: CallableVariantGroup) -> bool {
    group.counterpart_evidence == CounterpartEvidence::StrictOneToOne
}

/// Going to a definition shows every definition of the strongest tier that has
/// one, or, where proven pairs are among them, every definition of those.
pub proof fn every_strong_definition_is_shown(groups: Seq<CallableVariantGroup>, g: int, k: int)
    requires
        0 <= g < groups.len(),
        0 <= k < variants_of(groups[g]@).len(),
        variants_of(groups[g]@)[k].anchor.role == AnchorRole::Definition,
        forall|h: int, j: int|
            0 <= h < groups.len() && 0 <= j < variants_of(groups[h]@).len() && (
            #[trigger] variants_of(groups[h]@)[j]).anchor.role == AnchorRole::Definition ==> {
                &&& groups[h].group_tier.spec_rank() <= groups[g].group_tier.spec_rank()
                &&& groups[h].group_tier.spec_rank() == groups[g].group_tier.spec_rank()
                    && is_pair(groups[h]) ==> is_pair(groups[g])
            },
    ensures
        definition_order(groups).contains(variants_of(groups[g]@)[k]),
{
    strong_definition_is_picked(groups, g, k);
}

proof fn strong_definition_is_picked<'a>(groups: Seq<CallableVariantGroup>, g: int, k: int)
    requires
        0 <= g < groups.len(),
        0 <= k < variants_of(groups[g]@).len(),
        variants_of(groups[g]@)[k].anchor.role == AnchorRole::Definition,
        forall|h: int, j: int|
            0 <= h < groups.len() && 0 <= j < variants_of(groups[h]@).len() && (
            #[trigger] variants_of(groups[h]@)[j]).anchor.role == AnchorRole::Definition ==> {
                &&& groups[h].group_tier.spec_rank() <= groups[g].group_tier.spec_rank()
                &&& groups[h].group_tier.spec_rank() == groups[g].group_tier.spec_rank()
                    && is_pair(groups[h]) ==> is_pair(groups[g])
            },
    ensures
        definition_order(groups).contains(variants_of(groups[g]@)[k]),
{
    let a = variants_of(groups[g]@)[k];
    let p = Picked { group: &groups[g], anchor: &variants_of(groups[g]@)[k] };
    let all = members(groups);
    let n = groups.len() as int;
    let test = OfRole { role: AnchorRole::Definition };
    let definitions = kept(all, test);
    member_is_listed(groups, g, k, n);
    let w = choose|w: int| 0 <= w < all.len() && all[w] == p;
    kept_contains(all, test, w);
    let rank = groups[g].group_tier.spec_rank();
    assert forall|i: int| 0 <= i < definitions.len() implies (
    #[trigger] definitions[i]).group.group_tier.spec_rank() <= rank && (
    definitions[i].group.group_tier.spec_rank() == rank && is_pair(*definitions[i].group)
        ==> is_pair(groups[g])) by {
        kept_passes(all, test, i);
        let m = choose|m: int| 0 <= m < all.len() && all[m] == definitions[i];
        let (h, j) = listed_is_member(groups, m, n);
        assert(variants_of(groups[h]@)[j].anchor.role == AnchorRole::Definition);
    }
    let d = choose|d: int| 0 <= d < definitions.len() && definitions[d] == p;
    assert(definitions[d].group.group_tier.spec_rank() == rank);
    top_rank_is(definitions, definitions.len() as int, rank);
    let best = GroupRankIs { rank: top_group_rank(definitions, definitions.len() as int) as i32 };
    let top = of_top_group_tier(definitions);
    kept_contains(definitions, best, d);
    let t = choose|t: int| 0 <= t < top.len() && top[t] == p;
    let strict = kept(top, OfStrictPair);
    let shown = if strict.len() > 0 {
        strict
    } else {
        top
    };
    if strict.len() > 0 {
        kept_passes(top, OfStrictPair, 0);
        let s = choose|s: int| 0 <= s < top.len() && top[s] == strict[0];
        kept_passes(definitions, best, s);
        let i = choose|i: int| 0 <= i < definitions.len() && definitions[i] == top[s];
        assert(is_pair(*definitions[i].group));
        assert(definitions[i].group.group_tier.spec_rank() == rank);
        kept_contains(top, OfStrictPair, t);
    }
    assert(shown.contains(p));
    let s = choose|s: int| 0 <= s < shown.len() && shown[s] == p;
    assert(anchors_of(shown)[s] == a);
    sorting_keeps_anchors::<SourceFirst>(shown, a);
}

// ---------------------------------------------------------------------------
// Counts

proof fn every_candidate_is_judged(s: Seq<ResolvedCallableAnchor>, n: int)
    requires
        0 <= n <= s.len(),
    ensures
        count_arity(s, ArityCompatibility::Compatible, n) + count_arity(
            s,
            ArityCompatibility::Unknown,
            n,
        ) + count_arity(s, ArityCompatibility::Incompatible, n) == n,
    decreases n,
{
    if n > 0 {
        every_candidate_is_judged(s, n - 1);
    }
}

/// Every candidate is counted under exactly one judgement, and none is counted
/// under a judgement that no candidate has.
pub proof fn every_candidate_is_counted_once(
    s: Seq<ResolvedCallableAnchor>,
    c: ArityCompatibility,
)
    ensures
        count_arity(s, ArityCompatibility::Compatible, s.len() as int) + count_arity(
            s,
            ArityCompatibility::Unknown,
            s.len() as int,
        ) + count_arity(s, ArityCompatibility::Incompatible, s.len() as int) == s.len(),
        count_arity(s, c, s.len() as int) == set_int_range(0, s.len() as int).filter(
            |i: int| s[i].arity_compatibility == c,
        ).len(),
{
    every_candidate_is_judged(s, s.len() as int);
    judged_are_counted(s, c, s.len() as int);
}

proof fn judged_are_counted(s: Seq<ResolvedCallableAnchor>, c: ArityCompatibility, n: int)
    requires
        0 <= n <= s.len(),
    ensures
        count_arity(s, c, n) == set_int_range(0, n).filter(
            |i: int| s[i].arity_compatibility == c,
        ).len(),
    decreases n,
{
    let test = |i: int| s[i].arity_compatibility == c;
    if n > 0 {
        judged_are_counted(s, c, n - 1);
        one_more(test, n - 1);
    } else {
        assert(set_int_range(0, n).filter(test) =~= Set::empty());
    }
}

// ---------------------------------------------------------------------------
// Counterparts

/// The candidates that are linked with candidate `i`.
pub open spec fn linked_with(
    anchors: Seq<ResolvedCallableAnchor>,
    reach: SourceReach,
    i: int,
    n: int,
) -> Set<int> {
    set_int_range(0, n).filter(|k: int| linked(anchors, reach, i, k))
}

proof fn links_are_counted(
    anchors: Seq<ResolvedCallableAnchor>,
    reach: SourceReach,
    i: int,
    n: int,
)
    requires
        0 <= n,
    ensures
        links_below(anchors, reach, i, n) == linked_with(anchors, reach, i, n).len(),
    decreases n,
{
    let test = |k: int| linked(anchors, reach, i, k);
    if n > 0 {
        links_are_counted(anchors, reach, i, n - 1);
        one_more(test, n - 1);
    } else {
        assert(set_int_range(0, n).filter(test) =~= Set::empty());
    }
}

/// Candidate `j` is linked with candidate `i`, and no other is.
pub open spec fn is_only_link(
    anchors: Seq<ResolvedCallableAnchor>,
    reach: SourceReach,
    i: int,
    j: int,
) -> bool {
    forall|k: int| 0 <= k < anchors.len() ==> (#[trigger] linked(anchors, reach, i, k) <==> k == j)
}

proof fn only_link_counts(
    anchors: Seq<ResolvedCallableAnchor>,
    reach: SourceReach,
    i: int,
    j: int,
)
    requires
        0 <= j < anchors.len(),
        is_only_link(anchors, reach, i, j),
    ensures
        links(anchors, reach, i) == 1,
        first_link(anchors, reach, i, 0) == Some(j),
{
    let n = anchors.len() as int;
    let set = linked_with(anchors, reach, i, n);
    links_are_counted(anchors, reach, i, n);
    assert forall|k: int| set.contains(k) <==> Set::<int>::empty().insert(j).contains(k) by {
        if 0 <= k < n {
            assert(linked(anchors, reach, i, k) <==> k == j);
        }
    }
    assert(set =~= Set::<int>::empty().insert(j));
    only_link_is_first(anchors, reach, i, j, 0);
}

proof fn only_link_is_first(
    anchors: Seq<ResolvedCallableAnchor>,
    reach: SourceReach,
    i: int,
    j: int,
    from: int,
)
    requires
        0 <= from <= j < anchors.len(),
        is_only_link(anchors, reach, i, j),
    ensures
        first_link(anchors, reach, i, from) == Some(j),
    decreases j - from,
{
    assert(linked(anchors, reach, i, from) <==> from == j);
    if from < j {
        only_link_is_first(anchors, reach, i, j, from + 1);
    }
}

/// Where the candidate set is complete, a definition and a declaration that
/// are linked with each other alone are shown as a proven pair, whatever other
/// candidates there are.
pub proof fn every_single_pair_is_claimed(
    anchors: Seq<ResolvedCallableAnchor>,
    reach: SourceReach,
    coverage: CandidateCoverage,
    i: int,
    j: int,
)
    requires
        !coverage.truncated,
        coverage.incomplete_reason is None,
        0 <= i < anchors.len(),
        0 <= j < anchors.len(),
        implements(anchors[i], anchors[j], reach),
        is_only_link(anchors, reach, i, j),
        is_only_link(anchors, reach, j, i),
    ensures
        exists|g: int|
            0 <= g < unsorted_groups(anchors, reach, coverage).len() && {
                let group = #[trigger] unsorted_groups(anchors, reach, coverage)[g];
                &&& group.source_definition == Some(anchors[i])
                &&& group.header_declaration == Some(anchors[j])
                &&& group.counterpart_evidence == CounterpartEvidence::StrictOneToOne
            },
{
    let n = anchors.len() as int;
    let plans = plans_below(anchors, reach, n);
    only_link_counts(anchors, reach, i, j);
    only_link_counts(anchors, reach, j, i);
    assert(anchors[i].anchor.role == AnchorRole::Definition);
    assert(anchors[j].anchor.role == AnchorRole::Declaration);
    assert(!implements(anchors[j], anchors[i], reach));
    plans_are_leads(anchors, reach, n);
    let lead = if i <= j {
        i
    } else {
        j
    };
    assert(partner(anchors, reach, i) == Some(j));
    assert(partner(anchors, reach, j) == Some(i));
    let g = choose|g: int| 0 <= g < plans.len() && (#[trigger] plans[g]).lead == lead;
    let group = unsorted_groups(anchors, reach, coverage)[g];
    assert(group == planned_group(anchors, reach, plans[g]));
    assert(group == pair(anchors[i], anchors[j]));
}

/// A candidate that several others are linked with is not paired; how many
/// there are is told.
pub proof fn several_links_are_told(
    anchors: Seq<ResolvedCallableAnchor>,
    reach: SourceReach,
    coverage: CandidateCoverage,
    i: int,
)
    requires
        !coverage.truncated,
        coverage.incomplete_reason is None,
        anchors.len() <= usize::MAX,
        0 <= i < anchors.len(),
        linked_with(anchors, reach, i, anchors.len() as int).len() > 1,
    ensures
        exists|g: int|
            0 <= g < unsorted_groups(anchors, reach, coverage).len() && {
                let group = #[trigger] unsorted_groups(anchors, reach, coverage)[g];
                &&& variants_of(group) == seq![anchors[i]]
                &&& group.counterpart_evidence == (CounterpartEvidence::Ambiguous {
                    candidate_edges: linked_with(
                        anchors,
                        reach,
                        i,
                        anchors.len() as int,
                    ).len() as usize,
                })
            },
{
    let n = anchors.len() as int;
    let plans = plans_below(anchors, reach, n);
    links_are_counted(anchors, reach, i, n);
    plans_are_leads(anchors, reach, n);
    assert(partner(anchors, reach, i) is None);
    let g = choose|g: int| 0 <= g < plans.len() && (#[trigger] plans[g]).lead == i;
    let group = unsorted_groups(anchors, reach, coverage)[g];
    assert(group == planned_group(anchors, reach, plans[g]));
    assert(variants_of(group) =~= seq![anchors[i]]);
}

} // verus!
