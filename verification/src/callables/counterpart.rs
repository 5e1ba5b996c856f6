//! Pairing of header declarations with source definitions.

use vstd::prelude::*;
use vstd::slice::slice_subrange;

use crate::call_model::{
    AnchorRole, CallableKind, LinkageDomain, OwnerKindHint, SignatureFidelity,
};
use crate::callables::{
    CallableVariantGroup, CandidateCoverage, Group, ResolvedCallableAnchor,
};
use crate::chars::{chars_lower, chars_of, is_word, lower_chars, same_text};
use crate::model::ScopeTier;
use crate::order::{
    is_text_before, sort_stable, stable_sort, stable_sort_maps, text_before, Order, Ordered,
};
use crate::reach::SourceReach;

verus! {

#[derive(Debug, Clone, Copy, PartialEq, Eq, Hash, Structural)]
pub enum CounterpartEvidence {
    Unpaired,
    IncompleteCoverage,
    Ambiguous { candidate_edges: usize },
    StrictOneToOne,
}

// ---------------------------------------------------------------------------
// Paths

/// Position after the last dot before `end`, if there is one.
pub open spec fn after_last_dot(s: Seq<char>, end: int) -> Option<int>
    decreases end,
{
    if end <= 0 || end > s.len() {
        None
    } else if s[end - 1] == '.' {
        Some(end)
    } else {
        after_last_dot(s, end - 1)
    }
}

/// What follows the last dot of a path.
pub open spec fn extension_of(path: Seq<char>) -> Option<Seq<char>> {
    match after_last_dot(path, path.len() as int) {
        Some(i) => Some(path.subrange(i, path.len() as int)),
        None => None,
    }
}

pub open spec fn header_extension(e: Seq<char>) -> bool {
    e == "h"@ || e == "hh"@ || e == "hpp"@ || e == "hxx"@ || e == "inl"@
}

pub open spec fn source_extension(e: Seq<char>) -> bool {
    e == "c"@ || e == "cc"@ || e == "cpp"@ || e == "cxx"@
}

/// A header by its extension, whatever its case.
pub open spec fn header_path(path: Seq<char>) -> bool {
    match extension_of(path) {
        Some(e) => header_extension(chars_lower(e)),
        None => false,
    }
}

/// A source file by its extension, whatever its case.
pub open spec fn source_path(path: Seq<char>) -> bool {
    match extension_of(path) {
        Some(e) => source_extension(chars_lower(e)),
        None => false,
    }
}

fn lowered_extension(path: &str) -> (r: Option<Vec<char>>)
    ensures
        match r {
            Some(e) => extension_of(path@) is Some && e@ == chars_lower(extension_of(path@)->0),
            None => extension_of(path@) is None,
        },
{
    let chars = chars_of(path);
    let mut end: usize = chars.len();
    while end > 0
        invariant
            end <= chars@.len(),
            chars@ == path@,
            after_last_dot(path@, path@.len() as int) == after_last_dot(path@, end as int),
        decreases end,
    {
        if chars[end - 1] == '.' {
            return Some(lower_chars(slice_subrange(chars.as_slice(), end, chars.len())));
        }
        end = end - 1;
    }
    None
}

pub fn is_header_path(path: &str) -> (r: bool)
    ensures
        r == header_path(path@),
{
    match lowered_extension(path) {
        Some(e) => is_word(&e, "h") || is_word(&e, "hh") || is_word(&e, "hpp") || is_word(&e, "hxx")
            || is_word(&e, "inl"),
        None => false,
    }
}

pub fn is_source_path(path: &str) -> (r: bool)
    ensures
        r == source_path(path@),
{
    match lowered_extension(path) {
        Some(e) => is_word(&e, "c") || is_word(&e, "cc") || is_word(&e, "cpp") || is_word(
            &e,
            "cxx",
        ),
        None => false,
    }
}

// ---------------------------------------------------------------------------
// Edges

/// A definition in a source file.
pub open spec fn source_definition(a: ResolvedCallableAnchor) -> bool {
    a.anchor.role == AnchorRole::Definition && source_path(a.anchor.path@)
}

/// A declaration in a header.
pub open spec fn header_declaration(a: ResolvedCallableAnchor) -> bool {
    a.anchor.role == AnchorRole::Declaration && header_path(a.anchor.path@)
}

pub open spec fn free_function(a: ResolvedCallableAnchor) -> bool {
    a.anchor.owner_kind is None || a.anchor.owner_kind == Some(OwnerKindHint::Namespace)
}

/// Both are external free functions with one name and one exact signature.
pub open spec fn same_identity(s: ResolvedCallableAnchor, h: ResolvedCallableAnchor) -> bool {
    &&& s.anchor.name@ == h.anchor.name@
    &&& s.anchor.kind == h.anchor.kind
    &&& s.anchor.kind == CallableKind::Function
    &&& free_function(s)
    &&& free_function(h)
    &&& s.anchor.qualified_name@ == h.anchor.qualified_name@
    &&& s.anchor.canonical_signature@.len() > 0
    &&& s.anchor.canonical_signature@ == h.anchor.canonical_signature@
    &&& s.anchor.signature_fidelity == SignatureFidelity::AstExact
    &&& h.anchor.signature_fidelity == SignatureFidelity::AstExact
    &&& s.anchor.linkage is External
    &&& h.anchor.linkage is External
}

/// Definition `s` in a source file implements declaration `h` of a header
/// that the source file reaches.
pub open spec fn implements(
    s: ResolvedCallableAnchor,
    h: ResolvedCallableAnchor,
    reach: SourceReach,
) -> bool {
    source_definition(s) && header_declaration(h) && same_identity(s, h) && reach.spec_reaches(
        s.anchor.path@,
        h.anchor.path@,
    )
}

/// One of the two implements the other.
pub open spec fn linked(
    anchors: Seq<ResolvedCallableAnchor>,
    reach: SourceReach,
    i: int,
    j: int,
) -> bool {
    implements(anchors[i], anchors[j], reach) || implements(anchors[j], anchors[i], reach)
}

/// Number of the first `n` candidates linked with candidate `i`.
pub open spec fn links_below(
    anchors: Seq<ResolvedCallableAnchor>,
    reach: SourceReach,
    i: int,
    n: int,
) -> nat
    decreases n,
{
    if n <= 0 {
        0
    } else {
        links_below(anchors, reach, i, n - 1) + if linked(anchors, reach, i, n - 1) {
            1nat
        } else {
            0nat
        }
    }
}

pub open spec fn links(
    anchors: Seq<ResolvedCallableAnchor>,
    reach: SourceReach,
    i: int,
) -> nat {
    links_below(anchors, reach, i, anchors.len() as int)
}

/// Some candidate linked with candidate `i`, the first at or after `from`.
pub open spec fn first_link(
    anchors: Seq<ResolvedCallableAnchor>,
    reach: SourceReach,
    i: int,
    from: int,
) -> Option<int>
    decreases anchors.len() - from,
{
    if from < 0 || from >= anchors.len() {
        None
    } else if linked(anchors, reach, i, from) {
        Some(from)
    } else {
        first_link(anchors, reach, i, from + 1)
    }
}

/// The counterpart of candidate `i`: each is the only one linked with the
/// other.
pub open spec fn partner(
    anchors: Seq<ResolvedCallableAnchor>,
    reach: SourceReach,
    i: int,
) -> Option<int> {
    if links(anchors, reach, i) != 1 {
        None
    } else {
        match first_link(anchors, reach, i, 0) {
            Some(j) => if links(anchors, reach, j) == 1 {
                Some(j)
            } else {
                None
            },
            None => None,
        }
    }
}

// ---------------------------------------------------------------------------
// Groups

/// A group to be: a candidate, alone or with its counterpart.
pub struct Plan {
    pub lead: int,
    pub other: Option<int>,
}

/// The groups led by the first `n` candidates. The earlier of two
/// counterparts leads.
pub open spec fn plans_below(
    anchors: Seq<ResolvedCallableAnchor>,
    reach: SourceReach,
    n: int,
) -> Seq<Plan>
    decreases n,
{
    if n <= 0 {
        Seq::empty()
    } else {
        let before = plans_below(anchors, reach, n - 1);
        match partner(anchors, reach, n - 1) {
            Some(j) => if j < n - 1 {
                before
            } else {
                before.push(Plan { lead: n - 1, other: Some(j) })
            },
            None => before.push(Plan { lead: n - 1, other: None }),
        }
    }
}

pub open spec fn pair(source: ResolvedCallableAnchor, header: ResolvedCallableAnchor) -> Group {
    Group {
        header_declaration: Some(header),
        source_definition: Some(source),
        other_variants: Seq::empty(),
        group_tier: if source.candidate.tier.spec_rank() >= header.candidate.tier.spec_rank() {
            source.candidate.tier
        } else {
            header.candidate.tier
        },
        counterpart_evidence: CounterpartEvidence::StrictOneToOne,
    }
}

pub open spec fn singleton(a: ResolvedCallableAnchor, evidence: CounterpartEvidence) -> Group {
    Group {
        header_declaration: if header_declaration(a) {
            Some(a)
        } else {
            None
        },
        source_definition: if !header_declaration(a) && source_definition(a) {
            Some(a)
        } else {
            None
        },
        other_variants: if header_declaration(a) || source_definition(a) {
            Seq::empty()
        } else {
            seq![a]
        },
        group_tier: a.candidate.tier,
        counterpart_evidence: evidence,
    }
}

/// The group that a plan makes.
pub open spec fn planned_group(
    anchors: Seq<ResolvedCallableAnchor>,
    reach: SourceReach,
    plan: Plan,
) -> Group {
    match plan.other {
        Some(j) => if implements(anchors[plan.lead], anchors[j], reach) {
            pair(anchors[plan.lead], anchors[j])
        } else {
            pair(anchors[j], anchors[plan.lead])
        },
        None => singleton(
            anchors[plan.lead],
            if links(anchors, reach, plan.lead) == 0 {
                CounterpartEvidence::Unpaired
            } else {
                CounterpartEvidence::Ambiguous {
                    candidate_edges: links(anchors, reach, plan.lead) as usize,
                }
            },
        ),
    }
}

/// All groups, before they are sorted. An incomplete candidate set pairs
/// nothing.
pub open spec fn unsorted_groups(
    anchors: Seq<ResolvedCallableAnchor>,
    reach: SourceReach,
    coverage: CandidateCoverage,
) -> Seq<Group> {
    if coverage.truncated || coverage.incomplete_reason is Some {
        Seq::new(
            anchors.len(),
            |i: int| singleton(anchors[i], CounterpartEvidence::IncompleteCoverage),
        )
    } else {
        let plans = plans_below(anchors, reach, anchors.len() as int);
        Seq::new(plans.len(), |k: int| planned_group(anchors, reach, plans[k]))
    }
}

/// The candidate that stands for a group.
pub open spec fn face(g: Group) -> Option<ResolvedCallableAnchor> {
    if g.header_declaration is Some {
        g.header_declaration
    } else if g.source_definition is Some {
        g.source_definition
    } else if g.other_variants.len() > 0 {
        Some(g.other_variants[0])
    } else {
        None
    }
}

pub open spec fn face_path(g: Group) -> Seq<char> {
    match face(g) {
        Some(a) => a.anchor.path@,
        None => ""@,
    }
}

pub open spec fn face_start(g: Group) -> int {
    match face(g) {
        Some(a) => a.anchor.name_range.start_byte as int,
        None => 0,
    }
}

/// Groups by tier, strongest first, then by the path and place of the
/// candidate that stands for them.
pub struct GroupOrder;

impl Order<Group> for GroupOrder {
    open spec fn before(a: Group, b: Group) -> bool {
        if a.group_tier.spec_rank() != b.group_tier.spec_rank() {
            a.group_tier.spec_rank() > b.group_tier.spec_rank()
        } else if face_path(a) != face_path(b) {
            text_before(face_path(a), face_path(b))
        } else {
            face_start(a) < face_start(b)
        }
    }
}

impl Order<CallableVariantGroup> for GroupOrder {
    open spec fn before(a: CallableVariantGroup, b: CallableVariantGroup) -> bool {
        <GroupOrder as Order<Group>>::before(a@, b@)
    }
}

impl Ordered<CallableVariantGroup> for GroupOrder {
    fn is_before(a: &CallableVariantGroup, b: &CallableVariantGroup) -> (r: bool) {
        let (path_a, start_a) = group_stable_key(a);
        let (path_b, start_b) = group_stable_key(b);
        if a.group_tier.rank() != b.group_tier.rank() {
            a.group_tier.rank() > b.group_tier.rank()
        } else if !same_text(path_a, path_b) {
            is_text_before(path_a, path_b)
        } else {
            start_a < start_b
        }
    }
}

fn group_stable_key(group: &CallableVariantGroup) -> (r: (&str, usize))
    ensures
        r.0@ == face_path(group@),
        r.1 == face_start(group@),
{
    let chosen: Option<&ResolvedCallableAnchor> = match &group.header_declaration {
        Some(a) => Some(a),
        None => match &group.source_definition {
            Some(a) => Some(a),
            None => if group.other_variants.len() > 0 {
                Some(&group.other_variants[0])
            } else {
                None
            },
        },
    };
    match chosen {
        Some(a) => (a.anchor.path.as_str(), a.anchor.name_range.start_byte),
        None => ("", 0),
    }
}

pub open spec fn group_views(s: Seq<CallableVariantGroup>) -> Seq<Group> {
    s.map_values(|g: CallableVariantGroup| g@)
}

fn is_free_function(a: &ResolvedCallableAnchor) -> (r: bool)
    ensures
        r == free_function(*a),
{
    match a.anchor.owner_kind {
        None => true,
        Some(OwnerKindHint::Namespace) => true,
        _ => false,
    }
}

fn is_source_definition(a: &ResolvedCallableAnchor) -> (r: bool)
    ensures
        r == source_definition(*a),
{
    a.anchor.role == AnchorRole::Definition && is_source_path(a.anchor.path.as_str())
}

fn is_header_declaration(a: &ResolvedCallableAnchor) -> (r: bool)
    ensures
        r == header_declaration(*a),
{
    a.anchor.role == AnchorRole::Declaration && is_header_path(a.anchor.path.as_str())
}

fn is_external(linkage: &LinkageDomain) -> (r: bool)
    ensures
        r == (linkage is External),
{
    match linkage {
        LinkageDomain::External => true,
        _ => false,
    }
}

fn strict_identity_compatible(source: &ResolvedCallableAnchor, header: &ResolvedCallableAnchor) -> (r:
    bool)
    ensures
        r == same_identity(*source, *header),
{
    same_text(source.anchor.name.as_str(), header.anchor.name.as_str()) && source.anchor.kind
        == header.anchor.kind && source.anchor.kind == CallableKind::Function && is_free_function(
        source,
    ) && is_free_function(header) && same_text(
        source.anchor.qualified_name.as_str(),
        header.anchor.qualified_name.as_str(),
    ) && !source.canonical_signature().is_empty() && same_text(
        source.canonical_signature(),
        header.canonical_signature(),
    ) && source.anchor.signature_fidelity == SignatureFidelity::AstExact
        && header.anchor.signature_fidelity == SignatureFidelity::AstExact && is_external(
        &source.anchor.linkage,
    ) && is_external(&header.anchor.linkage)
}

fn strict_edge(
    source: &ResolvedCallableAnchor,
    header: &ResolvedCallableAnchor,
    source_reach: &SourceReach,
) -> (r: bool)
    ensures
        r == implements(*source, *header, *source_reach),
{
    is_source_definition(source) && is_header_declaration(header) && strict_identity_compatible(
        source,
        header,
    ) && source_reach.reaches(source.anchor.path.as_str(), header.anchor.path.as_str())
}

/// The number of candidates linked with candidate `i`, and the first of them.
fn links_of(anchors: &[ResolvedCallableAnchor], reach: &SourceReach, i: usize) -> (r: (
    usize,
    Option<usize>,
))
    requires
        i < anchors@.len(),
    ensures
        r.0 == links(anchors@, *reach, i as int),
        match r.1 {
            Some(j) => first_link(anchors@, *reach, i as int, 0) == Some(j as int) && j
                < anchors@.len(),
            None => first_link(anchors@, *reach, i as int, 0) is None,
        },
{
    let mut count: usize = 0;
    let mut first: Option<usize> = None;
    let mut j: usize = 0;
    while j < anchors.len()
        invariant
            i < anchors@.len(),
            j <= anchors@.len(),
            count <= j,
            count == links_below(anchors@, *reach, i as int, j as int),
            match first {
                Some(k) => first_link(anchors@, *reach, i as int, 0) == Some(k as int) && k
                    < anchors@.len(),
                None => first_link(anchors@, *reach, i as int, 0) == first_link(
                    anchors@,
                    *reach,
                    i as int,
                    j as int,
                ),
            },
        decreases anchors@.len() - j,
    {
        if strict_edge(&anchors[i], &anchors[j], reach) || strict_edge(
            &anchors[j],
            &anchors[i],
            reach,
        ) {
            count = count + 1;
            if first.is_none() {
                first = Some(j);
            }
        }
        j = j + 1;
    }
    (count, first)
}

fn pair_group(source: ResolvedCallableAnchor, header: ResolvedCallableAnchor) -> (r:
    CallableVariantGroup)
    ensures
        r@ == pair(source, header),
{
    let group_tier = stronger_tier(source.candidate.tier, header.candidate.tier);
    let r = CallableVariantGroup {
        group_tier,
        header_declaration: Some(header),
        source_definition: Some(source),
        other_variants: Vec::new(),
        counterpart_evidence: CounterpartEvidence::StrictOneToOne,
    };
    assert(r@.other_variants =~= pair(source, header).other_variants);
    r
}

fn singleton_group(
    anchor: ResolvedCallableAnchor,
    counterpart_evidence: CounterpartEvidence,
) -> (r: CallableVariantGroup)
    ensures
        r@ == singleton(anchor, counterpart_evidence),
{
    let ghost a = anchor;
    let tier = anchor.candidate.tier;
    let r = if is_header_declaration(&anchor) {
        CallableVariantGroup {
            header_declaration: Some(anchor),
            source_definition: None,
            other_variants: Vec::new(),
            group_tier: tier,
            counterpart_evidence,
        }
    } else if is_source_definition(&anchor) {
        CallableVariantGroup {
            header_declaration: None,
            source_definition: Some(anchor),
            other_variants: Vec::new(),
            group_tier: tier,
            counterpart_evidence,
        }
    } else {
        let mut other_variants = Vec::new();
        other_variants.push(anchor);
        CallableVariantGroup {
            header_declaration: None,
            source_definition: None,
            other_variants,
            group_tier: tier,
            counterpart_evidence,
        }
    };
    assert(r@.other_variants =~= singleton(a, counterpart_evidence).other_variants);
    r
}

fn stronger_tier(left: ScopeTier, right: ScopeTier) -> (r: ScopeTier)
    ensures
        r == (if left.spec_rank() >= right.spec_rank() {
            left
        } else {
            right
        }),
{
    if left.rank() >= right.rank() {
        left
    } else {
        right
    }
}

fn sort_groups(groups: &mut Vec<CallableVariantGroup>)
    ensures
        group_views(final(groups)@) == stable_sort::<Group, GroupOrder>(group_views(old(groups)@)),
{
    proof {
        stable_sort_maps::<CallableVariantGroup, Group, GroupOrder, GroupOrder>(
            groups@,
            |g: CallableVariantGroup| g@,
        );
    }
    sort_stable::<CallableVariantGroup, GroupOrder>(groups);
}

/// Group candidates: a header declaration and a source definition that are
/// each other's only strict counterpart share a group, every other candidate
/// is alone. Groups come strongest tier first.
pub fn resolve_counterparts(
    anchors: &[ResolvedCallableAnchor],
    source_reach: &SourceReach,
    coverage: &CandidateCoverage,
) -> (r: Vec<CallableVariantGroup>)
    ensures
        coverage.truncated || coverage.incomplete_reason is Some ==> group_views(r@)
            == unsorted_groups(anchors@, *source_reach, *coverage),
        !coverage.truncated && coverage.incomplete_reason is None ==> group_views(r@)
            == stable_sort::<Group, GroupOrder>(
            unsorted_groups(anchors@, *source_reach, *coverage),
        ),
{
    let ghost unsorted = unsorted_groups(anchors@, *source_reach, *coverage);
    let mut groups: Vec<CallableVariantGroup> = Vec::new();
    let mut i: usize = 0;
    if coverage.truncated || coverage.incomplete_reason.is_some() {
        while i < anchors.len()
            invariant
                i <= anchors@.len(),
                unsorted.len() == anchors@.len(),
                forall|k: int|
                    0 <= k < anchors@.len() ==> unsorted[k] == singleton(
                        anchors@[k],
                        CounterpartEvidence::IncompleteCoverage,
                    ),
                group_views(groups@) == unsorted.subrange(0, i as int),
            decreases anchors@.len() - i,
        {
            let ghost before = groups@;
            groups.push(
                singleton_group(anchors[i].clone(), CounterpartEvidence::IncompleteCoverage),
            );
            i = i + 1;
            assert(group_views(groups@) =~= unsorted.subrange(0, i as int)) by {
                assert(group_views(groups@) =~= group_views(before).push(unsorted[i - 1]));
            }
        }
        assert(unsorted.subrange(0, i as int) =~= unsorted);
        return groups;
    }
    assert(group_views(groups@) =~= Seq::<Group>::empty());
    while i < anchors.len()
        invariant
            i <= anchors@.len(),
            group_views(groups@) == Seq::new(
                plans_below(anchors@, *source_reach, i as int).len(),
                |k: int|
                    planned_group(
                        anchors@,
                        *source_reach,
                        plans_below(anchors@, *source_reach, i as int)[k],
                    ),
            ),
        decreases anchors@.len() - i,
    {
        let ghost before = groups@;
        let ghost plans = plans_below(anchors@, *source_reach, i as int);
        let (degree, first) = links_of(anchors, source_reach, i);
        let counterpart: Option<usize> = if degree != 1 {
            None
        } else {
            match first {
                Some(j) => {
                    let (back, _) = links_of(anchors, source_reach, j);
                    if back == 1 {
                        Some(j)
                    } else {
                        None
                    }
                },
                None => None,
            }
        };
        match counterpart {
            Some(j) => {
                if j >= i {
                    if strict_edge(&anchors[i], &anchors[j], source_reach) {
                        groups.push(pair_group(anchors[i].clone(), anchors[j].clone()));
                    } else {
                        groups.push(pair_group(anchors[j].clone(), anchors[i].clone()));
                    }
                }
            },
            None => {
                let evidence = if degree == 0 {
                    CounterpartEvidence::Unpaired
                } else {
                    CounterpartEvidence::Ambiguous { candidate_edges: degree }
                };
                groups.push(singleton_group(anchors[i].clone(), evidence));
            },
        }
        i = i + 1;
        proof {
            let now = plans_below(anchors@, *source_reach, i as int);
            let want = Seq::new(
                now.len(),
                |k: int| planned_group(anchors@, *source_reach, now[k]),
            );
            if groups@.len() > before.len() {
                assert(group_views(groups@) =~= group_views(before).push(
                    planned_group(anchors@, *source_reach, now.last()),
                ));
                assert(now =~= plans.push(now.last()));
            }
            assert(group_views(groups@) =~= want);
        }
    }
    assert(group_views(groups@) =~= unsorted);
    sort_groups(&mut groups);
    groups
}

// ---------------------------------------------------------------------------
// Laws

proof fn links_found(
    anchors: Seq<ResolvedCallableAnchor>,
    reach: SourceReach,
    i: int,
    j: int,
    n: int,
)
    requires
        0 <= j < n <= anchors.len(),
        linked(anchors, reach, i, j),
    ensures
        links_below(anchors, reach, i, n) >= 1,
        links_below(anchors, reach, i, n) == 1 ==> forall|k: int|
            0 <= k < n && linked(anchors, reach, i, k) ==> k == j,
    decreases n,
{
    if j < n - 1 {
        links_found(anchors, reach, i, j, n - 1);
    } else {
        if links_below(anchors, reach, i, n) == 1 {
            assert forall|k: int| 0 <= k < n && linked(anchors, reach, i, k) implies k == j by {
                if k < n - 1 {
                    links_found(anchors, reach, i, k, n - 1);
                }
            }
        }
    }
}

proof fn first_link_is_linked(
    anchors: Seq<ResolvedCallableAnchor>,
    reach: SourceReach,
    i: int,
    from: int,
)
    requires
        0 <= from,
    ensures
        match first_link(anchors, reach, i, from) {
            Some(j) => from <= j < anchors.len() && linked(anchors, reach, i, j),
            None => forall|j: int| from <= j < anchors.len() ==> !linked(anchors, reach, i, j),
        },
    decreases anchors.len() - from,
{
    if from < anchors.len() && !linked(anchors, reach, i, from) {
        first_link_is_linked(anchors, reach, i, from + 1);
    }
}

/// Counterparts are mutual, and one of the two implements the other.
pub proof fn partner_is_mutual(
    anchors: Seq<ResolvedCallableAnchor>,
    reach: SourceReach,
    i: int,
)
    requires
        0 <= i < anchors.len(),
        partner(anchors, reach, i) is Some,
    ensures
        0 <= partner(anchors, reach, i)->0 < anchors.len(),
        partner(anchors, reach, i)->0 != i,
        linked(anchors, reach, i, partner(anchors, reach, i)->0),
        partner(anchors, reach, partner(anchors, reach, i)->0) == Some(i),
{
    let j = partner(anchors, reach, i)->0;
    first_link_is_linked(anchors, reach, i, 0);
    first_link_is_linked(anchors, reach, j, 0);
    assert(linked(anchors, reach, j, i));
    links_found(anchors, reach, j, i, anchors.len() as int);
}

/// Where candidate `i` is planned.
pub open spec fn mentions(plan: Plan, i: int) -> bool {
    plan.lead == i || plan.other == Some(i)
}

/// Each plan is led by the earlier of its candidates, and each candidate that
/// may lead does so once.
pub proof fn plans_are_leads(anchors: Seq<ResolvedCallableAnchor>, reach: SourceReach, n: int)
    requires
        0 <= n <= anchors.len(),
    ensures
        ({
            let plans = plans_below(anchors, reach, n);
            &&& forall|k: int|
                #![trigger plans[k]]
                0 <= k < plans.len() ==> 0 <= plans[k].lead < n && plans[k].other == partner(
                    anchors,
                    reach,
                    plans[k].lead,
                ) && (plans[k].other is Some ==> plans[k].lead <= plans[k].other->0)
            &&& forall|k: int, m: int| 0 <= k < m < plans.len() ==> plans[k].lead < plans[m].lead
            &&& forall|i: int|
                0 <= i < n && (partner(anchors, reach, i) is None || i <= partner(
                    anchors,
                    reach,
                    i,
                )->0) ==> exists|k: int| 0 <= k < plans.len() && (#[trigger] plans[k]).lead == i
        }),
    decreases n,
{
    if n > 0 {
        plans_are_leads(anchors, reach, n - 1);
        let before = plans_below(anchors, reach, n - 1);
        let plans = plans_below(anchors, reach, n);
        assert forall|i: int|
            0 <= i < n && (partner(anchors, reach, i) is None || i <= partner(
                anchors,
                reach,
                i,
            )->0) implies exists|k: int| 0 <= k < plans.len() && (#[trigger] plans[k]).lead == i by {
            if i == n - 1 {
                assert(plans[plans.len() - 1].lead == i);
            } else {
                let k = choose|k: int| 0 <= k < before.len() && (#[trigger] before[k]).lead == i;
                assert(plans[k] == before[k]);
            }
        }
    }
}

/// With a complete candidate set every candidate is in exactly one group.
pub proof fn every_candidate_is_grouped_once(
    anchors: Seq<ResolvedCallableAnchor>,
    reach: SourceReach,
    i: int,
)
    requires
        0 <= i < anchors.len(),
    ensures
        ({
            let plans = plans_below(anchors, reach, anchors.len() as int);
            &&& exists|k: int| 0 <= k < plans.len() && mentions(#[trigger] plans[k], i)
            &&& forall|k: int, m: int|
                0 <= k < plans.len() && 0 <= m < plans.len() && mentions(#[trigger] plans[k], i)
                    && mentions(#[trigger] plans[m], i) ==> k == m
        }),
{
    let n = anchors.len() as int;
    let plans = plans_below(anchors, reach, n);
    plans_are_leads(anchors, reach, n);
    let lead = match partner(anchors, reach, i) {
        Some(j) => if j < i {
            j
        } else {
            i
        },
        None => i,
    };
    if partner(anchors, reach, i) is Some {
        partner_is_mutual(anchors, reach, i);
    }
    let k = choose|k: int| 0 <= k < plans.len() && (#[trigger] plans[k]).lead == lead;
    assert(mentions(plans[k], i));
    assert forall|m: int| 0 <= m < plans.len() && mentions(#[trigger] plans[m], i) implies m
        == k by {
        if plans[m].lead != i {
            partner_is_mutual(anchors, reach, plans[m].lead);
        }
        assert(plans[m].lead == lead);
    }
}

} // verus!
