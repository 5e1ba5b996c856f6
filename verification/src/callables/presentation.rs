//! Which candidates each feature shows, and in what order.

use vstd::prelude::*;

use crate::call_model::AnchorRole;
use crate::callables::arity::ArityCompatibility;
use crate::callables::counterpart::{
    face, header_path, is_header_path, is_source_path, source_path, CounterpartEvidence,
};
use crate::callables::{strongest, variants_of, CallableVariantGroup, ResolvedCallableAnchor};
use crate::chars::same_text;
use crate::lists::{kept, retain, targets, Keep};
use crate::order::{
    is_text_before, sort_stable, stable_sort, text_before, Order,
    Ordered,
};

verus! {

/// A candidate with the group it comes from.
#[derive(Debug, Clone, Copy)]
pub struct Picked<'a> {
    pub group: &'a CallableVariantGroup,
    pub anchor: &'a ResolvedCallableAnchor,
}

/// The candidates of a selection.
pub open spec fn anchors_of(s: Seq<Picked>) -> Seq<ResolvedCallableAnchor> {
    Seq::new(s.len(), |i: int| *s[i].anchor)
}

// ---------------------------------------------------------------------------
// Selections

/// The candidate that stands for each of the first `n` groups.
pub open spec fn faces_below<'a>(groups: Seq<CallableVariantGroup>, n: int) -> Seq<Picked<'a>>
    decreases n,
{
    if n <= 0 {
        Seq::empty()
    } else {
        match face(groups[n - 1]@) {
            Some(a) => faces_below(groups, n - 1).push(
                Picked { group: &groups[n - 1], anchor: &a },
            ),
            None => faces_below(groups, n - 1),
        }
    }
}

pub open spec fn faces<'a>(groups: Seq<CallableVariantGroup>) -> Seq<Picked<'a>> {
    faces_below(groups, groups.len() as int)
}

pub open spec fn picks_of<'a>(group: CallableVariantGroup) -> Seq<Picked<'a>> {
    Seq::new(
        variants_of(group@).len(),
        |k: int| Picked { group: &group, anchor: &variants_of(group@)[k] },
    )
}

/// All candidates of the first `n` groups.
pub open spec fn members_below<'a>(groups: Seq<CallableVariantGroup>, n: int) -> Seq<Picked<'a>>
    decreases n,
{
    if n <= 0 {
        Seq::empty()
    } else {
        members_below(groups, n - 1) + picks_of(groups[n - 1])
    }
}

pub open spec fn members<'a>(groups: Seq<CallableVariantGroup>) -> Seq<Picked<'a>> {
    members_below(groups, groups.len() as int)
}

/// Candidates of one role.
pub struct OfRole {
    pub role: AnchorRole,
}

impl<'a> Keep<Picked<'a>> for OfRole {
    open spec fn keeps(&self, x: Picked<'a>) -> bool {
        x.anchor.anchor.role == self.role
    }

    fn keep(&self, x: &Picked<'a>) -> (r: bool) {
        x.anchor.anchor.role == self.role
    }
}

/// Candidates of strict counterpart pairs.
pub struct OfStrictPair;

impl<'a> Keep<Picked<'a>> for OfStrictPair {
    open spec fn keeps(&self, x: Picked<'a>) -> bool {
        x.group.counterpart_evidence == CounterpartEvidence::StrictOneToOne
    }

    fn keep(&self, x: &Picked<'a>) -> (r: bool) {
        x.group.counterpart_evidence == CounterpartEvidence::StrictOneToOne
    }
}

/// Header candidates of strict counterpart pairs.
pub struct StrictHeader;

impl<'a> Keep<Picked<'a>> for StrictHeader {
    open spec fn keeps(&self, x: Picked<'a>) -> bool {
        x.group.counterpart_evidence == CounterpartEvidence::StrictOneToOne && header_path(
            x.anchor.anchor.path@,
        )
    }

    fn keep(&self, x: &Picked<'a>) -> (r: bool) {
        x.group.counterpart_evidence == CounterpartEvidence::StrictOneToOne && is_header_path(
            x.anchor.anchor.path.as_str(),
        )
    }
}

/// Candidates whose group has one tier rank.
pub struct GroupRankIs {
    pub rank: i32,
}

impl<'a> Keep<Picked<'a>> for GroupRankIs {
    open spec fn keeps(&self, x: Picked<'a>) -> bool {
        x.group.group_tier.spec_rank() == self.rank
    }

    fn keep(&self, x: &Picked<'a>) -> (r: bool) {
        x.group.group_tier.rank() == self.rank
    }
}

/// Candidates that have one tier rank themselves.
pub struct CandidateRankIs {
    pub rank: i32,
}

impl<'a> Keep<Picked<'a>> for CandidateRankIs {
    open spec fn keeps(&self, x: Picked<'a>) -> bool {
        x.anchor.candidate.tier.spec_rank() == self.rank
    }

    fn keep(&self, x: &Picked<'a>) -> (r: bool) {
        x.anchor.candidate.tier.rank() == self.rank
    }
}

/// Declarations that a use at `cursor` in `path` can see: those of other
/// files, and those of its own file that do not come later.
pub struct VisibleFrom<'b> {
    pub origin: Option<(&'b str, usize)>,
}

impl<'a, 'b> Keep<Picked<'a>> for VisibleFrom<'b> {
    open spec fn keeps(&self, x: Picked<'a>) -> bool {
        match self.origin {
            Some((path, cursor)) => x.anchor.anchor.path@ != path@
                || x.anchor.anchor.name_range.start_byte <= cursor,
            None => true,
        }
    }

    fn keep(&self, x: &Picked<'a>) -> (r: bool) {
        match self.origin {
            Some((path, cursor)) => !same_text(x.anchor.anchor.path.as_str(), path)
                || x.anchor.anchor.name_range.start_byte <= cursor,
            None => true,
        }
    }
}

/// Highest group tier rank among the first `n`.
pub open spec fn top_group_rank(s: Seq<Picked>, n: int) -> int
    decreases n,
{
    if n <= 0 {
        0
    } else {
        let rest = top_group_rank(s, n - 1);
        let rank = s[n - 1].group.group_tier.spec_rank();
        if rank > rest {
            rank
        } else {
            rest
        }
    }
}

/// Highest candidate tier rank among the first `n`.
pub open spec fn top_candidate_rank(s: Seq<Picked>, n: int) -> int
    decreases n,
{
    if n <= 0 {
        0
    } else {
        let rest = top_candidate_rank(s, n - 1);
        let rank = s[n - 1].anchor.candidate.tier.spec_rank();
        if rank > rest {
            rank
        } else {
            rest
        }
    }
}

pub open spec fn of_top_group_tier<'a>(s: Seq<Picked<'a>>) -> Seq<Picked<'a>> {
    kept(s, GroupRankIs { rank: top_group_rank(s, s.len() as int) as i32 })
}

pub open spec fn of_top_candidate_tier<'a>(s: Seq<Picked<'a>>) -> Seq<Picked<'a>> {
    kept(s, CandidateRankIs { rank: top_candidate_rank(s, s.len() as int) as i32 })
}

fn retain_strongest_group_tier<'a>(selected: &mut Vec<Picked<'a>>)
    ensures
        final(selected)@ == of_top_group_tier(old(selected)@),
{
    let mut best: i32 = 0;
    let mut i: usize = 0;
    while i < selected.len()
        invariant
            i <= selected@.len(),
            0 <= best <= 4,
            best == top_group_rank(selected@, i as int),
        decreases selected@.len() - i,
    {
        let rank: i32 = selected[i].group.group_tier.rank();
        if rank > best {
            best = rank;
        }
        i = i + 1;
    }
    retain(selected, &GroupRankIs { rank: best });
}

fn retain_strongest_candidate_tier<'a>(selected: &mut Vec<Picked<'a>>)
    ensures
        final(selected)@ == of_top_candidate_tier(old(selected)@),
{
    let mut best: i32 = 0;
    let mut i: usize = 0;
    while i < selected.len()
        invariant
            i <= selected@.len(),
            0 <= best <= 4,
            best == top_candidate_rank(selected@, i as int),
        decreases selected@.len() - i,
    {
        let rank: i32 = selected[i].anchor.candidate.tier.rank();
        if rank > best {
            best = rank;
        }
        i = i + 1;
    }
    retain(selected, &CandidateRankIs { rank: best });
}

fn pick_faces<'a>(groups: &'a [CallableVariantGroup]) -> (r: Vec<Picked<'a>>)
    ensures
        r@ == faces(groups@),
{
    let mut out: Vec<Picked<'a>> = Vec::new();
    let mut i: usize = 0;
    while i < groups.len()
        invariant
            i <= groups@.len(),
            out@ == faces_below(groups@, i as int),
        decreases groups@.len() - i,
    {
        let group = &groups[i];
        let chosen: Option<&'a ResolvedCallableAnchor> = match &group.header_declaration {
            Some(a) => Some(a),
            None => match &group.source_definition {
                Some(a) => Some(a),
                None => if group.other_variants.len() > 0 {
                    Some(&group.other_variants[0])
                } else {
                    None
                },
            },
        };
        match chosen {
            Some(anchor) => {
                out.push(Picked { group, anchor });
            },
            None => {},
        }
        i = i + 1;
    }
    out
}

fn pick_members<'a>(groups: &'a [CallableVariantGroup]) -> (r: Vec<Picked<'a>>)
    ensures
        r@ == members(groups@),
{
    let mut out: Vec<Picked<'a>> = Vec::new();
    let mut i: usize = 0;
    while i < groups.len()
        invariant
            i <= groups@.len(),
            out@ == members_below(groups@, i as int),
        decreases groups@.len() - i,
    {
        let group = &groups[i];
        let all = group.variants();
        let ghost before = out@;
        let ghost picks = picks_of(*group);
        let mut k: usize = 0;
        while k < all.len()
            invariant
                k <= all@.len(),
                targets(all@) == variants_of(group@),
                picks == picks_of(*group),
                out@ == before + picks.subrange(0, k as int),
            decreases all@.len() - k,
        {
            assert(targets(all@)[k as int] == *all@[k as int]);
            out.push(Picked { group, anchor: all[k] });
            k = k + 1;
            assert(out@ =~= before + picks.subrange(0, k as int));
        }
        assert(picks.subrange(0, k as int) =~= picks);
        i = i + 1;
    }
    out
}

// ---------------------------------------------------------------------------
// Orders

/// The order of a presentation: group tier and compatibility, strongest
/// first, then files of the wanted kind, then path and place.
pub open spec fn presents_before(
    a: Picked,
    b: Picked,
    a_preferred: bool,
    b_preferred: bool,
) -> bool {
    let (sa, sb) = (strongest(a.group@).spec_rank(), strongest(b.group@).spec_rank());
    if a.group.group_tier.spec_rank() != b.group.group_tier.spec_rank() {
        a.group.group_tier.spec_rank() > b.group.group_tier.spec_rank()
    } else if sa != sb {
        sa > sb
    } else if a_preferred != b_preferred {
        a_preferred
    } else if a.anchor.anchor.path@ != b.anchor.anchor.path@ {
        text_before(a.anchor.anchor.path@, b.anchor.anchor.path@)
    } else {
        a.anchor.anchor.name_range.start_byte < b.anchor.anchor.name_range.start_byte
    }
}

fn is_presented_before<'a>(
    a: &Picked<'a>,
    b: &Picked<'a>,
    a_preferred: bool,
    b_preferred: bool,
) -> (r: bool)
    ensures
        r == presents_before(*a, *b, a_preferred, b_preferred),
{
    let sa: u8 = a.group.strongest_arity_compatibility().rank();
    let sb: u8 = b.group.strongest_arity_compatibility().rank();
    if a.group.group_tier.rank() != b.group.group_tier.rank() {
        a.group.group_tier.rank() > b.group.group_tier.rank()
    } else if sa != sb {
        sa > sb
    } else if a_preferred != b_preferred {
        a_preferred
    } else if !same_text(a.anchor.anchor.path.as_str(), b.anchor.anchor.path.as_str()) {
        is_text_before(a.anchor.anchor.path.as_str(), b.anchor.anchor.path.as_str())
    } else {
        a.anchor.anchor.name_range.start_byte < b.anchor.anchor.name_range.start_byte
    }
}

/// Presentation order with headers first among equals.
pub struct HeaderFirst;

impl<'a> Order<Picked<'a>> for HeaderFirst {
    open spec fn before(a: Picked<'a>, b: Picked<'a>) -> bool {
        presents_before(
            a,
            b,
            header_path(a.anchor.anchor.path@),
            header_path(b.anchor.anchor.path@),
        )
    }
}

impl<'a> Ordered<Picked<'a>> for HeaderFirst {
    fn is_before(a: &Picked<'a>, b: &Picked<'a>) -> (r: bool) {
        is_presented_before(
            a,
            b,
            is_header_path(a.anchor.anchor.path.as_str()),
            is_header_path(b.anchor.anchor.path.as_str()),
        )
    }
}

/// Presentation order with source files first among equals.
pub struct SourceFirst;

impl<'a> Order<Picked<'a>> for SourceFirst {
    open spec fn before(a: Picked<'a>, b: Picked<'a>) -> bool {
        presents_before(
            a,
            b,
            source_path(a.anchor.anchor.path@),
            source_path(b.anchor.anchor.path@),
        )
    }
}

impl<'a> Ordered<Picked<'a>> for SourceFirst {
    fn is_before(a: &Picked<'a>, b: &Picked<'a>) -> (r: bool) {
        is_presented_before(
            a,
            b,
            is_source_path(a.anchor.anchor.path.as_str()),
            is_source_path(b.anchor.anchor.path.as_str()),
        )
    }
}

/// Candidates by tier, compatibility and match quality, strongest first;
/// within one file the later place is nearer, else paths decide.
pub struct NearestFirst;

impl<'a> Order<Picked<'a>> for NearestFirst {
    open spec fn before(a: Picked<'a>, b: Picked<'a>) -> bool {
        let (x, y) = (a.anchor, b.anchor);
        if x.candidate.tier.spec_rank() != y.candidate.tier.spec_rank() {
            x.candidate.tier.spec_rank() > y.candidate.tier.spec_rank()
        } else if x.arity_compatibility.spec_rank() != y.arity_compatibility.spec_rank() {
            x.arity_compatibility.spec_rank() > y.arity_compatibility.spec_rank()
        } else if x.candidate.base_match != y.candidate.base_match {
            x.candidate.base_match > y.candidate.base_match
        } else if x.anchor.path@ != y.anchor.path@ {
            text_before(x.anchor.path@, y.anchor.path@)
        } else {
            x.anchor.name_range.start_byte > y.anchor.name_range.start_byte
        }
    }
}

impl<'a> Ordered<Picked<'a>> for NearestFirst {
    fn is_before(a: &Picked<'a>, b: &Picked<'a>) -> (r: bool) {
        let x = a.anchor;
        let y = b.anchor;
        if x.candidate.tier.rank() != y.candidate.tier.rank() {
            x.candidate.tier.rank() > y.candidate.tier.rank()
        } else if x.arity_compatibility.rank() != y.arity_compatibility.rank() {
            x.arity_compatibility.rank() > y.arity_compatibility.rank()
        } else if x.candidate.base_match != y.candidate.base_match {
            x.candidate.base_match > y.candidate.base_match
        } else if !same_text(x.anchor.path.as_str(), y.anchor.path.as_str()) {
            is_text_before(x.anchor.path.as_str(), y.anchor.path.as_str())
        } else {
            x.anchor.name_range.start_byte > y.anchor.name_range.start_byte
        }
    }
}

fn anchors_only<'a>(selected: &Vec<Picked<'a>>) -> (r: Vec<&'a ResolvedCallableAnchor>)
    ensures
        targets(r@) == anchors_of(selected@),
{
    let mut out: Vec<&'a ResolvedCallableAnchor> = Vec::new();
    let mut i: usize = 0;
    while i < selected.len()
        invariant
            i <= selected@.len(),
            targets(out@) == anchors_of(selected@).subrange(0, i as int),
        decreases selected@.len() - i,
    {
        let ghost before = targets(out@);
        out.push(selected[i].anchor);
        i = i + 1;
        assert(targets(out@) =~= before.push(*selected@[i - 1].anchor));
        assert(targets(out@) =~= anchors_of(selected@).subrange(0, i as int));
    }
    assert(targets(out@) =~= anchors_of(selected@));
    out
}

// ---------------------------------------------------------------------------
// Presentations

/// One candidate per group, headers first.
pub open spec fn hover_order(groups: Seq<CallableVariantGroup>) -> Seq<ResolvedCallableAnchor> {
    anchors_of(stable_sort::<Picked, HeaderFirst>(faces(groups)))
}

pub fn hover_presentations(groups: &[CallableVariantGroup]) -> (r: Vec<&ResolvedCallableAnchor>)
    ensures
        targets(r@) == hover_order(groups@),
{
    let mut selected = pick_faces(groups);
    sort_stable::<Picked, HeaderFirst>(&mut selected);
    anchors_only(&selected)
}

/// Signature help shows what hover shows.
pub fn signature_presentations(groups: &[CallableVariantGroup]) -> (r: Vec<
    &ResolvedCallableAnchor,
>)
    ensures
        targets(r@) == hover_order(groups@),
{
    hover_presentations(groups)
}

/// The first candidate with compatibility `c` at or after `i`.
pub open spec fn first_with(s: Seq<ResolvedCallableAnchor>, c: ArityCompatibility, i: int) -> Option<
    int,
>
    decreases s.len() - i,
{
    if i < 0 || i >= s.len() {
        None
    } else if s[i].arity_compatibility == c {
        Some(i)
    } else {
        first_with(s, c, i + 1)
    }
}

/// The slot to highlight: the first compatible candidate, else the first of
/// unknown arity, else the first.
pub open spec fn active_index(s: Seq<ResolvedCallableAnchor>) -> int {
    match first_with(s, ArityCompatibility::Compatible, 0) {
        Some(i) => i,
        None => match first_with(s, ArityCompatibility::Unknown, 0) {
            Some(i) => i,
            None => 0,
        },
    }
}

fn position_with(presentations: &[&ResolvedCallableAnchor], c: ArityCompatibility) -> (r: Option<
    usize,
>)
    ensures
        match r {
            Some(i) => first_with(targets(presentations@), c, 0) == Some(i as int) && i
                < presentations@.len(),
            None => first_with(targets(presentations@), c, 0) is None,
        },
{
    let ghost s = targets(presentations@);
    let mut i: usize = 0;
    while i < presentations.len()
        invariant
            i <= presentations@.len(),
            s == targets(presentations@),
            first_with(s, c, 0) == first_with(s, c, i as int),
        decreases presentations@.len() - i,
    {
        assert(s[i as int] == *presentations@[i as int]);
        if presentations[i].arity_compatibility == c {
            return Some(i);
        }
        i = i + 1;
    }
    None
}

/// Choose the active slot without changing the presentation order: a proven
/// compatible signature serves better than an unknown one of a stronger tier.
pub fn signature_active_index(presentations: &[&ResolvedCallableAnchor]) -> (r: usize)
    ensures
        r == active_index(targets(presentations@)),
{
    match position_with(presentations, ArityCompatibility::Compatible) {
        Some(i) => i,
        None => match position_with(presentations, ArityCompatibility::Unknown) {
            Some(i) => i,
            None => 0,
        },
    }
}

/// The definitions of the strongest tier, strict pairs alone where there are
/// any; without any definition, the declarations of the strongest tier.
pub open spec fn definition_order(groups: Seq<CallableVariantGroup>) -> Seq<
    ResolvedCallableAnchor,
> {
    let definitions = kept(members(groups), OfRole { role: AnchorRole::Definition });
    if definitions.len() > 0 {
        let top = of_top_group_tier(definitions);
        let strict = kept(top, OfStrictPair);
        anchors_of(
            stable_sort::<Picked, SourceFirst>(
                if strict.len() > 0 {
                    strict
                } else {
                    top
                },
            ),
        )
    } else {
        let declarations = kept(members(groups), OfRole { role: AnchorRole::Declaration });
        anchors_of(stable_sort::<Picked, HeaderFirst>(of_top_group_tier(declarations)))
    }
}

pub fn call_definition_presentations(groups: &[CallableVariantGroup]) -> (r: Vec<
    &ResolvedCallableAnchor,
>)
    ensures
        targets(r@) == definition_order(groups@),
{
    let mut definitions = pick_members(groups);
    retain(&mut definitions, &OfRole { role: AnchorRole::Definition });
    if definitions.len() > 0 {
        retain_strongest_group_tier(&mut definitions);
        let mut strict = copy_of(&definitions);
        retain(&mut strict, &OfStrictPair);
        if strict.len() > 0 {
            sort_stable::<Picked, SourceFirst>(&mut strict);
            return anchors_only(&strict);
        }
        sort_stable::<Picked, SourceFirst>(&mut definitions);
        return anchors_only(&definitions);
    }
    let mut declarations = pick_members(groups);
    retain(&mut declarations, &OfRole { role: AnchorRole::Declaration });
    retain_strongest_group_tier(&mut declarations);
    sort_stable::<Picked, HeaderFirst>(&mut declarations);
    anchors_only(&declarations)
}

fn copy_of<'a>(v: &Vec<Picked<'a>>) -> (r: Vec<Picked<'a>>)
    ensures
        r@ == v@,
{
    let mut out: Vec<Picked<'a>> = Vec::new();
    let mut i: usize = 0;
    while i < v.len()
        invariant
            i <= v@.len(),
            out@ == v@.subrange(0, i as int),
        decreases v@.len() - i,
    {
        out.push(v[i]);
        i = i + 1;
        assert(out@ =~= v@.subrange(0, i as int));
    }
    assert(out@ =~= v@);
    out
}

/// The nearest candidate of the strongest tier.
pub open spec fn nearest(s: Seq<Picked>) -> Seq<ResolvedCallableAnchor> {
    let sorted = stable_sort::<Picked, NearestFirst>(s);
    if sorted.len() > 0 {
        seq![*sorted[0].anchor]
    } else {
        Seq::empty()
    }
}

/// The declarations to go to from `origin`: headers of strict pairs in the
/// strongest visible tier, else the nearest declaration, else the nearest
/// definition.
pub open spec fn declaration_order(
    groups: Seq<CallableVariantGroup>,
    origin: Option<(&str, usize)>,
) -> Seq<ResolvedCallableAnchor> {
    let declarations = of_top_candidate_tier(
        kept(
            kept(members(groups), OfRole { role: AnchorRole::Declaration }),
            VisibleFrom { origin },
        ),
    );
    let strict = kept(declarations, StrictHeader);
    if strict.len() > 0 {
        anchors_of(stable_sort::<Picked, HeaderFirst>(strict))
    } else if declarations.len() > 0 {
        nearest(declarations)
    } else {
        nearest(
            of_top_candidate_tier(kept(members(groups), OfRole { role: AnchorRole::Definition })),
        )
    }
}

fn strongest_nearest_presentation<'a>(selected: Vec<Picked<'a>>) -> (r: Vec<
    &'a ResolvedCallableAnchor,
>)
    ensures
        targets(r@) == nearest(selected@),
{
    let mut sorted = selected;
    sort_stable::<Picked, NearestFirst>(&mut sorted);
    let mut out: Vec<&'a ResolvedCallableAnchor> = Vec::new();
    if sorted.len() > 0 {
        out.push(sorted[0].anchor);
    }
    assert(targets(out@) =~= nearest(selected@));
    out
}

fn call_declaration_presentations_for_origin<'a>(
    groups: &'a [CallableVariantGroup],
    origin: Option<(&str, usize)>,
) -> (r: Vec<&'a ResolvedCallableAnchor>)
    ensures
        targets(r@) == declaration_order(groups@, origin),
{
    let mut declarations = pick_members(groups);
    retain(&mut declarations, &OfRole { role: AnchorRole::Declaration });
    retain(&mut declarations, &VisibleFrom { origin });
    retain_strongest_candidate_tier(&mut declarations);
    let mut strict = copy_of(&declarations);
    retain(&mut strict, &StrictHeader);
    if strict.len() > 0 {
        sort_stable::<Picked, HeaderFirst>(&mut strict);
        return anchors_only(&strict);
    }
    if declarations.len() > 0 {
        return strongest_nearest_presentation(declarations);
    }
    let mut definitions = pick_members(groups);
    retain(&mut definitions, &OfRole { role: AnchorRole::Definition });
    retain_strongest_candidate_tier(&mut definitions);
    strongest_nearest_presentation(definitions)
}

/// Select declaration targets without a cursor.
pub fn call_declaration_presentations(groups: &[CallableVariantGroup]) -> (r: Vec<
    &ResolvedCallableAnchor,
>)
    ensures
        targets(r@) == declaration_order(groups@, None),
{
    call_declaration_presentations_for_origin(groups, None)
}

/// Select declaration targets for a use at `cursor_byte` of `origin_path`.
/// Declarations of that file must not come after the use; offsets in other
/// files are not comparable with the cursor.
pub fn call_declaration_presentations_at<'a>(
    groups: &'a [CallableVariantGroup],
    origin_path: &str,
    cursor_byte: usize,
) -> (r: Vec<&'a ResolvedCallableAnchor>)
    ensures
        targets(r@) == declaration_order(groups@, Some((origin_path, cursor_byte))),
{
    call_declaration_presentations_for_origin(groups, Some((origin_path, cursor_byte)))
}

/// The other side of the first strict pair, from group `i` on, that holds the
/// anchor with this fingerprint.
pub open spec fn opposite_from(
    groups: Seq<CallableVariantGroup>,
    fingerprint: Seq<char>,
    i: int,
) -> Option<ResolvedCallableAnchor>
    decreases groups.len() - i,
{
    if i < 0 || i >= groups.len() {
        None
    } else {
        match (groups[i].header_declaration, groups[i].source_definition) {
            (Some(h), Some(s)) => if groups[i].counterpart_evidence
                != CounterpartEvidence::StrictOneToOne {
                opposite_from(groups, fingerprint, i + 1)
            } else if h.anchor.anchor_fingerprint@ == fingerprint {
                Some(s)
            } else if s.anchor.anchor_fingerprint@ == fingerprint {
                Some(h)
            } else {
                opposite_from(groups, fingerprint, i + 1)
            },
            _ => opposite_from(groups, fingerprint, i + 1),
        }
    }
}

/// Return the sole opposite anchor of a proven strict counterpart pair.
pub fn anchor_opposite_definition<'a>(
    groups: &'a [CallableVariantGroup],
    origin_fingerprint: &str,
) -> (r: Option<&'a ResolvedCallableAnchor>)
    ensures
        match r {
            Some(a) => opposite_from(groups@, origin_fingerprint@, 0) == Some(*a),
            None => opposite_from(groups@, origin_fingerprint@, 0) is None,
        },
{
    let mut i: usize = 0;
    while i < groups.len()
        invariant
            i <= groups@.len(),
            opposite_from(groups@, origin_fingerprint@, 0) == opposite_from(
                groups@,
                origin_fingerprint@,
                i as int,
            ),
        decreases groups@.len() - i,
    {
        let group = &groups[i];
        if group.counterpart_evidence == CounterpartEvidence::StrictOneToOne {
            match (&group.header_declaration, &group.source_definition) {
                (Some(header), Some(source)) => {
                    if same_text(header.anchor.anchor_fingerprint.as_str(), origin_fingerprint) {
                        return Some(source);
                    }
                    if same_text(source.anchor.anchor_fingerprint.as_str(), origin_fingerprint) {
                        return Some(header);
                    }
                },
                _ => {},
            }
        }
        i = i + 1;
    }
    None
}

} // verus!
