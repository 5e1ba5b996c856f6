//! Matching, scoring and ranking of names.

use vstd::prelude::*;
use vstd::utf8::encode_utf8;

use crate::chars::{
    chars_of, find_bytes, first_occurrence, lower_bytes, matches_at, occurs_at, same_bytes,
    same_text, string_of, trim, trimmed,
};
use crate::facts::{
    completion_role_recall_priority, role_priority, SemanticFamily, SymbolKind, SymbolRole,
};
use crate::model::ScopeTier;
use crate::name_segment::{folded, Name, NameEntryRef, NameSegment};
use crate::name_table::{base_slots, slot_in_segment, slots_monotone, NameTable, Table};
use crate::order::{
    bytes_before, bytes_before_from, bytes_before_is_total, bytes_before_is_transitive,
    is_bytes_before, is_text_before, sort_merging, sorted_is_unique, stable_sort,
    stable_sort_is_in_order, stable_sort_is_permutation, stable_sort_maps, strict_weak, text_before,
    text_before_is_total, text_before_is_transitive, Order, Ordered,
};
use crate::project_context::{opt_key, Key, ProjectKey};
use crate::query::{SHORT_PREFIX_MIN_LEN, SHORT_PREFIX_MIN_SCORE};
use crate::reach::{PathSet, ReachScope};
use crate::resolver::{
    locality, nearness, opt_str, pack_score, packed, scope_tier, tier_of, ResolveContext,
};
use crate::search_laws::prefix_search_is_full_search;
use crate::segment_index::{by_spelling, family_spelled, local_spelled, IndexedSegment};
use crate::text::{boundary_at, is_boundary};

verus! {

// ---------------------------------------------------------------------------
// Matching

/// From byte `i` of `hay` on, the rest of `needle` from `q` on can be read off
/// in order.
pub open spec fn subsequence_from(needle: Seq<u8>, q: int, hay: Seq<u8>, i: int) -> bool
    decreases hay.len() - i,
{
    if q >= needle.len() {
        true
    } else if i < 0 || i >= hay.len() {
        false
    } else if hay[i] == needle[q] {
        subsequence_from(needle, q + 1, hay, i + 1)
    } else {
        subsequence_from(needle, q, hay, i + 1)
    }
}

/// As `subsequence_from`, reading at word boundaries of `orig` only.
pub open spec fn initials_from(
    needle: Seq<u8>,
    q: int,
    orig: Seq<u8>,
    hay: Seq<u8>,
    i: int,
) -> bool
    decreases hay.len() - i,
{
    if q >= needle.len() {
        true
    } else if i < 0 || i >= hay.len() {
        false
    } else if hay[i] == needle[q] && boundary_at(orig, i) {
        initials_from(needle, q + 1, orig, hay, i + 1)
    } else {
        initials_from(needle, q, orig, hay, i + 1)
    }
}

/// How well a folded needle matches a name: exactly, as a prefix, as a
/// substring at a word boundary or elsewhere, as initials, or as a
/// subsequence.
pub open spec fn match_score(needle: Seq<u8>, name: Seq<char>) -> Option<int> {
    let orig = encode_utf8(name);
    let hay = folded(name);
    if hay == needle {
        Some(1000)
    } else if occurs_at(hay, needle, 0) {
        Some(800)
    } else {
        match first_occurrence(hay, needle, 0) {
            Some(at) => if boundary_at(orig, at) {
                Some(650)
            } else {
                Some(500)
            },
            None => if initials_from(needle, 0, orig, hay, 0) {
                Some(400)
            } else if subsequence_from(needle, 0, hay, 0) {
                Some(200)
            } else {
                None
            },
        }
    }
}

pub open spec fn opt_score(r: Option<i32>) -> Option<int> {
    match r {
        Some(s) => Some(s as int),
        None => None,
    }
}

fn score_match(needle: &[u8], entry: &NameEntryRef) -> (r: Option<i32>)
    requires
        entry.wf(),
    ensures
        opt_score(r) == match_score(needle@, entry@.name),
        r is Some ==> 0 <= r->0 <= 1000,
{
    let hay = entry.lower;
    let orig = entry.name.as_bytes();
    if same_bytes(hay, needle) {
        return Some(1000);
    }
    if matches_at(hay, needle, 0) {
        return Some(800);
    }
    match find_bytes(hay, needle, 0) {
        Some(at) => {
            if needle.len() == 0 {
                assert(occurs_at(hay@, needle@, 0)) by {
                    assert(hay@.subrange(0, 0) =~= needle@);
                }
            }
            if is_boundary(orig, at) {
                Some(650)
            } else {
                Some(500)
            }
        },
        None => subsequence_match(needle, orig, hay),
    }
}

/// Whether a folded needle matches a name at all.
pub fn name_matches(needle: &[u8], name: &str) -> (r: bool)
    ensures
        r == match_score(needle@, name@) is Some,
{
    let lower = lower_bytes(name.as_bytes());
    let entry = NameEntryRef {
        id: 0,
        name,
        lower: lower.as_slice(),
        external: false,
        directly_included: false,
        path: name,
        kind: SymbolKind::Function,
        role: SymbolRole::Definition,
        semantic_family: SemanticFamily::CFamily,
        project_key: None,
    };
    score_match(needle, &entry).is_some()
}

/// The tier of a match that is no substring.
fn subsequence_match(needle: &[u8], orig: &[u8], lower: &[u8]) -> (r: Option<i32>)
    requires
        orig@.len() == lower@.len(),
    ensures
        opt_score(r) == (if initials_from(needle@, 0, orig@, lower@, 0) {
            Some(400int)
        } else if subsequence_from(needle@, 0, lower@, 0) {
            Some(200int)
        } else {
            None
        }),
        r is Some ==> 0 <= r->0 <= 1000,
{
    let mut at_boundary: usize = 0;
    let mut anywhere: usize = 0;
    let mut i: usize = 0;
    while i < lower.len()
        invariant
            i <= lower@.len(),
            orig@.len() == lower@.len(),
            at_boundary <= needle@.len(),
            anywhere <= needle@.len(),
            initials_from(needle@, 0, orig@, lower@, 0) == initials_from(
                needle@,
                at_boundary as int,
                orig@,
                lower@,
                i as int,
            ),
            subsequence_from(needle@, 0, lower@, 0) == subsequence_from(
                needle@,
                anywhere as int,
                lower@,
                i as int,
            ),
        decreases lower@.len() - i,
    {
        if at_boundary < needle.len() && lower[i] == needle[at_boundary] && is_boundary(orig, i) {
            at_boundary = at_boundary + 1;
        }
        if anywhere < needle.len() && lower[i] == needle[anywhere] {
            anywhere = anywhere + 1;
        }
        i = i + 1;
    }
    if at_boundary >= needle.len() {
        Some(400)
    } else if anywhere >= needle.len() {
        Some(200)
    } else {
        None
    }
}

// ---------------------------------------------------------------------------
// Scopes and candidates

/// What is known of the file a completion comes from.
#[derive(Debug, Clone)]
pub struct CompletionScope {
    pub current_path: Option<String>,
    pub reach: ReachScope,
    pub direct_external_files: PathSet,
}

/// The resolver context of a scope.
pub open spec fn context_of<'a>(scope: Option<&'a CompletionScope>) -> Option<Context> {
    match scope {
        Some(s) => Some(
            Context {
                current: match s.current_path {
                    Some(p) => Some(p@),
                    None => None,
                },
                files: s.reach.files@,
                heuristic: s.reach.heuristic_files@,
                open: s.reach.open,
                direct: Some(s.direct_external_files@),
            },
        ),
        None => None,
    }
}

/// A resolver context as sets.
pub struct Context {
    pub current: Option<Seq<char>>,
    pub files: Set<Seq<char>>,
    pub heuristic: Set<Seq<char>>,
    pub open: bool,
    pub direct: Option<Set<Seq<char>>>,
}

impl<'a> View for ResolveContext<'a> {
    type V = Context;

    open spec fn view(&self) -> Context {
        Context {
            current: opt_str(self.current_path),
            files: match self.reach {
                Some(r) => r.files@,
                None => Set::empty(),
            },
            heuristic: match self.reach {
                Some(r) => r.heuristic_files@,
                None => Set::empty(),
            },
            open: match self.reach {
                Some(r) => r.open,
                None => false,
            },
            direct: match self.direct_external_files {
                Some(d) => Some(d@),
                None => None,
            },
        }
    }
}

pub open spec fn opt_context(ctx: Option<&ResolveContext>) -> Option<Context> {
    match ctx {
        Some(c) => Some(c@),
        None => None,
    }
}

/// The tier of a file in a context.
pub open spec fn tier_in(
    ctx: Option<Context>,
    path: Seq<char>,
    external: bool,
    directly_included: bool,
) -> ScopeTier {
    match ctx {
        None => if external && directly_included {
            ScopeTier::External
        } else {
            ScopeTier::Global
        },
        Some(c) => if external && match c.direct {
            Some(files) => files.contains(path),
            None => directly_included,
        } {
            ScopeTier::External
        } else if c.current == Some(path) {
            ScopeTier::Current
        } else if c.files.contains(path) {
            ScopeTier::Reachable
        } else if c.open && !external {
            ScopeTier::Unknown
        } else {
            ScopeTier::Global
        },
    }
}

/// The tier in a context is the tier of the resolver.
pub proof fn tier_in_is_tier_of(
    path: Seq<char>,
    external: bool,
    directly_included: bool,
    ctx: Option<&ResolveContext>,
)
    ensures
        tier_in(opt_context(ctx), path, external, directly_included) == tier_of(
            path,
            external,
            directly_included,
            ctx,
        ),
{
}

impl CompletionScope {
    pub fn resolve_context(&self) -> (r: ResolveContext<'_>)
        ensures
            Some(r@) == context_of(Some(self)),
            r.reach is Some,
    {
        ResolveContext {
            current_path: match &self.current_path {
                Some(p) => Some(p.as_str()),
                None => None,
            },
            reach: Some(&self.reach),
            direct_external_files: Some(&self.direct_external_files),
        }
    }
}

/// A slot with its score.
#[derive(Debug, Clone, Copy, PartialEq, Eq, Structural)]
pub struct ScoredCandidate {
    pub score: i32,
    pub name_len: usize,
    pub index: usize,
    pub tier: ScopeTier,
    pub base_match: i32,
}

pub open spec fn current_of(ctx: Option<Context>) -> Option<Seq<char>> {
    match ctx {
        Some(c) => c.current,
        None => None,
    }
}

/// The candidate that slot `i` makes with match quality `base`.
pub open spec fn candidate(t: Table, ctx: Option<Context>, i: int, base: int) -> ScoredCandidate {
    let n = t.slots[i];
    let tier = tier_in(ctx, n.path, n.external, t.direct_for(n));
    ScoredCandidate {
        score: packed(tier, base, nearness(n.path, current_of(ctx))) as i32,
        name_len: encode_utf8(n.name).len() as usize,
        index: i as usize,
        tier,
        base_match: base as i32,
    }
}

pub open spec fn in_family(t: Table, family: Option<SemanticFamily>, i: int) -> bool {
    family is None || family == Some(t.slots[i].family)
}

/// Slot `i` is active, of the family, and matches.
pub open spec fn matched(
    t: Table,
    family: Option<SemanticFamily>,
    needle: Seq<u8>,
    i: int,
) -> bool {
    t.is_active(i) && in_family(t, family, i) && match_score(needle, t.slots[i].name) is Some
}

/// Short needles keep only strong matches.
pub open spec fn gate(needle: Seq<u8>) -> int {
    if needle.len() < SHORT_PREFIX_MIN_LEN {
        SHORT_PREFIX_MIN_SCORE as int
    } else {
        0
    }
}

/// The candidates among the first `n` of `ids` that match well enough.
pub open spec fn scored_below(
    t: Table,
    ctx: Option<Context>,
    family: Option<SemanticFamily>,
    needle: Seq<u8>,
    min: int,
    ids: Seq<usize>,
    n: int,
) -> Seq<ScoredCandidate>
    decreases n,
{
    if n <= 0 {
        Seq::empty()
    } else {
        let before = scored_below(t, ctx, family, needle, min, ids, n - 1);
        let i = ids[n - 1] as int;
        if matched(t, family, needle, i) && match_score(needle, t.slots[i].name)->0 >= min {
            before.push(candidate(t, ctx, i, match_score(needle, t.slots[i].name)->0))
        } else {
            before
        }
    }
}

/// The slots among the first `n` of `ids` that match at all.
pub open spec fn pool_below(
    t: Table,
    family: Option<SemanticFamily>,
    needle: Seq<u8>,
    ids: Seq<usize>,
    n: int,
) -> Seq<usize>
    decreases n,
{
    if n <= 0 {
        Seq::empty()
    } else if matched(t, family, needle, ids[n - 1] as int) {
        pool_below(t, family, needle, ids, n - 1).push(ids[n - 1])
    } else {
        pool_below(t, family, needle, ids, n - 1)
    }
}

/// Every active slot of the family among the first `n`, without a match.
pub open spec fn unmatched_below(
    t: Table,
    ctx: Option<Context>,
    family: Option<SemanticFamily>,
    n: int,
) -> Seq<ScoredCandidate>
    decreases n,
{
    if n <= 0 {
        Seq::empty()
    } else if t.active[n - 1] && in_family(t, family, n - 1) {
        unmatched_below(t, ctx, family, n - 1).push(candidate(t, ctx, n - 1, 0))
    } else {
        unmatched_below(t, ctx, family, n - 1)
    }
}

/// All slots, in order.
pub open spec fn all_slots(t: Table) -> Seq<usize> {
    Seq::new(t.slots.len(), |i: int| i as usize)
}

/// The slots that a search looks at: a pool from before, or all.
pub open spec fn looked_at(t: Table, prior: Option<Seq<usize>>) -> Seq<usize> {
    match prior {
        Some(pool) => pool,
        None => all_slots(t),
    }
}

/// The folded needle of a query.
pub open spec fn needle_of(query: Seq<char>) -> Seq<u8> {
    folded(trim(query))
}

/// The candidates of a query.
pub open spec fn scored(
    t: Table,
    ctx: Option<Context>,
    family: Option<SemanticFamily>,
    query: Seq<char>,
    ids: Seq<usize>,
) -> Seq<ScoredCandidate> {
    if trim(query).len() == 0 {
        unmatched_below(t, ctx, family, t.slots.len() as int)
    } else {
        scored_below(
            t,
            ctx,
            family,
            needle_of(query),
            gate(needle_of(query)),
            ids,
            ids.len() as int,
        )
    }
}

/// The pool of a query: what can still match when the query grows.
pub open spec fn pool(
    t: Table,
    family: Option<SemanticFamily>,
    query: Seq<char>,
    ids: Seq<usize>,
) -> Seq<usize> {
    if trim(query).len() == 0 {
        Seq::empty()
    } else {
        pool_below(t, family, needle_of(query), ids, ids.len() as int)
    }
}

// ---------------------------------------------------------------------------
// Order

/// A candidate with the name it stands for.
pub struct Placed {
    pub candidate: ScoredCandidate,
    pub name: Name,
}

pub struct Ranked<'a> {
    pub candidate: ScoredCandidate,
    pub entry: NameEntryRef<'a>,
}

impl<'a> View for Ranked<'a> {
    type V = Placed;

    open spec fn view(&self) -> Placed {
        Placed { candidate: self.candidate, name: self.entry@ }
    }
}

/// Candidates by score, then shorter names, then by name, role, path, id and
/// slot.
pub struct ScoredOrder;

impl Order<Placed> for ScoredOrder {
    open spec fn before(a: Placed, b: Placed) -> bool {
        if a.candidate.score != b.candidate.score {
            a.candidate.score > b.candidate.score
        } else if a.candidate.name_len != b.candidate.name_len {
            a.candidate.name_len < b.candidate.name_len
        } else if a.name.name != b.name.name {
            text_before(a.name.name, b.name.name)
        } else if role_priority(a.name.role) != role_priority(b.name.role) {
            role_priority(a.name.role) > role_priority(b.name.role)
        } else if a.name.path != b.name.path {
            text_before(a.name.path, b.name.path)
        } else if a.name.id != b.name.id {
            a.name.id < b.name.id
        } else {
            a.candidate.index < b.candidate.index
        }
    }
}

impl<'a> Order<Ranked<'a>> for ScoredOrder {
    open spec fn before(a: Ranked<'a>, b: Ranked<'a>) -> bool {
        <ScoredOrder as Order<Placed>>::before(a@, b@)
    }
}

impl<'a> Ordered<Ranked<'a>> for ScoredOrder {
    fn is_before(a: &Ranked<'a>, b: &Ranked<'a>) -> (r: bool) {
        let role_a: u8 = completion_role_recall_priority(a.entry.role);
        let role_b: u8 = completion_role_recall_priority(b.entry.role);
        if a.candidate.score != b.candidate.score {
            a.candidate.score > b.candidate.score
        } else if a.candidate.name_len != b.candidate.name_len {
            a.candidate.name_len < b.candidate.name_len
        } else if !same_text(a.entry.name, b.entry.name) {
            is_text_before(a.entry.name, b.entry.name)
        } else if role_a != role_b {
            role_a > role_b
        } else if !same_text(a.entry.path, b.entry.path) {
            is_text_before(a.entry.path, b.entry.path)
        } else if a.entry.id != b.entry.id {
            a.entry.id < b.entry.id
        } else {
            a.candidate.index < b.candidate.index
        }
    }
}

/// The order of candidates is a strict weak order.
pub proof fn scored_order_is_strict_weak()
    ensures
        strict_weak::<Placed, ScoredOrder>(),
        strict_weak::<Ranked, ScoredOrder>(),
{
    assert forall|a: Placed, b: Placed|
        <ScoredOrder as Order<Placed>>::before(a, b) implies !#[trigger] <ScoredOrder as Order<
        Placed,
    >>::before(b, a) by {
        text_before_is_total(a.name.name, b.name.name);
        text_before_is_total(a.name.path, b.name.path);
    }
    assert forall|a: Placed, b: Placed, c: Placed|
        !(#[trigger] <ScoredOrder as Order<Placed>>::before(a, b))
            && !(#[trigger] <ScoredOrder as Order<Placed>>::before(b, c)) implies !<ScoredOrder as Order<
        Placed,
    >>::before(a, c) by {
        text_before_is_total(a.name.name, b.name.name);
        text_before_is_total(b.name.name, c.name.name);
        text_before_is_total(a.name.name, c.name.name);
        text_before_is_total(a.name.path, b.name.path);
        text_before_is_total(b.name.path, c.name.path);
        text_before_is_total(a.name.path, c.name.path);
        if text_before(b.name.name, a.name.name) && text_before(c.name.name, b.name.name) {
            text_before_is_transitive(c.name.name, b.name.name, a.name.name);
        }
        if text_before(b.name.path, a.name.path) && text_before(c.name.path, b.name.path) {
            text_before_is_transitive(c.name.path, b.name.path, a.name.path);
        }
    }
    assert forall|a: Ranked, b: Ranked|
        <ScoredOrder as Order<Ranked>>::before(a, b) implies !#[trigger] <ScoredOrder as Order<
        Ranked,
    >>::before(b, a) by {
        assert(!<ScoredOrder as Order<Placed>>::before(b@, a@));
    }
    assert forall|a: Ranked, b: Ranked, c: Ranked|
        !(#[trigger] <ScoredOrder as Order<Ranked>>::before(a, b))
            && !(#[trigger] <ScoredOrder as Order<Ranked>>::before(b, c)) implies !<ScoredOrder as Order<
        Ranked,
    >>::before(a, c) by {
        assert(!<ScoredOrder as Order<Placed>>::before(a@, b@));
        assert(!<ScoredOrder as Order<Placed>>::before(b@, c@));
    }
}

/// Candidates with their names.
pub open spec fn placed(t: Table, s: Seq<ScoredCandidate>) -> Seq<Placed> {
    Seq::new(s.len(), |i: int| Placed { candidate: s[i], name: t.slots[s[i].index as int] })
}

/// The first `limit` elements.
pub open spec fn first<T>(s: Seq<T>, limit: int) -> Seq<T> {
    if s.len() > limit {
        s.subrange(0, limit)
    } else {
        s
    }
}

/// The best `limit` candidates, best first.
pub open spec fn top(s: Seq<Placed>, limit: int) -> Seq<Placed> {
    first(stable_sort::<Placed, ScoredOrder>(s), limit)
}

pub open spec fn ranked_views(s: Seq<Ranked>) -> Seq<Placed> {
    s.map_values(|r: Ranked| r@)
}

// ---------------------------------------------------------------------------
// Hits

/// A ranked name.
#[derive(Debug, Clone, PartialEq, Eq)]
pub struct RankedNameHit {
    pub id: i64,
    /// Packed sort key; larger is better.
    pub score: i32,
    pub tier: ScopeTier,
    /// Match quality alone.
    pub base_match: i32,
    pub name_len: usize,
    pub name: String,
    pub kind: SymbolKind,
    pub role: SymbolRole,
    pub semantic_family: SemanticFamily,
    pub project_key: Option<ProjectKey>,
}

/// A ranked name with its texts as sequences.
pub struct Hit {
    pub id: i64,
    pub score: i32,
    pub tier: ScopeTier,
    pub base_match: i32,
    pub name_len: usize,
    pub name: Seq<char>,
    pub kind: SymbolKind,
    pub role: SymbolRole,
    pub family: SemanticFamily,
    pub project: Option<Key>,
}

impl View for RankedNameHit {
    type V = Hit;

    open spec fn view(&self) -> Hit {
        Hit {
            id: self.id,
            score: self.score,
            tier: self.tier,
            base_match: self.base_match,
            name_len: self.name_len,
            name: self.name@,
            kind: self.kind,
            role: self.role,
            family: self.semantic_family,
            project: opt_key(self.project_key),
        }
    }
}

pub open spec fn hit_views(s: Seq<RankedNameHit>) -> Seq<Hit> {
    Seq::new(s.len(), |i: int| s[i]@)
}

pub open spec fn hit_of(p: Placed) -> Hit {
    Hit {
        id: p.name.id,
        score: p.candidate.score,
        tier: p.candidate.tier,
        base_match: p.candidate.base_match,
        name_len: p.candidate.name_len,
        name: p.name.name,
        kind: p.name.kind,
        role: p.name.role,
        family: p.name.family,
        project: p.name.project,
    }
}

pub open spec fn hits_of(s: Seq<Placed>) -> Seq<Hit> {
    Seq::new(s.len(), |i: int| hit_of(s[i]))
}

pub fn hits_from(ranked: &Vec<Ranked>) -> (r: Vec<RankedNameHit>)
    ensures
        hit_views(r@) == hits_of(ranked_views(ranked@)),
{
    let ghost want = hits_of(ranked_views(ranked@));
    let mut out: Vec<RankedNameHit> = Vec::new();
    let mut i: usize = 0;
    while i < ranked.len()
        invariant
            i <= ranked@.len(),
            want == hits_of(ranked_views(ranked@)),
            hit_views(out@) == want.subrange(0, i as int),
        decreases ranked@.len() - i,
    {
        let ghost before = hit_views(out@);
        let c = ranked[i].candidate;
        let e = &ranked[i].entry;
        let project_key = match e.project_key {
            Some(key) => Some(key.clone()),
            None => None,
        };
        out.push(
            RankedNameHit {
                id: e.id,
                score: c.score,
                tier: c.tier,
                base_match: c.base_match,
                name_len: c.name_len,
                name: e.name.to_owned(),
                kind: e.kind,
                role: e.role,
                semantic_family: e.semantic_family,
                project_key,
            },
        );
        assert(ranked_views(ranked@)[i as int] == ranked@[i as int]@);
        i = i + 1;
        assert(hit_views(out@) =~= before.push(want[i - 1]));
        assert(hit_views(out@) =~= want.subrange(0, i as int));
    }
    assert(hit_views(out@) =~= want);
    out
}

/// Sort ranked candidates and keep the best `limit`.
pub fn top_ranked<'a>(ranked: Vec<Ranked<'a>>, limit: usize) -> (r: Vec<Ranked<'a>>)
    ensures
        ranked_views(r@) == top(ranked_views(ranked@), limit as int),
{
    proof {
        scored_order_is_strict_weak();
        stable_sort_maps::<Ranked, Placed, ScoredOrder, ScoredOrder>(ranked@, |r: Ranked| r@);
    }
    let mut sorted = sort_merging::<Ranked, ScoredOrder>(ranked);
    let ghost all = ranked_views(sorted@);
    if sorted.len() > limit {
        sorted.truncate(limit);
        assert(ranked_views(sorted@) =~= all.subrange(0, limit as int));
    }
    sorted
}

/// Candidates with the names they stand for.
fn place_all<'a>(scored: &Vec<ScoredCandidate>, table: &'a NameTable) -> (r: Vec<Ranked<'a>>)
    requires
        table.wf(),
        forall|k: int|
            0 <= k < scored@.len() ==> (#[trigger] scored@[k]).index < table@.slots.len(),
    ensures
        ranked_views(r@) == placed(table@, scored@),
{
    let ghost want = placed(table@, scored@);
    let mut out: Vec<Ranked<'a>> = Vec::new();
    let mut i: usize = 0;
    while i < scored.len()
        invariant
            table.wf(),
            forall|k: int|
                0 <= k < scored@.len() ==> (#[trigger] scored@[k]).index < table@.slots.len(),
            i <= scored@.len(),
            want == placed(table@, scored@),
            ranked_views(out@) == want.subrange(0, i as int),
        decreases scored@.len() - i,
    {
        let ghost before = ranked_views(out@);
        let candidate = scored[i];
        assert(scored@[i as int].index < table@.slots.len());
        let item = Ranked { candidate, entry: table.entry(candidate.index) };
        let ghost v = item@;
        out.push(item);
        i = i + 1;
        assert(ranked_views(out@) =~= before.push(v));
        assert(ranked_views(out@) =~= want.subrange(0, i as int));
    }
    assert(ranked_views(out@) =~= want);
    out
}

pub open spec fn candidates_of(s: Seq<Placed>) -> Seq<ScoredCandidate> {
    s.map_values(|p: Placed| p.candidate)
}

/// The best `limit` candidates of a table, best first.
pub fn top_scored(scored: Vec<ScoredCandidate>, limit: usize, table: &NameTable) -> (r: Vec<
    ScoredCandidate,
>)
    requires
        table.wf(),
        forall|k: int|
            0 <= k < scored@.len() ==> (#[trigger] scored@[k]).index < table@.slots.len(),
    ensures
        r@ == candidates_of(top(placed(table@, scored@), limit as int)),
{
    let ranked = top_ranked(place_all(&scored, table), limit);
    let ghost want = candidates_of(ranked_views(ranked@));
    let mut out: Vec<ScoredCandidate> = Vec::new();
    let mut i: usize = 0;
    while i < ranked.len()
        invariant
            i <= ranked@.len(),
            want == candidates_of(ranked_views(ranked@)),
            out@ == want.subrange(0, i as int),
        decreases ranked@.len() - i,
    {
        assert(ranked_views(ranked@)[i as int] == ranked@[i as int]@);
        out.push(ranked[i].candidate);
        i = i + 1;
        assert(out@ =~= want.subrange(0, i as int));
    }
    assert(out@ =~= want);
    out
}

/// Sort candidates of a table, best first.
pub fn sort_scored(scored: &mut Vec<ScoredCandidate>, table: &NameTable)
    requires
        table.wf(),
        forall|k: int|
            0 <= k < old(scored)@.len() ==> (#[trigger] old(scored)@[k]).index
                < table@.slots.len(),
    ensures
        final(scored)@ == candidates_of(
            stable_sort::<Placed, ScoredOrder>(placed(table@, old(scored)@)),
        ),
{
    let mut all: Vec<ScoredCandidate> = Vec::new();
    std::mem::swap(&mut all, scored);
    let total: usize = all.len();
    proof {
        stable_sort_is_permutation::<Placed, ScoredOrder>(placed(table@, all@));
    }
    *scored = top_scored(all, total, table);
}

// ---------------------------------------------------------------------------
// Scanning

pub open spec fn valid_ids(t: Table, ids: Seq<usize>) -> bool {
    forall|k: int| 0 <= k < ids.len() ==> (#[trigger] ids[k]) < t.slots.len()
}

impl NameTable {
    /// The candidate of a slot.
    pub fn candidate_at<'a>(
        &'a self,
        index: usize,
        base_match: i32,
        ctx: Option<&ResolveContext>,
    ) -> (r: Ranked<'a>)
        requires
            self.wf(),
            index < self@.slots.len(),
            0 <= base_match <= 1000,
        ensures
            r.candidate == candidate(self@, opt_context(ctx), index as int, base_match as int),
            r.entry@ == self@.slots[index as int],
            r.entry.wf(),
    {
        let entry = self.entry(index);
        let direct = self.directly_included_for(&entry);
        proof {
            tier_in_is_tier_of(entry.path@, entry.external, direct, ctx);
        }
        let tier = scope_tier(entry.path, entry.external, direct, ctx);
        let current: Option<&str> = match ctx {
            Some(c) => c.current_path,
            None => None,
        };
        let near: i32 = locality(entry.path, current);
        let score: i32 = pack_score(tier, base_match, near);
        Ranked {
            candidate: ScoredCandidate {
                score,
                name_len: entry.name.as_bytes().len(),
                index,
                tier,
                base_match,
            },
            entry,
        }
    }

    /// Match one slot: into the pool when it matches at all, among the
    /// candidates when it matches well enough.
    pub fn consider<'a>(
        &'a self,
        index: usize,
        needle: &[u8],
        family: Option<SemanticFamily>,
        min_score: i32,
        ctx: Option<&ResolveContext>,
        scored_out: &mut Vec<Ranked<'a>>,
        pool_out: &mut Vec<usize>,
    )
        requires
            self.wf(),
            index < self@.slots.len(),
        ensures
            matched(self@, family, needle@, index as int) ==> final(pool_out)@ == old(
                pool_out,
            )@.push(index),
            !matched(self@, family, needle@, index as int) ==> final(pool_out)@ == old(pool_out)@,
            (matched(self@, family, needle@, index as int) && match_score(
                needle@,
                self@.slots[index as int].name,
            )->0 >= min_score) ==> ranked_views(final(scored_out)@) == ranked_views(
                old(scored_out)@,
            ).push(
                Placed {
                    candidate: candidate(
                        self@,
                        opt_context(ctx),
                        index as int,
                        match_score(needle@, self@.slots[index as int].name)->0,
                    ),
                    name: self@.slots[index as int],
                },
            ),
            !(matched(self@, family, needle@, index as int) && match_score(
                needle@,
                self@.slots[index as int].name,
            )->0 >= min_score) ==> ranked_views(final(scored_out)@) == ranked_views(
                old(scored_out)@,
            ),
    {
        if !self.is_active_index(index) {
            return;
        }
        let entry = self.entry(index);
        let wanted = match family {
            Some(f) => entry.semantic_family == f,
            None => true,
        };
        if !wanted {
            return;
        }
        match score_match(needle, &entry) {
            Some(base) => {
                pool_out.push(index);
                if base >= min_score {
                    let ghost before = ranked_views(scored_out@);
                    let ranked = self.candidate_at(index, base, ctx);
                    let ghost p = ranked@;
                    scored_out.push(ranked);
                    assert(ranked_views(scored_out@) =~= before.push(p));
                }
            },
            None => {},
        }
    }
}

/// The folded needle of a query, `None` for a blank one.
pub fn needle_from(query: &str) -> (r: Option<Vec<u8>>)
    ensures
        match r {
            Some(n) => trim(query@).len() > 0 && n@ == needle_of(query@),
            None => trim(query@).len() == 0,
        },
{
    let chars = chars_of(query);
    let t = trimmed(&chars);
    if t.len() == 0 {
        return None;
    }
    let s = string_of(t);
    Some(lower_bytes(s.as_str().as_bytes()))
}

pub fn gate_for(needle: &[u8]) -> (r: i32)
    ensures
        r == gate(needle@),
{
    if needle.len() < SHORT_PREFIX_MIN_LEN {
        SHORT_PREFIX_MIN_SCORE
    } else {
        0
    }
}

proof fn placed_push(t: Table, s: Seq<ScoredCandidate>, c: ScoredCandidate)
    ensures
        placed(t, s.push(c)) == placed(t, s).push(
            Placed { candidate: c, name: t.slots[c.index as int] },
        ),
{
    assert(placed(t, s.push(c)) =~= placed(t, s).push(
        Placed { candidate: c, name: t.slots[c.index as int] },
    ));
}

impl NameTable {
    /// Match the slots `ids`.
    fn scan_ids<'a>(
        &'a self,
        needle: &[u8],
        family: Option<SemanticFamily>,
        min_score: i32,
        ctx: Option<&ResolveContext>,
        ids: &[usize],
    ) -> (r: (Vec<Ranked<'a>>, Vec<usize>))
        requires
            self.wf(),
            valid_ids(self@, ids@),
        ensures
            ranked_views(r.0@) == placed(
                self@,
                scored_below(
                    self@,
                    opt_context(ctx),
                    family,
                    needle@,
                    min_score as int,
                    ids@,
                    ids@.len() as int,
                ),
            ),
            r.1@ == pool_below(self@, family, needle@, ids@, ids@.len() as int),
    {
        let ghost c = opt_context(ctx);
        let mut out: Vec<Ranked<'a>> = Vec::new();
        let mut pool_out: Vec<usize> = Vec::new();
        let mut i: usize = 0;
        assert(ranked_views(out@) =~= placed(self@, Seq::empty()));
        while i < ids.len()
            invariant
                self.wf(),
                valid_ids(self@, ids@),
                i <= ids@.len(),
                c == opt_context(ctx),
                ranked_views(out@) == placed(
                    self@,
                    scored_below(self@, c, family, needle@, min_score as int, ids@, i as int),
                ),
                pool_out@ == pool_below(self@, family, needle@, ids@, i as int),
            decreases ids@.len() - i,
        {
            let ghost before = scored_below(
                self@,
                c,
                family,
                needle@,
                min_score as int,
                ids@,
                i as int,
            );
            let index: usize = ids[i];
            self.consider(index, needle, family, min_score, ctx, &mut out, &mut pool_out);
            proof {
                placed_push(
                    self@,
                    before,
                    candidate(
                        self@,
                        c,
                        index as int,
                        match_score(needle@, self@.slots[index as int].name)->0,
                    ),
                );
            }
            i = i + 1;
        }
        (out, pool_out)
    }

    /// Match every slot.
    fn scan_all<'a>(
        &'a self,
        needle: &[u8],
        family: Option<SemanticFamily>,
        min_score: i32,
        ctx: Option<&ResolveContext>,
    ) -> (r: (Vec<Ranked<'a>>, Vec<usize>))
        requires
            self.wf(),
        ensures
            ranked_views(r.0@) == placed(
                self@,
                scored_below(
                    self@,
                    opt_context(ctx),
                    family,
                    needle@,
                    min_score as int,
                    all_slots(self@),
                    self@.slots.len() as int,
                ),
            ),
            r.1@ == pool_below(
                self@,
                family,
                needle@,
                all_slots(self@),
                self@.slots.len() as int,
            ),
    {
        let ghost c = opt_context(ctx);
        let ghost ids = all_slots(self@);
        let mut out: Vec<Ranked<'a>> = Vec::new();
        let mut pool_out: Vec<usize> = Vec::new();
        let mut i: usize = 0;
        assert(ranked_views(out@) =~= placed(self@, Seq::empty()));
        while i < self.slot_len
            invariant
                self.wf(),
                i <= self.slot_len,
                ids == all_slots(self@),
                c == opt_context(ctx),
                ranked_views(out@) == placed(
                    self@,
                    scored_below(self@, c, family, needle@, min_score as int, ids, i as int),
                ),
                pool_out@ == pool_below(self@, family, needle@, ids, i as int),
            decreases self.slot_len - i,
        {
            let ghost before = scored_below(
                self@,
                c,
                family,
                needle@,
                min_score as int,
                ids,
                i as int,
            );
            self.consider(i, needle, family, min_score, ctx, &mut out, &mut pool_out);
            proof {
                assert(ids[i as int] == i);
                placed_push(
                    self@,
                    before,
                    candidate(
                        self@,
                        c,
                        i as int,
                        match_score(needle@, self@.slots[i as int].name)->0,
                    ),
                );
            }
            i = i + 1;
        }
        (out, pool_out)
    }

    /// Every active slot of a family as a candidate.
    pub fn unmatched_candidates<'a>(
        &'a self,
        family: Option<SemanticFamily>,
        ctx: Option<&ResolveContext>,
    ) -> (r: Vec<Ranked<'a>>)
        requires
            self.wf(),
        ensures
            ranked_views(r@) == placed(
                self@,
                unmatched_below(self@, opt_context(ctx), family, self@.slots.len() as int),
            ),
    {
        let ghost c = opt_context(ctx);
        let mut out: Vec<Ranked<'a>> = Vec::new();
        let mut i: usize = 0;
        assert(ranked_views(out@) =~= placed(self@, Seq::empty()));
        while i < self.slot_len
            invariant
                self.wf(),
                i <= self.slot_len,
                c == opt_context(ctx),
                ranked_views(out@) == placed(
                    self@,
                    unmatched_below(self@, c, family, i as int),
                ),
            decreases self.slot_len - i,
        {
            if self.is_active_index(i) {
                let entry = self.entry(i);
                let wanted = match family {
                    Some(f) => entry.semantic_family == f,
                    None => true,
                };
                if wanted {
                    let ghost before = unmatched_below(self@, c, family, i as int);
                    let ghost views = ranked_views(out@);
                    let ranked = self.candidate_at(i, 0, ctx);
                    let ghost p = ranked@;
                    out.push(ranked);
                    proof {
                        assert(ranked_views(out@) =~= views.push(p));
                        placed_push(self@, before, candidate(self@, c, i as int, 0));
                    }
                }
            }
            i = i + 1;
        }
        out
    }
}

// ---------------------------------------------------------------------------
// Search

pub open spec fn opt_ids(p: Option<&[usize]>) -> Option<Seq<usize>> {
    match p {
        Some(ids) => Some(ids@),
        None => None,
    }
}

/// The hits of a search.
pub open spec fn search_hits(
    t: Table,
    ctx: Option<Context>,
    query: Seq<char>,
    limit: int,
    prior: Option<Seq<usize>>,
) -> Seq<Hit> {
    hits_of(top(placed(t, scored(t, ctx, None, query, looked_at(t, prior))), limit))
}

impl NameTable {
    /// Search the table, or only `prior_pool`, and return the best hits with
    /// the pool that a longer query can be searched in.
    pub fn search_ranked_scoped_pooled(
        &self,
        query: &str,
        limit: usize,
        scope: Option<&CompletionScope>,
        prior_pool: Option<&[usize]>,
    ) -> (r: (Vec<RankedNameHit>, Vec<usize>))
        requires
            self.wf(),
            prior_pool is Some ==> valid_ids(self@, prior_pool->0@),
        ensures
            hit_views(r.0@) == search_hits(
                self@,
                context_of(scope),
                query@,
                limit as int,
                opt_ids(prior_pool),
            ),
            r.1@ == pool(self@, None, query@, looked_at(self@, opt_ids(prior_pool))),
    {
        let owned = match scope {
            Some(s) => Some(s.resolve_context()),
            None => None,
        };
        let ctx: Option<&ResolveContext> = match &owned {
            Some(c) => Some(c),
            None => None,
        };
        assert(opt_context(ctx) == context_of(scope));
        match needle_from(query) {
            None => {
                let ranked = self.unmatched_candidates(None, ctx);
                let hits = hits_from(&top_ranked(ranked, limit));
                (hits, Vec::new())
            },
            Some(needle) => {
                let min: i32 = gate_for(&needle);
                let (ranked, pool_out) = match prior_pool {
                    Some(ids) => self.scan_ids(&needle, None, min, ctx, ids),
                    None => self.scan_all(&needle, None, min, ctx),
                };
                (hits_from(&top_ranked(ranked, limit)), pool_out)
            },
        }
    }

    /// Search the table in a scope. Scopes reorder hits; they drop none.
    pub fn search_ranked_scoped(
        &self,
        query: &str,
        limit: usize,
        scope: Option<&CompletionScope>,
    ) -> (r: Vec<RankedNameHit>)
        requires
            self.wf(),
        ensures
            hit_views(r@) == search_hits(self@, context_of(scope), query@, limit as int, None),
    {
        self.search_ranked_scoped_pooled(query, limit, scope, None).0
    }
}

// ---------------------------------------------------------------------------
// Prefixes

/// The segment of slot `i`: the last of the first `n` that starts at or before
/// it.
pub open spec fn segment_of(t: Table, i: int, n: int) -> int
    decreases n,
{
    if n <= 1 {
        0
    } else if t.starts[n - 1] <= i {
        n - 1
    } else {
        segment_of(t, i, n - 1)
    }
}

/// A slot by which prefix matches are ordered.
pub struct Spelled {
    pub lower: Seq<u8>,
    pub name: Seq<char>,
    pub segment: int,
    pub family: SemanticFamily,
    pub index: usize,
}

pub struct SpelledRef<'a> {
    pub lower: &'a [u8],
    pub name: &'a str,
    pub segment: usize,
    pub family: SemanticFamily,
    pub index: usize,
}

impl<'a> View for SpelledRef<'a> {
    type V = Spelled;

    open spec fn view(&self) -> Spelled {
        Spelled {
            lower: self.lower@,
            name: self.name@,
            segment: self.segment as int,
            family: self.family,
            index: self.index,
        }
    }
}

/// Slots by folded spelling, then by spelling, segment, family and place.
pub struct SpellingOrder;

impl Order<Spelled> for SpellingOrder {
    open spec fn before(a: Spelled, b: Spelled) -> bool {
        if a.lower != b.lower {
            bytes_before(a.lower, b.lower)
        } else if a.name != b.name {
            text_before(a.name, b.name)
        } else if a.segment != b.segment {
            a.segment < b.segment
        } else if a.family != b.family {
            a.family == SemanticFamily::CFamily
        } else {
            a.index < b.index
        }
    }
}

impl<'a> Order<SpelledRef<'a>> for SpellingOrder {
    open spec fn before(a: SpelledRef<'a>, b: SpelledRef<'a>) -> bool {
        <SpellingOrder as Order<Spelled>>::before(a@, b@)
    }
}

impl<'a> Ordered<SpelledRef<'a>> for SpellingOrder {
    fn is_before(a: &SpelledRef<'a>, b: &SpelledRef<'a>) -> (r: bool) {
        if !same_bytes(a.lower, b.lower) {
            is_bytes_before(a.lower, b.lower)
        } else if !same_text(a.name, b.name) {
            is_text_before(a.name, b.name)
        } else if a.segment != b.segment {
            a.segment < b.segment
        } else if a.family != b.family {
            a.family == SemanticFamily::CFamily
        } else {
            a.index < b.index
        }
    }
}

/// The order of prefix matches is a strict weak order.
pub proof fn spelling_order_is_strict_weak()
    ensures
        strict_weak::<Spelled, SpellingOrder>(),
        strict_weak::<SpelledRef, SpellingOrder>(),
{
    assert forall|a: Spelled, b: Spelled|
        <SpellingOrder as Order<Spelled>>::before(a, b) implies !#[trigger] <SpellingOrder as Order<
        Spelled,
    >>::before(b, a) by {
        bytes_before_is_total(a.lower, b.lower);
        text_before_is_total(a.name, b.name);
    }
    assert forall|a: Spelled, b: Spelled, c: Spelled|
        !(#[trigger] <SpellingOrder as Order<Spelled>>::before(a, b))
            && !(#[trigger] <SpellingOrder as Order<Spelled>>::before(
            b,
            c,
        )) implies !<SpellingOrder as Order<Spelled>>::before(a, c) by {
        bytes_before_is_total(a.lower, b.lower);
        bytes_before_is_total(b.lower, c.lower);
        bytes_before_is_total(a.lower, c.lower);
        text_before_is_total(a.name, b.name);
        text_before_is_total(b.name, c.name);
        text_before_is_total(a.name, c.name);
        if bytes_before(b.lower, a.lower) && bytes_before(c.lower, b.lower) {
            bytes_before_is_transitive(c.lower, b.lower, a.lower);
        }
        if text_before(b.name, a.name) && text_before(c.name, b.name) {
            text_before_is_transitive(c.name, b.name, a.name);
        }
    }
    assert forall|a: SpelledRef, b: SpelledRef|
        <SpellingOrder as Order<SpelledRef>>::before(
            a,
            b,
        ) implies !#[trigger] <SpellingOrder as Order<SpelledRef>>::before(b, a) by {
        assert(!<SpellingOrder as Order<Spelled>>::before(b@, a@));
    }
    assert forall|a: SpelledRef, b: SpelledRef, c: SpelledRef|
        !(#[trigger] <SpellingOrder as Order<SpelledRef>>::before(a, b))
            && !(#[trigger] <SpellingOrder as Order<SpelledRef>>::before(
            b,
            c,
        )) implies !<SpellingOrder as Order<SpelledRef>>::before(a, c) by {
        assert(!<SpellingOrder as Order<Spelled>>::before(a@, b@));
        assert(!<SpellingOrder as Order<Spelled>>::before(b@, c@));
    }
}

pub open spec fn spelled(t: Table, i: int) -> Spelled {
    Spelled {
        lower: folded(t.slots[i].name),
        name: t.slots[i].name,
        segment: segment_of(t, i, t.starts.len() as int),
        family: t.slots[i].family,
        index: i as usize,
    }
}

/// Slot `i` is active and its folded name starts with `needle`.
pub open spec fn prefixed(t: Table, needle: Seq<u8>, i: int) -> bool {
    t.is_active(i) && occurs_at(folded(t.slots[i].name), needle, 0)
}

/// The slots below `n` whose names start with `needle`.
pub open spec fn prefixed_below(t: Table, needle: Seq<u8>, n: int) -> Seq<Spelled>
    decreases n,
{
    if n <= 0 {
        Seq::empty()
    } else if prefixed(t, needle, n - 1) {
        prefixed_below(t, needle, n - 1).push(spelled(t, n - 1))
    } else {
        prefixed_below(t, needle, n - 1)
    }
}

pub open spec fn indices_of(s: Seq<Spelled>) -> Seq<usize> {
    Seq::new(s.len(), |i: int| s[i].index)
}

/// All slots whose names start with `needle`, by spelling.
pub open spec fn prefix_slots(t: Table, needle: Seq<u8>) -> Seq<usize> {
    if needle.len() == 0 {
        Seq::empty()
    } else {
        indices_of(
            stable_sort::<Spelled, SpellingOrder>(
                prefixed_below(t, needle, t.slots.len() as int),
            ),
        )
    }
}

pub open spec fn spelled_views(s: Seq<SpelledRef>) -> Seq<Spelled> {
    s.map_values(|r: SpelledRef| r@)
}

proof fn segment_is_last(t: NameTable, i: int, r: int, n: int)
    requires
        t.wf(),
        0 <= r < n <= t@.starts.len(),
        t@.starts[r] <= i,
        r + 1 < t@.starts.len() ==> i < t@.starts[r + 1],
    ensures
        segment_of(t@, i, n) == r,
    decreases n,
{
    if n > r + 1 {
        slots_monotone(t, r + 1, n - 1);
        segment_is_last(t, i, r, n - 1);
    }
}

/// `a` stands at or before `b` in byte order, compared from `i` on, and `b`
/// starts with `needle`, which `a` does not stand before: so does `a`.
proof fn prefix_between(a: Seq<u8>, b: Seq<u8>, needle: Seq<u8>, i: int)
    requires
        0 <= i <= needle.len(),
        i <= a.len(),
        needle.len() <= b.len(),
        forall|k: int| 0 <= k < needle.len() ==> b[k] == needle[k],
        forall|k: int| 0 <= k < i ==> a[k] == needle[k],
        !bytes_before_from(a, needle, i),
        !bytes_before_from(b, a, i),
    ensures
        occurs_at(a, needle, 0),
    decreases needle.len() - i,
{
    if i == needle.len() {
        assert(a.subrange(0, needle.len() as int) =~= needle);
    } else {
        assert(b[i] == needle[i]);
        assert(i < a.len());
        assert(a[i] == needle[i]);
        prefix_between(a, b, needle, i + 1);
    }
}

/// A text that starts with `needle` does not stand before it.
proof fn prefix_not_before(a: Seq<u8>, needle: Seq<u8>, i: int)
    requires
        0 <= i <= needle.len(),
        needle.len() <= a.len(),
        forall|k: int| 0 <= k < needle.len() ==> a[k] == needle[k],
    ensures
        !bytes_before_from(a, needle, i),
    decreases needle.len() - i,
{
    if i < needle.len() {
        prefix_not_before(a, needle, i + 1);
    }
}

proof fn occurs_bytes(a: Seq<u8>, needle: Seq<u8>)
    requires
        occurs_at(a, needle, 0),
    ensures
        forall|k: int| 0 <= k < needle.len() ==> a[k] == needle[k],
{
    assert forall|k: int| 0 <= k < needle.len() implies a[k] == needle[k] by {
        assert(a.subrange(0, needle.len() as int)[k] == needle[k]);
    }
}

proof fn family_spelled_facts(names: Seq<Name>, family: SemanticFamily, n: int)
    requires
        0 <= n <= names.len() <= usize::MAX,
    ensures
        ({
            let s = family_spelled(names, family, n);
            &&& forall|k: int|
                0 <= k < s.len() ==> (#[trigger] s[k]).index < n && s[k] == local_spelled(
                    names,
                    s[k].index as int,
                ) && s[k].family == family
            &&& forall|a: int, b: int|
                0 <= a < b < s.len() ==> (#[trigger] s[a]).index < (#[trigger] s[b]).index
            &&& forall|i: int|
                0 <= i < n && (#[trigger] names[i]).family == family ==> s.contains(
                    local_spelled(names, i),
                )
        }),
    decreases n,
{
    if n > 0 {
        family_spelled_facts(names, family, n - 1);
        let before = family_spelled(names, family, n - 1);
        let s = family_spelled(names, family, n);
        if names[n - 1].family == family {
            assert(s.last() == local_spelled(names, n - 1));
            assert(s.contains(s.last()));
            assert forall|i: int| 0 <= i < n && (
            #[trigger] names[i]).family == family implies s.contains(local_spelled(names, i)) by {
                if i < n - 1 {
                    assert(before.contains(local_spelled(names, i)));
                    let k = choose|k: int|
                        0 <= k < before.len() && before[k] == local_spelled(names, i);
                    assert(s[k] == local_spelled(names, i));
                }
            }
        }
    }
}

/// The order of a family by spelling: each of its declarations once, folded
/// names not decreasing.
pub proof fn by_spelling_facts(names: Seq<Name>, family: SemanticFamily)
    requires
        names.len() <= usize::MAX,
    ensures
        ({
            let ids = by_spelling(names, family);
            &&& forall|k: int|
                0 <= k < ids.len() ==> (#[trigger] ids[k]) < names.len()
                    && names[ids[k] as int].family == family
            &&& ids.no_duplicates()
            &&& forall|i: int|
                0 <= i < names.len() && (#[trigger] names[i]).family == family ==> ids.contains(
                    i as usize,
                )
            &&& forall|a: int, b: int|
                0 <= a < b < ids.len() ==> !bytes_before(
                    folded(names[(#[trigger] ids[b]) as int].name),
                    folded(names[(#[trigger] ids[a]) as int].name),
                )
        }),
{
    broadcast use vstd::seq_lib::group_to_multiset_ensures;

    let s = family_spelled(names, family, names.len() as int);
    let sorted = stable_sort::<Spelled, SpellingOrder>(s);
    let ids = by_spelling(names, family);
    family_spelled_facts(names, family, names.len() as int);
    spelling_order_is_strict_weak();
    stable_sort_is_permutation::<Spelled, SpellingOrder>(s);
    stable_sort_is_in_order::<Spelled, SpellingOrder>(s);
    assert(s.no_duplicates()) by {
        assert forall|a: int, b: int|
            0 <= a < s.len() && 0 <= b < s.len() && a != b implies s[a] != s[b] by {
            if a < b {
                assert(s[a].index < s[b].index);
            } else {
                assert(s[b].index < s[a].index);
            }
        }
    }
    s.lemma_multiset_has_no_duplicates();
    sorted.lemma_multiset_has_no_duplicates_conv();
    assert forall|k: int| 0 <= k < ids.len() implies (#[trigger] ids[k]) < names.len()
        && names[ids[k] as int].family == family && sorted[k] == local_spelled(
        names,
        ids[k] as int,
    ) by {
        same_multiset_member(sorted, s, k);
        let j = choose|j: int| 0 <= j < s.len() && s[j] == sorted[k];
        assert(s[j].index < names.len());
    }
    assert(ids.no_duplicates()) by {
        assert forall|a: int, b: int|
            0 <= a < ids.len() && 0 <= b < ids.len() && a != b implies ids[a] != ids[b] by {
            assert(sorted[a] == local_spelled(names, ids[a] as int));
            assert(sorted[b] == local_spelled(names, ids[b] as int));
            assert(sorted[a] != sorted[b]);
        }
    }
    assert forall|i: int| 0 <= i < names.len() && (
    #[trigger] names[i]).family == family implies ids.contains(i as usize) by {
        let x = local_spelled(names, i);
        assert(s.contains(x));
        assert(s.to_multiset().count(x) > 0);
        assert(sorted.contains(x));
        let k = choose|k: int| 0 <= k < sorted.len() && sorted[k] == x;
        assert(ids[k] == i as usize);
    }
    assert forall|a: int, b: int| 0 <= a < b < ids.len() implies !bytes_before(
        folded(names[(#[trigger] ids[b]) as int].name),
        folded(names[(#[trigger] ids[a]) as int].name),
    ) by {
        assert(sorted[a] == local_spelled(names, ids[a] as int));
        assert(sorted[b] == local_spelled(names, ids[b] as int));
        assert(!<SpellingOrder as Order<Spelled>>::before(sorted[b], sorted[a]));
        bytes_before_is_total(sorted[b].lower, sorted[a].lower);
    }
}

/// Slot `i` is in segment `k`, of the family, and starts with `needle`.
pub open spec fn found_in(
    t: NameTable,
    needle: Seq<u8>,
    k: int,
    family: SemanticFamily,
    i: int,
) -> bool {
    &&& t.slots_below(k).len() <= i < t.slots_below(k + 1).len()
    &&& t@.slots[i].family == family
    &&& prefixed(t@, needle, i)
}

/// `s` holds exactly the slots that pass a test, each once, by its spelling.
pub open spec fn holds_slots(t: Table, s: Seq<Spelled>, test: spec_fn(int) -> bool) -> bool {
    &&& forall|a: int|
        0 <= a < s.len() ==> test((#[trigger] s[a]).index as int) && s[a].index < t.slots.len()
            && s[a] == spelled(t, s[a].index as int)
    &&& forall|a: int, b: int|
        0 <= a < s.len() && 0 <= b < s.len() && a != b ==> (#[trigger] s[a]).index != (
        #[trigger] s[b]).index
    &&& forall|i: int|
        0 <= i < t.slots.len() && #[trigger] test(i) ==> exists|a: int|
            0 <= a < s.len() && (#[trigger] s[a]).index == i
}

proof fn prefixed_facts(t: Table, needle: Seq<u8>, n: int)
    requires
        0 <= n <= t.slots.len() <= usize::MAX,
    ensures
        holds_slots(t, prefixed_below(t, needle, n), |i: int| i < n && prefixed(t, needle, i)),
    decreases n,
{
    let s = prefixed_below(t, needle, n);
    let test = |i: int| i < n && prefixed(t, needle, i);
    if n > 0 {
        prefixed_facts(t, needle, n - 1);
        let before = prefixed_below(t, needle, n - 1);
        let shorter = |i: int| i < n - 1 && prefixed(t, needle, i);
        assert forall|a: int| 0 <= a < s.len() implies test((#[trigger] s[a]).index as int)
            && s[a].index < t.slots.len() && s[a] == spelled(t, s[a].index as int) by {
            if a < before.len() {
                assert(s[a] == before[a]);
                assert(shorter(before[a].index as int));
            }
        }
        assert forall|a: int, b: int|
            0 <= a < s.len() && 0 <= b < s.len() && a != b implies (#[trigger] s[a]).index != (
        #[trigger] s[b]).index by {
            if a < before.len() {
                assert(s[a] == before[a]);
                assert(shorter(before[a].index as int));
            }
            if b < before.len() {
                assert(s[b] == before[b]);
                assert(shorter(before[b].index as int));
            }
        }
        assert forall|i: int| 0 <= i < t.slots.len() && #[trigger] test(i) implies exists|a: int|
            0 <= a < s.len() && (#[trigger] s[a]).index == i by {
            if i < n - 1 {
                assert(shorter(i));
                let a = choose|a: int| 0 <= a < before.len() && (#[trigger] before[a]).index == i;
                assert(s[a] == before[a]);
                assert(s[a].index == i);
            } else {
                assert(s[s.len() - 1].index == i);
            }
        }
    }
}

/// The prefix matches of a table: each slot whose name starts with `needle`,
/// once.
pub proof fn prefix_slots_facts(t: Table, needle: Seq<u8>)
    requires
        t.slots.len() <= usize::MAX,
        needle.len() > 0,
    ensures
        prefix_slots(t, needle).no_duplicates(),
        forall|k: int|
            0 <= k < prefix_slots(t, needle).len() ==> prefixed(
                t,
                needle,
                (#[trigger] prefix_slots(t, needle)[k]) as int,
            ),
        forall|i: int| #[trigger]
            prefixed(t, needle, i) ==> prefix_slots(t, needle).contains(i as usize),
{
    broadcast use vstd::seq_lib::group_to_multiset_ensures;

    let n = t.slots.len() as int;
    let s = prefixed_below(t, needle, n);
    let test = |i: int| i < n && prefixed(t, needle, i);
    let sorted = stable_sort::<Spelled, SpellingOrder>(s);
    let ids = prefix_slots(t, needle);
    prefixed_facts(t, needle, n);
    stable_sort_is_permutation::<Spelled, SpellingOrder>(s);
    distinct_slots(t, s, test);
    s.lemma_multiset_has_no_duplicates();
    sorted.lemma_multiset_has_no_duplicates_conv();
    assert forall|k: int| 0 <= k < ids.len() implies prefixed(t, needle, (#[trigger] ids[k]) as int)
        && sorted[k] == spelled(t, ids[k] as int) by {
        same_multiset_member(sorted, s, k);
        let j = choose|j: int| 0 <= j < s.len() && s[j] == sorted[k];
        assert(test(s[j].index as int));
    }
    assert forall|a: int, b: int|
        0 <= a < ids.len() && 0 <= b < ids.len() && a != b implies ids[a] != ids[b] by {
        assert(sorted[a] == spelled(t, ids[a] as int));
        assert(sorted[b] == spelled(t, ids[b] as int));
        assert(sorted[a] != sorted[b]);
    }
    assert forall|i: int| #[trigger] prefixed(t, needle, i) implies ids.contains(i as usize) by {
        assert(test(i));
        let a = choose|a: int| 0 <= a < s.len() && (#[trigger] s[a]).index == i;
        assert(s.to_multiset().count(s[a]) > 0);
        assert(sorted.contains(s[a]));
        let k = choose|k: int| 0 <= k < sorted.len() && sorted[k] == s[a];
        assert(ids[k] == i as usize);
    }
}

/// Sequences that hold the same slots are sorted alike.
proof fn same_slots_sort_alike(
    t: Table,
    a: Seq<Spelled>,
    b: Seq<Spelled>,
    f: spec_fn(int) -> bool,
    g: spec_fn(int) -> bool,
)
    requires
        holds_slots(t, a, f),
        holds_slots(t, b, g),
        forall|i: int| 0 <= i < t.slots.len() ==> #[trigger] f(i) == g(i),
    ensures
        stable_sort::<Spelled, SpellingOrder>(a) == stable_sort::<Spelled, SpellingOrder>(b),
{
    spelling_order_is_strict_weak();
    stable_sort_is_permutation::<Spelled, SpellingOrder>(a);
    stable_sort_is_permutation::<Spelled, SpellingOrder>(b);
    stable_sort_is_in_order::<Spelled, SpellingOrder>(a);
    stable_sort_is_in_order::<Spelled, SpellingOrder>(b);
    same_slots_multiset(t, a, b, f, g);
    assert forall|x: Spelled, y: Spelled|
        !<SpellingOrder as Order<Spelled>>::before(x, y) && !<SpellingOrder as Order<
            Spelled,
        >>::before(y, x) implies x == y by {
        bytes_before_is_total(x.lower, y.lower);
        text_before_is_total(x.name, y.name);
    }
    sorted_is_unique::<Spelled, SpellingOrder>(
        stable_sort::<Spelled, SpellingOrder>(a),
        stable_sort::<Spelled, SpellingOrder>(b),
    );
}

proof fn same_slots_multiset(
    t: Table,
    a: Seq<Spelled>,
    b: Seq<Spelled>,
    f: spec_fn(int) -> bool,
    g: spec_fn(int) -> bool,
)
    requires
        holds_slots(t, a, f),
        holds_slots(t, b, g),
        forall|i: int| 0 <= i < t.slots.len() ==> #[trigger] f(i) == g(i),
    ensures
        a.to_multiset() == b.to_multiset(),
{
    broadcast use vstd::seq_lib::group_to_multiset_ensures;

    distinct_slots(t, a, f);
    distinct_slots(t, b, g);
    assert forall|x: Spelled| #[trigger] a.to_multiset().count(x) == b.to_multiset().count(x) by {
        held_elsewhere(t, a, b, f, g, x);
        held_elsewhere(t, b, a, g, f, x);
        a.lemma_multiset_has_no_duplicates();
        b.lemma_multiset_has_no_duplicates();
    }
    assert(a.to_multiset() =~= b.to_multiset());
}

proof fn distinct_slots(t: Table, a: Seq<Spelled>, f: spec_fn(int) -> bool)
    requires
        holds_slots(t, a, f),
    ensures
        a.no_duplicates(),
{
    assert forall|i: int, j: int|
        0 <= i < a.len() && 0 <= j < a.len() && i != j implies a[i] != a[j] by {
        assert(a[i].index != a[j].index);
    }
}

proof fn held_elsewhere(
    t: Table,
    a: Seq<Spelled>,
    b: Seq<Spelled>,
    f: spec_fn(int) -> bool,
    g: spec_fn(int) -> bool,
    x: Spelled,
)
    requires
        holds_slots(t, a, f),
        holds_slots(t, b, g),
        forall|i: int| 0 <= i < t.slots.len() ==> #[trigger] f(i) == g(i),
    ensures
        a.contains(x) ==> b.contains(x),
{
    if a.contains(x) {
        let k = choose|k: int| 0 <= k < a.len() && a[k] == x;
        assert(f(a[k].index as int));
        assert(g(x.index as int));
        let m = choose|m: int| 0 <= m < b.len() && (#[trigger] b[m]).index == x.index;
        assert(b[m] == spelled(t, b[m].index as int));
        assert(a[k] == spelled(t, a[k].index as int));
        assert(b[m] == x);
    }
}

impl NameTable {
    /// Collect the slots of one segment and family whose folded name starts
    /// with `needle`, found by binary search in the order of spelling.
    fn extend_prefix_matches<'a>(
        &'a self,
        k: usize,
        family: SemanticFamily,
        needle: &[u8],
        found: &mut Vec<SpelledRef<'a>>,
        Ghost(done): Ghost<spec_fn(int) -> bool>,
    )
        requires
            self.wf(),
            k < self.segments(),
            holds_slots(self@, spelled_views(old(found)@), done),
            forall|i: int| #[trigger]
                done(i) ==> !found_in(*self, needle@, k as int, family, i),
        ensures
            holds_slots(
                self@,
                spelled_views(final(found)@),
                |i: int| done(i) || found_in(*self, needle@, k as int, family, i),
            ),
    {
        let part: &IndexedSegment = if k == 0 {
            &self.base
        } else {
            &self.deltas[k - 1]
        };
        assert(*part == self.indexed(k as int));
        assert(self.indexed(k as int).index.describes(self.indexed(k as int).names));
        let offset: usize = if k == 0 {
            proof {
                base_slots(*self);
            }
            0
        } else {
            assert(self.delta_offsets@[k - 1] == self.slots_below(k as int).len());
            self.delta_offsets[k - 1]
        };
        let ghost names = part.names@;
        assert(self.segment(k as int).wf());
        let sorted: &Vec<usize> = &part.index.family(family).sorted;
        proof {
            by_spelling_facts(names, family);
        }
        let start: usize = first_at_least(&part.names, sorted, family, needle);
        let mut p: usize = start;
        let mut more = true;
        let ghost base = spelled_views(found@);
        let ghost seen = |i: int, p: int|
            exists|q: int| start <= q < p && offset + #[trigger] sorted@[q] == i;
        let ghost test = |i: int| done(i) || (prefixed(self@, needle@, i) && seen(i, start as int));
        assert(holds_slots(self@, spelled_views(found@), test));
        while more && p < sorted.len()
            invariant
                self.wf(),
                k < self.segments(),
                *part == self.indexed(k as int),
                part.names.wf(),
                names == part.names@,
                sorted@ == by_spelling(names, family),
                names.len() <= usize::MAX,
                offset == self.slots_below(k as int).len(),
                start <= p <= sorted@.len(),
                forall|q: int|
                    start <= q < p ==> occurs_at(
                        folded(names[(#[trigger] sorted@[q]) as int].name),
                        needle@,
                        0,
                    ),
                forall|q: int|
                    0 <= q < sorted@.len() ==> (#[trigger] sorted@[q]) < names.len()
                        && names[sorted@[q] as int].family == family,
                sorted@.no_duplicates(),
                forall|i: int| #[trigger]
                    done(i) ==> !found_in(*self, needle@, k as int, family, i),
                seen == (|i: int, p: int|
                    exists|q: int| start <= q < p && offset + #[trigger] sorted@[q] == i),
                holds_slots(
                    self@,
                    spelled_views(found@),
                    |i: int| done(i) || (prefixed(self@, needle@, i) && seen(i, p as int)),
                ),
                !more ==> p < sorted@.len() && !occurs_at(
                    folded(names[sorted@[p as int] as int].name),
                    needle@,
                    0,
                ),
            decreases sorted@.len() - p + if more {
                1int
            } else {
                0int
            },
        {
            let local: usize = sorted[p];
            let entry = part.names.entry(local);
            if !matches_at(entry.lower, needle, 0) {
                more = false;
            } else {
                proof {
                    slot_in_segment(*self, k as int, local as int, self.segments());
                    slots_monotone(*self, k + 1, self.segments());
                }
                let index: usize = offset + local;
                let ghost i = index as int;
                let ghost before = spelled_views(found@);
                if self.is_active_index(index) {
                    proof {
                        self.segment_at(k as int, local as int);
                    }
                    let item = SpelledRef {
                        lower: entry.lower,
                        name: entry.name,
                        segment: k,
                        family: entry.semantic_family,
                        index,
                    };
                    let ghost v = item@;
                    found.push(item);
                    assert(spelled_views(found@) =~= before.push(v));
                    assert(v == spelled(self@, i));
                }
                proof {
                    let old_test = |i: int|
                        done(i) || (prefixed(self@, needle@, i) && seen(i, p as int));
                    let new_test = |i: int|
                        done(i) || (prefixed(self@, needle@, i) && seen(i, p + 1));
                    assert(prefixed(self@, needle@, i) == self@.active[i]);
                    assert(seen(i, p + 1)) by {
                        assert(offset + sorted@[p as int] == i);
                    }
                    assert(!seen(i, p as int)) by {
                        if seen(i, p as int) {
                            let q = choose|q: int|
                                start <= q < p && offset + #[trigger] sorted@[q] == i;
                            assert(sorted@[q] == sorted@[p as int]);
                        }
                    }
                    assert(found_in(*self, needle@, k as int, family, i)
                        == self@.active[i]);
                    assert forall|j: int| j != i implies #[trigger] new_test(j) == old_test(j) by {
                        seen_step(sorted@, offset as int, start as int, p as int, j);
                    }
                    if self@.active[i] {
                        assert(!old_test(i));
                        one_more_slot(self@, before, old_test, new_test, i);
                    } else {
                        assert(new_test(i) == old_test(i));
                        same_test(self@, before, old_test, new_test);
                    }
                }
                p = p + 1;
            }
        }
        proof {
            let last = |i: int| done(i) || (prefixed(self@, needle@, i) && seen(i, p as int));
            let want = |i: int| done(i) || found_in(*self, needle@, k as int, family, i);
            assert forall|i: int| 0 <= i < self@.slots.len() implies #[trigger] last(i)
                == want(i) by {
                if found_in(*self, needle@, k as int, family, i) {
                    let local = i - offset;
                    assert(self.slots_below(k + 1) == self.slots_below(k as int) + names);
                    slot_in_segment(*self, k as int, local, self.segments());
                    assert(names[local].family == family);
                    assert(sorted@.contains(local as usize));
                    let q = choose|q: int| 0 <= q < sorted@.len() && sorted@[q] == local as usize;
                    occurs_bytes(folded(names[local].name), needle@);
                    prefix_not_before(folded(names[local].name), needle@, 0);
                    assert(q >= start);
                    if q >= p {
                        let a = folded(names[sorted@[p as int] as int].name);
                        if q > p {
                            assert(!bytes_before(
                                folded(names[sorted@[q] as int].name),
                                folded(names[sorted@[p as int] as int].name),
                            ));
                            prefix_between(a, folded(names[local].name), needle@, 0);
                        }
                        assert(false);
                    }
                    assert(offset + sorted@[q] == i);
                    assert(seen(i, p as int));
                }
                if seen(i, p as int) && prefixed(self@, needle@, i) {
                    let q = choose|q: int| start <= q < p && offset + #[trigger] sorted@[q] == i;
                    let local = sorted@[q] as int;
                    assert(self.slots_below(k + 1) == self.slots_below(k as int) + names);
                    slot_in_segment(*self, k as int, local, self.segments());
                }
            }
            same_test(self@, spelled_views(found@), last, want);
        }
    }

    /// The segment of a slot by its place.
    proof fn segment_at(self, k: int, j: int)
        requires
            self.wf(),
            0 <= k < self.segments(),
            0 <= j < self.segment(k)@.len(),
        ensures
            segment_of(self@, self.slots_below(k).len() + j, self@.starts.len() as int) == k,
    {
        assert(self.slots_below(k + 1) == self.slots_below(k) + self.segment(k)@);
        segment_is_last(self, self.slots_below(k).len() + j, k, self@.starts.len() as int);
    }

    /// Slots whose folded name starts with `needle_lower`, by spelling.
    pub fn prefix_indices(&self, needle: &[u8]) -> (r: Vec<usize>)
        requires
            self.wf(),
        ensures
            r@ == prefix_slots(self@, needle@),
            valid_ids(self@, r@),
    {
        let mut out: Vec<usize> = Vec::new();
        if needle.len() == 0 {
            assert(out@ =~= prefix_slots(self@, needle@));
            return out;
        }
        let mut found: Vec<SpelledRef> = Vec::new();
        let segments: usize = self.deltas.len();
        let ghost upto = |k: int, i: int|
            i < self.slots_below(k).len() && prefixed(self@, needle@, i);
        let mut k: usize = 0;
        let mut all = false;
        proof {
            base_slots(*self);
            assert(spelled_views(found@) =~= Seq::empty());
            assert(holds_slots(self@, spelled_views(found@), |i: int| upto(0, i)));
        }
        while !all
            invariant
                self.wf(),
                segments == self.deltas@.len(),
                k <= segments,
                all ==> k == segments,
                upto == (|k: int, i: int|
                    i < self.slots_below(k).len() && prefixed(self@, needle@, i)),
                holds_slots(
                    self@,
                    spelled_views(found@),
                    |i: int| upto(if all { k + 1 } else { k as int }, i),
                ),
            decreases segments - k + if all {
                0int
            } else {
                1int
            },
        {
            let ghost before = |i: int| upto(k as int, i);
            assert(self.slots_below(k + 1) == self.slots_below(k as int) + self.segment(
                k as int,
            )@);
            self.extend_prefix_matches(
                k,
                SemanticFamily::CFamily,
                needle,
                &mut found,
                Ghost(before),
            );
            let ghost half = |i: int|
                before(i) || found_in(
                    *self,
                    needle@,
                    k as int,
                    SemanticFamily::CFamily,
                    i,
                );
            self.extend_prefix_matches(k, SemanticFamily::Go, needle, &mut found, Ghost(half));
            proof {
                let whole = |i: int|
                    half(i) || found_in(*self, needle@, k as int, SemanticFamily::Go, i);
                let want = |i: int| upto(k + 1, i);
                assert forall|i: int| 0 <= i < self@.slots.len() implies #[trigger] whole(i)
                    == want(i) by {}
                same_test(self@, spelled_views(found@), whole, want);
            }
            if k == segments {
                all = true;
                proof {
                    same_test(
                        self@,
                        spelled_views(found@),
                        |i: int| upto(k + 1, i),
                        |i: int| upto(if all { k + 1 } else { k as int }, i),
                    );
                }
            } else {
                k = k + 1;
                proof {
                    same_test(
                        self@,
                        spelled_views(found@),
                        |i: int| upto(k as int, i),
                        |i: int| upto(if all { k + 1 } else { k as int }, i),
                    );
                }
            }
        }
        let ghost unsorted = found@;
        proof {
            let total = self@.slots.len() as int;
            assert(self.slots_below(segments + 1).len() == total);
            prefixed_facts(self@, needle@, total);
            same_slots_sort_alike(
                self@,
                spelled_views(found@),
                prefixed_below(self@, needle@, total),
                |i: int| upto(if all { k + 1 } else { k as int }, i),
                |i: int| i < total && prefixed(self@, needle@, i),
            );
            spelling_order_is_strict_weak();
            stable_sort_maps::<SpelledRef, Spelled, SpellingOrder, SpellingOrder>(
                found@,
                |r: SpelledRef| r@,
            );
            assert forall|j: int| 0 <= j < unsorted.len() implies (#[trigger] unsorted[j]).index
                < self.slot_len by {
                assert(spelled_views(unsorted)[j] == unsorted[j]@);
            }
        }
        let sorted = sort_merging::<SpelledRef, SpellingOrder>(found);
        proof {
            stable_sort_is_permutation::<SpelledRef, SpellingOrder>(unsorted);
        }
        let ghost order = spelled_views(sorted@);
        let mut k: usize = 0;
        while k < sorted.len()
            invariant
                k <= sorted@.len(),
                order == spelled_views(sorted@),
                sorted@.to_multiset() == unsorted.to_multiset(),
                forall|j: int|
                    0 <= j < unsorted.len() ==> (#[trigger] unsorted[j]).index < self.slot_len,
                self.slot_len == self@.slots.len(),
                out@ == indices_of(order).subrange(0, k as int),
                valid_ids(self@, out@),
            decreases sorted@.len() - k,
        {
            proof {
                same_multiset_member(sorted@, unsorted, k as int);
                assert(order[k as int] == sorted@[k as int]@);
            }
            out.push(sorted[k].index);
            k = k + 1;
            assert(out@ =~= indices_of(order).subrange(0, k as int));
        }
        assert(out@ =~= prefix_slots(self@, needle@));
        out
    }

    /// Slots whose folded name starts with `needle_lower`, by spelling.
    pub fn prefix_candidates(&self, needle_lower: &str) -> (r: Vec<usize>)
        requires
            self.wf(),
        ensures
            r@ == prefix_slots(self@, encode_utf8(needle_lower@)),
    {
        self.prefix_indices(needle_lower.as_bytes())
    }

    /// Rank given slots.
    fn rank_indices(
        &self,
        needle: &[u8],
        limit: usize,
        ctx: Option<&ResolveContext>,
        ids: &[usize],
    ) -> (r: Vec<RankedNameHit>)
        requires
            self.wf(),
            valid_ids(self@, ids@),
        ensures
            hit_views(r@) == ranked_hits(self@, opt_context(ctx), needle@, limit as int, ids@),
    {
        let (ranked, _) = self.scan_ids(needle, None, 0, ctx, ids);
        hits_from(&top_ranked(ranked, limit))
    }
}

/// The best hits among given slots.
pub open spec fn ranked_hits(
    t: Table,
    ctx: Option<Context>,
    needle: Seq<u8>,
    limit: int,
    ids: Seq<usize>,
) -> Seq<Hit> {
    hits_of(top(placed(t, scored_below(t, ctx, None, needle, 0, ids, ids.len() as int)), limit))
}

/// First place of an order by spelling whose name does not stand before
/// `needle`.
fn first_at_least(
    names: &NameSegment,
    sorted: &Vec<usize>,
    family: SemanticFamily,
    needle: &[u8],
) -> (r: usize)
    requires
        names.wf(),
        sorted@ == by_spelling(names@, family),
    ensures
        r <= sorted@.len(),
        forall|q: int|
            0 <= q < r ==> bytes_before(
                folded(names@[(#[trigger] sorted@[q]) as int].name),
                needle@,
            ),
        forall|q: int|
            r <= q < sorted@.len() ==> !bytes_before(
                folded(names@[(#[trigger] sorted@[q]) as int].name),
                needle@,
            ),
{
    proof {
        by_spelling_facts(names@, family);
    }
    let mut low: usize = 0;
    let mut high: usize = sorted.len();
    while low < high
        invariant
            names.wf(),
            low <= high <= sorted@.len(),
            forall|k: int| 0 <= k < sorted@.len() ==> (#[trigger] sorted@[k]) < names@.len(),
            forall|a: int, b: int|
                0 <= a < b < sorted@.len() ==> !bytes_before(
                    folded(names@[(#[trigger] sorted@[b]) as int].name),
                    folded(names@[(#[trigger] sorted@[a]) as int].name),
                ),
            forall|q: int|
                0 <= q < low ==> bytes_before(
                    folded(names@[(#[trigger] sorted@[q]) as int].name),
                    needle@,
                ),
            forall|q: int|
                high <= q < sorted@.len() ==> !bytes_before(
                    folded(names@[(#[trigger] sorted@[q]) as int].name),
                    needle@,
                ),
        decreases high - low,
    {
        let middle: usize = low + (high - low) / 2;
        let entry = names.entry(sorted[middle]);
        let ghost m = folded(names@[sorted@[middle as int] as int].name);
        if is_bytes_before(entry.lower, needle) {
            proof {
                assert forall|q: int| 0 <= q < middle + 1 implies bytes_before(
                    folded(names@[(#[trigger] sorted@[q]) as int].name),
                    needle@,
                ) by {
                    if q < middle {
                        let a = folded(names@[sorted@[q] as int].name);
                        assert(!bytes_before(
                            folded(names@[sorted@[middle as int] as int].name),
                            folded(names@[sorted@[q] as int].name),
                        ));
                        bytes_before_is_total(a, m);
                        if bytes_before(a, m) {
                            bytes_before_is_transitive(a, m, needle@);
                        }
                    }
                }
            }
            low = middle + 1;
        } else {
            proof {
                assert forall|q: int| middle <= q < sorted@.len() implies !bytes_before(
                    folded(names@[(#[trigger] sorted@[q]) as int].name),
                    needle@,
                ) by {
                    if q > middle {
                        let b = folded(names@[sorted@[q] as int].name);
                        assert(!bytes_before(
                            folded(names@[sorted@[q] as int].name),
                            folded(names@[sorted@[middle as int] as int].name),
                        ));
                        bytes_before_is_total(b, m);
                        bytes_before_is_total(b, needle@);
                        if bytes_before(b, needle@) && bytes_before(m, b) {
                            bytes_before_is_transitive(m, b, needle@);
                        }
                    }
                }
            }
            high = middle;
        }
    }
    low
}

proof fn seen_step(sorted: Seq<usize>, offset: int, start: int, p: int, j: int)
    requires
        0 <= start <= p < sorted.len(),
        j != offset + sorted[p],
    ensures
        (exists|q: int| start <= q < p + 1 && offset + #[trigger] sorted[q] == j) == (exists|q: int|
            start <= q < p && offset + #[trigger] sorted[q] == j),
{
    if exists|q: int| start <= q < p + 1 && offset + #[trigger] sorted[q] == j {
        let q = choose|q: int| start <= q < p + 1 && offset + #[trigger] sorted[q] == j;
        assert(offset + sorted[q] == j);
    }
    if exists|q: int| start <= q < p && offset + #[trigger] sorted[q] == j {
        let q = choose|q: int| start <= q < p && offset + #[trigger] sorted[q] == j;
        assert(offset + sorted[q] == j);
    }
}

proof fn same_test(
    t: Table,
    s: Seq<Spelled>,
    f: spec_fn(int) -> bool,
    g: spec_fn(int) -> bool,
)
    requires
        holds_slots(t, s, f),
        forall|i: int| 0 <= i < t.slots.len() ==> #[trigger] f(i) == g(i),
    ensures
        holds_slots(t, s, g),
{
    assert forall|a: int| 0 <= a < s.len() implies g((#[trigger] s[a]).index as int) && s[a].index
        < t.slots.len() && s[a] == spelled(t, s[a].index as int) by {
        assert(f(s[a].index as int));
    }
    assert forall|i: int| 0 <= i < t.slots.len() && #[trigger] g(i) implies exists|a: int|
        0 <= a < s.len() && (#[trigger] s[a]).index == i by {
        assert(f(i));
    }
}

proof fn one_more_slot(
    t: Table,
    s: Seq<Spelled>,
    f: spec_fn(int) -> bool,
    g: spec_fn(int) -> bool,
    i: int,
)
    requires
        holds_slots(t, s, f),
        0 <= i < t.slots.len() <= usize::MAX,
        !f(i),
        g(i),
        forall|j: int| j != i ==> #[trigger] g(j) == f(j),
    ensures
        holds_slots(t, s.push(spelled(t, i)), g),
{
    let r = s.push(spelled(t, i));
    assert forall|a: int| 0 <= a < r.len() implies g((#[trigger] r[a]).index as int) && r[a].index
        < t.slots.len() && r[a] == spelled(t, r[a].index as int) by {
        if a < s.len() {
            assert(r[a] == s[a]);
            assert(f(s[a].index as int));
            assert(g(s[a].index as int));
        }
    }
    assert forall|a: int, b: int|
        0 <= a < r.len() && 0 <= b < r.len() && a != b implies (#[trigger] r[a]).index != (
    #[trigger] r[b]).index by {
        if a < s.len() {
            assert(r[a] == s[a]);
            assert(f(s[a].index as int));
        }
        if b < s.len() {
            assert(r[b] == s[b]);
            assert(f(s[b].index as int));
        }
    }
    assert forall|j: int| 0 <= j < t.slots.len() && #[trigger] g(j) implies exists|a: int|
        0 <= a < r.len() && (#[trigger] r[a]).index == j by {
        if j == i {
            assert(r[s.len() as int].index == j);
        } else {
            assert(f(j));
            let a = choose|a: int| 0 <= a < s.len() && (#[trigger] s[a]).index == j;
            assert(r[a].index == j);
        }
    }
}

pub proof fn same_multiset_member<T>(a: Seq<T>, b: Seq<T>, k: int)
    requires
        a.to_multiset() == b.to_multiset(),
        0 <= k < a.len(),
    ensures
        exists|j: int| 0 <= j < b.len() && b[j] == a[k],
{
    broadcast use vstd::seq_lib::group_to_multiset_ensures;

    assert(a.contains(a[k]));
    assert(a.to_multiset().count(a[k]) > 0);
    assert(b.to_multiset().count(a[k]) > 0);
    assert(b.contains(a[k]));
}

/// The slots among the first `n` of `ids` whose folded name is `needle`.
pub open spec fn exact_below(
    t: Table,
    family: Option<SemanticFamily>,
    needle: Seq<u8>,
    ids: Seq<usize>,
    n: int,
) -> Seq<usize>
    decreases n,
{
    if n <= 0 {
        Seq::empty()
    } else {
        let i = ids[n - 1] as int;
        if folded(t.slots[i].name) == needle && in_family(t, family, i) {
            exact_below(t, family, needle, ids, n - 1).push(ids[n - 1])
        } else {
            exact_below(t, family, needle, ids, n - 1)
        }
    }
}

/// The hits whose name is `name`, ASCII case aside.
pub open spec fn exact_hits(
    t: Table,
    ctx: Option<Context>,
    family: Option<SemanticFamily>,
    name: Seq<char>,
    limit: int,
) -> Seq<Hit> {
    if name.len() == 0 || limit == 0 {
        Seq::empty()
    } else {
        let slots = prefix_slots(t, folded(name));
        ranked_hits(
            t,
            ctx,
            folded(name),
            limit,
            exact_below(t, family, folded(name), slots, slots.len() as int),
        )
    }
}

impl NameTable {
    fn exact_name_hits_scoped_filtered(
        &self,
        name: &str,
        limit: usize,
        scope: Option<&CompletionScope>,
        family: Option<SemanticFamily>,
    ) -> (r: Vec<RankedNameHit>)
        requires
            self.wf(),
        ensures
            hit_views(r@) == exact_hits(self@, context_of(scope), family, name@, limit as int),
    {
        if name.is_empty() || limit == 0 {
            let r: Vec<RankedNameHit> = Vec::new();
            assert(hit_views(r@) =~= Seq::empty());
            return r;
        }
        let needle = lower_bytes(name.as_bytes());
        let slots = self.prefix_indices(&needle);
        let mut ids: Vec<usize> = Vec::new();
        let mut i: usize = 0;
        while i < slots.len()
            invariant
                self.wf(),
                i <= slots@.len(),
                needle@ == folded(name@),
                valid_ids(self@, slots@),
                valid_ids(self@, ids@),
                ids@ == exact_below(self@, family, needle@, slots@, i as int),
            decreases slots@.len() - i,
        {
            let entry = self.entry(slots[i]);
            let wanted = match family {
                Some(f) => entry.semantic_family == f,
                None => true,
            };
            if wanted && same_bytes(entry.lower, &needle) {
                ids.push(slots[i]);
            }
            i = i + 1;
        }
        let owned = match scope {
            Some(s) => Some(s.resolve_context()),
            None => None,
        };
        let ctx: Option<&ResolveContext> = match &owned {
            Some(c) => Some(c),
            None => None,
        };
        assert(opt_context(ctx) == context_of(scope));
        self.rank_indices(&needle, limit, ctx, &ids)
    }

    pub fn exact_name_hits_scoped(
        &self,
        name: &str,
        limit: usize,
        scope: Option<&CompletionScope>,
    ) -> (r: Vec<RankedNameHit>)
        requires
            self.wf(),
        ensures
            hit_views(r@) == exact_hits(self@, context_of(scope), None, name@, limit as int),
    {
        self.exact_name_hits_scoped_filtered(name, limit, scope, None)
    }

    pub fn exact_name_hits_scoped_for_family(
        &self,
        name: &str,
        limit: usize,
        scope: Option<&CompletionScope>,
        semantic_family: SemanticFamily,
    ) -> (r: Vec<RankedNameHit>)
        requires
            self.wf(),
        ensures
            hit_views(r@) == exact_hits(
                self@,
                context_of(scope),
                Some(semantic_family),
                name@,
                limit as int,
            ),
    {
        self.exact_name_hits_scoped_filtered(name, limit, scope, Some(semantic_family))
    }
}

impl NameTable {
    /// Whether a declaration stands in a first-layer external header.
    fn has_first_layer_external(&self) -> (r: bool)
        requires
            self.wf(),
        ensures
            !r ==> forall|i: int|
                0 <= i < self@.slots.len() ==> !self@.direct_for(#[trigger] self@.slots[i]),
    {
        let mut i: usize = 0;
        while i < self.slot_len
            invariant
                self.wf(),
                i <= self.slot_len,
                forall|k: int| 0 <= k < i ==> !self@.direct_for(#[trigger] self@.slots[k]),
            decreases self.slot_len - i,
        {
            let entry = self.entry(i);
            if self.directly_included_for(&entry) {
                return true;
            }
            i = i + 1;
        }
        false
    }

    /// Search without a scope: the hits of a search of the whole table. Where
    /// prefix matches fill the limit and no other match can be of a stronger
    /// tier, only they are looked at.
    pub fn search_ranked(&self, query: &str, limit: usize) -> (r: Vec<RankedNameHit>)
        requires
            self.wf(),
        ensures
            hit_views(r@) == search_hits(self@, None, query@, limit as int, None),
    {
        match needle_from(query) {
            Some(needle) => {
                if limit > 0 {
                    let slots = self.prefix_indices(&needle);
                    if slots.len() >= limit {
                        let hits = self.rank_indices(&needle, limit, None, &slots);
                        let last: usize = limit - 1;
                        if last < hits.len() && (hits[last].tier == ScopeTier::External
                            || !self.has_first_layer_external()) {
                            proof {
                                assert(hit_views(hits@)[last as int] == hits@[last as int]@);
                                prefix_search_is_full_search(self@, query@, limit as int);
                            }
                            return hits;
                        }
                    }
                }
            },
            None => {},
        }
        self.search_ranked_scoped(query, limit, None)
    }

    /// The ids of an unscoped search, best match first.
    pub fn search(&self, query: &str, limit: usize) -> (r: Vec<i64>)
        requires
            self.wf(),
        ensures
            r@ == Seq::new(
                search_hits(self@, None, query@, limit as int, None).len(),
                |i: int| search_hits(self@, None, query@, limit as int, None)[i].id,
            ),
    {
        let hits = self.search_ranked(query, limit);
        let ghost want = search_hits(self@, None, query@, limit as int, None);
        let mut out: Vec<i64> = Vec::new();
        let mut i: usize = 0;
        while i < hits.len()
            invariant
                i <= hits@.len(),
                hit_views(hits@) == want,
                out@.len() == i,
                forall|k: int| 0 <= k < i ==> out@[k] == want[k].id,
            decreases hits@.len() - i,
        {
            assert(want[i as int] == hits@[i as int]@);
            out.push(hits[i].id);
            i = i + 1;
        }
        assert(out@ =~= Seq::new(want.len(), |i: int| want[i].id));
        out
    }
}

} // verus!
