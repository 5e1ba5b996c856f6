//! Ranking of definition candidates.

use vstd::prelude::*;

use crate::callables::counterpart::{is_source_path, source_path};
use crate::chars::same_text;
use crate::model::{
    tier_rank_is_injective, CandidateRange, DefinitionCandidate, ScopeTier,
};
use crate::order::{
    is_text_before, sort_stable, stable_sort, stable_sort_is_in_order,
    stable_sort_is_permutation, stable_sort_takes_from, strict_weak, text_before,
    text_before_is_total, text_before_is_transitive, Order, Ordered,
};
use crate::reach::{OpenReason, PathSet, ReachScope};
use crate::resolver::{
    confidence_reason_for, labels, locality, nearness, pack_score, packed, scope_tier, tier_of,
    ResolveContext,
};

verus! {

/// A symbol as the index stores it.
#[derive(Debug, Clone, PartialEq, Eq)]
pub struct SymbolRecord {
    pub id: i64,
    pub name: String,
    pub kind: String,
    pub role: String,
    pub path: String,
    pub start_line: u32,
    pub start_col: u32,
    pub end_line: u32,
    pub end_col: u32,
    pub signature: String,
    pub guard: Option<String>,
    pub source: String,
    pub directly_included: bool,
}

/// Match quality of a record: a definition over a declaration, a function in
/// a source file over one in a header.
pub open spec fn quality(record: SymbolRecord) -> int {
    (if record.role@ == "definition"@ {
        1000int
    } else {
        0
    }) + (if record.kind@ == "function"@ && source_path(record.path@) {
        100int
    } else {
        0
    })
}

fn definition_base_match(record: &SymbolRecord) -> (r: i32)
    ensures
        r == quality(*record),
        0 <= r <= 1100,
{
    let mut score: i32 = 0;
    if same_text(record.role.as_str(), "definition") {
        score = score + 1000;
    }
    if same_text(record.kind.as_str(), "function") && is_source_path(record.path.as_str()) {
        score = score + 100;
    }
    score
}

/// A record with the terms it is ranked by.
pub struct RankedRecord {
    pub record: SymbolRecord,
    pub tier: ScopeTier,
    pub base_match: i32,
    pub score: i32,
}

/// Higher scores first, then by path and line.
pub struct DefinitionOrder;

impl Order<RankedRecord> for DefinitionOrder {
    open spec fn before(a: RankedRecord, b: RankedRecord) -> bool {
        if a.score != b.score {
            a.score > b.score
        } else if a.record.path@ != b.record.path@ {
            text_before(a.record.path@, b.record.path@)
        } else {
            a.record.start_line < b.record.start_line
        }
    }
}

impl Ordered<RankedRecord> for DefinitionOrder {
    fn is_before(a: &RankedRecord, b: &RankedRecord) -> (r: bool) {
        if a.score != b.score {
            a.score > b.score
        } else if !same_text(a.record.path.as_str(), b.record.path.as_str()) {
            is_text_before(a.record.path.as_str(), b.record.path.as_str())
        } else {
            a.record.start_line < b.record.start_line
        }
    }
}

/// The ranking order is a strict weak order.
pub proof fn definition_order_is_strict_weak()
    ensures
        strict_weak::<RankedRecord, DefinitionOrder>(),
{
    assert forall|a: RankedRecord, b: RankedRecord|
        DefinitionOrder::before(a, b) implies !#[trigger] DefinitionOrder::before(b, a) by {
        text_before_is_total(a.record.path@, b.record.path@);
    }
    assert forall|a: RankedRecord, b: RankedRecord, c: RankedRecord|
        !(#[trigger] DefinitionOrder::before(a, b)) && !(#[trigger] DefinitionOrder::before(
            b,
            c,
        )) implies !DefinitionOrder::before(a, c) by {
        let (x, y, z) = (a.record.path@, b.record.path@, c.record.path@);
        text_before_is_total(x, y);
        text_before_is_total(y, z);
        text_before_is_total(x, z);
        if text_before(y, x) && text_before(z, y) {
            text_before_is_transitive(z, y, x);
        }
    }
}

/// A record with the terms that its tier gives.
pub open spec fn ranked_as(record: SymbolRecord, tier: ScopeTier, current: Seq<char>) -> RankedRecord {
    RankedRecord {
        record,
        tier,
        base_match: quality(record) as i32,
        score: packed(tier, quality(record), nearness(record.path@, Some(current))) as i32,
    }
}

fn rank_as(record: SymbolRecord, tier: ScopeTier, current: &str) -> (r: RankedRecord)
    ensures
        r == ranked_as(record, tier, current@),
{
    let base_match: i32 = definition_base_match(&record);
    let near: i32 = locality(record.path.as_str(), Some(current));
    let score: i32 = pack_score(tier, base_match, near);
    RankedRecord { record, tier, base_match, score }
}

// ---------------------------------------------------------------------------
// Ranking by a set of reachable files

/// The tier of a record where only the set of reachable files is known.
pub open spec fn plain_tier(
    record: SymbolRecord,
    current: Seq<char>,
    reach: Option<Set<Seq<char>>>,
) -> ScopeTier {
    if record.source@ == "external"@ && record.directly_included {
        ScopeTier::External
    } else if record.path@ == current {
        ScopeTier::Current
    } else {
        match reach {
            Some(files) => if files.contains(record.path@) {
                ScopeTier::Reachable
            } else {
                ScopeTier::Global
            },
            None => ScopeTier::Global,
        }
    }
}

pub open spec fn opt_files(reach: Option<&PathSet>) -> Option<Set<Seq<char>>> {
    match reach {
        Some(files) => Some(files@),
        None => None,
    }
}

fn resolver_tier_for_record(
    record: &SymbolRecord,
    current_rel_path: &str,
    reach: Option<&PathSet>,
) -> (r: ScopeTier)
    ensures
        r == plain_tier(*record, current_rel_path@, opt_files(reach)),
{
    if same_text(record.source.as_str(), "external") && record.directly_included {
        return ScopeTier::External;
    }
    if same_text(record.path.as_str(), current_rel_path) {
        return ScopeTier::Current;
    }
    match reach {
        Some(files) => if files.contains(record.path.as_str()) {
            ScopeTier::Reachable
        } else {
            ScopeTier::Global
        },
        None => ScopeTier::Global,
    }
}

/// The records in ranking order, with the terms they are ranked by.
pub open spec fn plain_ranking(
    records: Seq<SymbolRecord>,
    current: Seq<char>,
    reach: Option<Set<Seq<char>>>,
) -> Seq<RankedRecord> {
    stable_sort::<RankedRecord, DefinitionOrder>(
        records.map_values(
            |r: SymbolRecord| ranked_as(r, plain_tier(r, current, reach), current),
        ),
    )
}

pub open spec fn records_of(s: Seq<RankedRecord>) -> Seq<SymbolRecord> {
    s.map_values(|k: RankedRecord| k.record)
}

fn rank_plain(
    candidates: Vec<SymbolRecord>,
    current_rel_path: &str,
    reach: Option<&PathSet>,
) -> (r: Vec<RankedRecord>)
    ensures
        r@ == plain_ranking(candidates@, current_rel_path@, opt_files(reach)),
{
    let ghost all = candidates@;
    let ghost f = |r: SymbolRecord|
        ranked_as(r, plain_tier(r, current_rel_path@, opt_files(reach)), current_rel_path@);
    let mut rest = candidates;
    let mut keyed: Vec<RankedRecord> = Vec::new();
    assert(rest@ + Seq::<SymbolRecord>::empty() =~= all);
    while rest.len() > 0
        invariant
            rest@.len() + keyed@.len() == all.len(),
            rest@ == all.subrange(keyed@.len() as int, all.len() as int),
            keyed@ == all.subrange(0, keyed@.len() as int).map_values(f),
            f == (|r: SymbolRecord|
                ranked_as(r, plain_tier(r, current_rel_path@, opt_files(reach)), current_rel_path@)),
        decreases rest@.len(),
    {
        let ghost done = keyed@.len() as int;
        let record = rest.remove(0);
        assert(record == all[done]);
        let tier = resolver_tier_for_record(&record, current_rel_path, reach);
        let item = rank_as(record, tier, current_rel_path);
        keyed.push(item);
        proof {
            assert(rest@ =~= all.subrange(done + 1, all.len() as int));
            assert(item == f(record));
            assert(keyed@ =~= all.subrange(0, done + 1).map_values(f));
        }
    }
    assert(keyed@ =~= all.map_values(f));
    sort_stable::<RankedRecord, DefinitionOrder>(&mut keyed);
    keyed
}

/// Order records by tier, then definition preference, then nearness, then path
/// and line.
pub fn rank_definitions(
    candidates: Vec<SymbolRecord>,
    current_rel_path: &str,
    reach: Option<&PathSet>,
) -> (r: Vec<SymbolRecord>)
    ensures
        r@ == records_of(plain_ranking(candidates@, current_rel_path@, opt_files(reach))),
{
    let mut keyed = rank_plain(candidates, current_rel_path, reach);
    let ghost all = keyed@;
    let mut out: Vec<SymbolRecord> = Vec::new();
    while keyed.len() > 0
        invariant
            keyed@.len() + out@.len() == all.len(),
            keyed@ == all.subrange(out@.len() as int, all.len() as int),
            out@ == records_of(all.subrange(0, out@.len() as int)),
        decreases keyed@.len(),
    {
        let ghost done = out@.len() as int;
        let item = keyed.remove(0);
        assert(item == all[done]);
        out.push(item.record);
        proof {
            assert(keyed@ =~= all.subrange(done + 1, all.len() as int));
            assert(out@ =~= records_of(all.subrange(0, done + 1)));
        }
    }
    assert(all.subrange(0, all.len() as int) =~= all);
    out
}

/// The candidate that a ranked record becomes.
pub open spec fn candidate_of(k: RankedRecord, open_reason: Option<OpenReason>) -> DefinitionCandidate {
    DefinitionCandidate {
        name: k.record.name,
        kind: k.record.kind,
        role: k.record.role,
        path: k.record.path,
        range: CandidateRange {
            start_line: k.record.start_line,
            start_col: k.record.start_col,
            end_line: k.record.end_line,
            end_col: k.record.end_col,
        },
        source: k.record.source,
        tier: k.tier,
        base_match: k.base_match,
        confidence: labels(k.tier, true, open_reason).0,
        reason: labels(k.tier, true, open_reason).1,
    }
}

pub open spec fn candidates_of(s: Seq<RankedRecord>, open_reason: Option<OpenReason>) -> Seq<
    DefinitionCandidate,
> {
    s.map_values(|k: RankedRecord| candidate_of(k, open_reason))
}

fn make_candidate(k: &RankedRecord, open_reason: Option<OpenReason>) -> (r: DefinitionCandidate)
    ensures
        r == candidate_of(*k, open_reason),
{
    let (confidence, reason) = confidence_reason_for(k.tier, true, open_reason);
    DefinitionCandidate {
        name: k.record.name.clone(),
        kind: k.record.kind.clone(),
        role: k.record.role.clone(),
        path: k.record.path.clone(),
        range: CandidateRange {
            start_line: k.record.start_line,
            start_col: k.record.start_col,
            end_line: k.record.end_line,
            end_col: k.record.end_col,
        },
        source: k.record.source.clone(),
        tier: k.tier,
        base_match: k.base_match,
        confidence,
        reason,
    }
}

fn make_candidates(keyed: &Vec<RankedRecord>, open_reason: Option<OpenReason>) -> (r: Vec<
    DefinitionCandidate,
>)
    ensures
        r@ == candidates_of(keyed@, open_reason),
{
    let mut out: Vec<DefinitionCandidate> = Vec::new();
    let mut i: usize = 0;
    while i < keyed.len()
        invariant
            i <= keyed@.len(),
            out@.len() == i,
            forall|k: int| 0 <= k < i ==> out@[k] == candidate_of(keyed@[k], open_reason),
        decreases keyed@.len() - i,
    {
        out.push(make_candidate(&keyed[i], open_reason));
        i = i + 1;
    }
    assert(out@ =~= candidates_of(keyed@, open_reason));
    out
}

/// Ranked candidates where only the set of reachable files is known: a file
/// outside the set counts as global.
pub fn rank_definitions_into_candidates(
    candidates: Vec<SymbolRecord>,
    current_rel_path: &str,
    reachable: Option<&PathSet>,
) -> (r: Vec<DefinitionCandidate>)
    ensures
        r@ == candidates_of(
            plain_ranking(candidates@, current_rel_path@, opt_files(reachable)),
            None,
        ),
{
    let keyed = rank_plain(candidates, current_rel_path, reachable);
    make_candidates(&keyed, None)
}

// ---------------------------------------------------------------------------
// Ranking by a reach scope

pub struct RankedDefinitionRecord {
    pub candidate: DefinitionCandidate,
    pub record: SymbolRecord,
}

/// The tier of a record for the current file and its reach scope.
pub open spec fn scoped_tier(
    record: SymbolRecord,
    current: &str,
    scope: Option<&ReachScope>,
) -> ScopeTier {
    tier_of(
        record.path@,
        record.source@ == "external"@,
        record.directly_included,
        Some(
            &ResolveContext {
                current_path: Some(current),
                reach: scope,
                direct_external_files: None,
            },
        ),
    )
}

/// The records in ranking order, with the terms they are ranked by.
pub open spec fn scoped_ranking(
    records: Seq<SymbolRecord>,
    current: &str,
    scope: Option<&ReachScope>,
) -> Seq<RankedRecord> {
    stable_sort::<RankedRecord, DefinitionOrder>(
        records.map_values(
            |r: SymbolRecord| ranked_as(r, scoped_tier(r, current, scope), current@),
        ),
    )
}

pub open spec fn opt_reason(scope: Option<&ReachScope>) -> Option<OpenReason> {
    match scope {
        Some(s) => s.reason,
        None => None,
    }
}

pub open spec fn ranked_records(s: Seq<RankedRecord>, open_reason: Option<OpenReason>) -> Seq<
    RankedDefinitionRecord,
> {
    s.map_values(
        |k: RankedRecord|
            RankedDefinitionRecord { candidate: candidate_of(k, open_reason), record: k.record },
    )
}

fn reason_of(scope: Option<&ReachScope>) -> (r: Option<OpenReason>)
    ensures
        r == opt_reason(scope),
{
    match scope {
        Some(s) => s.reason,
        None => None,
    }
}

fn rank_scoped(
    candidates: Vec<SymbolRecord>,
    current_rel_path: &str,
    scope: Option<&ReachScope>,
) -> (r: Vec<RankedRecord>)
    ensures
        r@ == scoped_ranking(candidates@, current_rel_path, scope),
{
    let ctx = ResolveContext {
        current_path: Some(current_rel_path),
        reach: scope,
        direct_external_files: None,
    };
    let ghost all = candidates@;
    let ghost f = |r: SymbolRecord|
        ranked_as(r, scoped_tier(r, current_rel_path, scope), current_rel_path@);
    let mut rest = candidates;
    let mut keyed: Vec<RankedRecord> = Vec::new();
    while rest.len() > 0
        invariant
            ctx == (ResolveContext {
                current_path: Some(current_rel_path),
                reach: scope,
                direct_external_files: None,
            }),
            rest@.len() + keyed@.len() == all.len(),
            rest@ == all.subrange(keyed@.len() as int, all.len() as int),
            keyed@ == all.subrange(0, keyed@.len() as int).map_values(f),
            f == (|r: SymbolRecord|
                ranked_as(r, scoped_tier(r, current_rel_path, scope), current_rel_path@)),
        decreases rest@.len(),
    {
        let ghost done = keyed@.len() as int;
        let record = rest.remove(0);
        assert(record == all[done]);
        let external = same_text(record.source.as_str(), "external");
        let tier = scope_tier(
            record.path.as_str(),
            external,
            record.directly_included,
            Some(&ctx),
        );
        let item = rank_as(record, tier, current_rel_path);
        keyed.push(item);
        proof {
            assert(rest@ =~= all.subrange(done + 1, all.len() as int));
            assert(item == f(record));
            assert(keyed@ =~= all.subrange(0, done + 1).map_values(f));
        }
    }
    assert(keyed@ =~= all.map_values(f));
    sort_stable::<RankedRecord, DefinitionOrder>(&mut keyed);
    keyed
}

/// Ranked candidates beside the records they come from; definitions, signature
/// help and hover share this ranking.
pub fn rank_definition_records_with_scope(
    candidates: Vec<SymbolRecord>,
    current_rel_path: &str,
    scope: Option<&ReachScope>,
) -> (r: Vec<RankedDefinitionRecord>)
    ensures
        r@ == ranked_records(
            scoped_ranking(candidates@, current_rel_path, scope),
            opt_reason(scope),
        ),
{
    let mut keyed = rank_scoped(candidates, current_rel_path, scope);
    let open_reason = reason_of(scope);
    let ghost all = keyed@;
    let mut out: Vec<RankedDefinitionRecord> = Vec::new();
    while keyed.len() > 0
        invariant
            keyed@.len() + out@.len() == all.len(),
            keyed@ == all.subrange(out@.len() as int, all.len() as int),
            out@ == ranked_records(all.subrange(0, out@.len() as int), open_reason),
        decreases keyed@.len(),
    {
        let ghost done = out@.len() as int;
        let item = keyed.remove(0);
        assert(item == all[done]);
        let candidate = make_candidate(&item, open_reason);
        out.push(RankedDefinitionRecord { candidate, record: item.record });
        proof {
            assert(keyed@ =~= all.subrange(done + 1, all.len() as int));
            assert(out@ =~= ranked_records(all.subrange(0, done + 1), open_reason));
        }
    }
    assert(all.subrange(0, all.len() as int) =~= all);
    out
}

/// Ranked candidates by the full reach scope: where reach is open, a workspace
/// file outside it is unknown rather than global.
pub fn rank_definitions_into_candidates_with_scope(
    candidates: Vec<SymbolRecord>,
    current_rel_path: &str,
    scope: Option<&ReachScope>,
) -> (r: Vec<DefinitionCandidate>)
    ensures
        r@ == candidates_of(
            scoped_ranking(candidates@, current_rel_path, scope),
            opt_reason(scope),
        ),
{
    let keyed = rank_scoped(candidates, current_rel_path, scope);
    make_candidates(&keyed, reason_of(scope))
}

// ---------------------------------------------------------------------------
// Laws

/// `a` may stand before `b` in a ranking: its tier is stronger, or the tiers
/// are equal and its quality is no less.
pub open spec fn outranks(a: RankedRecord, b: RankedRecord) -> bool {
    a.tier.spec_rank() > b.tier.spec_rank() || (a.tier == b.tier && a.base_match >= b.base_match)
}

proof fn sorted_terms(s: Seq<RankedRecord>, current: Seq<char>, i: int, j: int)
    requires
        0 <= i < j < s.len(),
        forall|k: int|
            0 <= k < s.len() ==> #[trigger] s[k] == ranked_as(s[k].record, s[k].tier, current),
    ensures
        outranks(
            stable_sort::<RankedRecord, DefinitionOrder>(s)[i],
            stable_sort::<RankedRecord, DefinitionOrder>(s)[j],
        ),
{
    let sorted = stable_sort::<RankedRecord, DefinitionOrder>(s);
    definition_order_is_strict_weak();
    stable_sort_is_in_order::<RankedRecord, DefinitionOrder>(s);
    stable_sort_is_permutation::<RankedRecord, DefinitionOrder>(s);
    stable_sort_takes_from::<RankedRecord, DefinitionOrder>(s, i);
    stable_sort_takes_from::<RankedRecord, DefinitionOrder>(s, j);
    let (a, b) = (sorted[i], sorted[j]);
    let m = choose|m: int| 0 <= m < s.len() && s[m] == a;
    let n = choose|n: int| 0 <= n < s.len() && s[n] == b;
    assert(s[m] == ranked_as(s[m].record, s[m].tier, current));
    assert(s[n] == ranked_as(s[n].record, s[n].tier, current));
    assert(!DefinitionOrder::before(b, a));
    tier_rank_is_injective(a.tier, b.tier);
}

/// Whatever the match quality, a candidate of a stronger tier stands first;
/// within a tier, whatever the nearness, the better match does.
pub proof fn scoped_ranking_is_by_tier(
    records: Seq<SymbolRecord>,
    current: &str,
    scope: Option<&ReachScope>,
    i: int,
    j: int,
)
    requires
        0 <= i < j < records.len(),
    ensures
        scoped_ranking(records, current, scope).len() == records.len(),
        outranks(
            scoped_ranking(records, current, scope)[i],
            scoped_ranking(records, current, scope)[j],
        ),
{
    let s = records.map_values(
        |r: SymbolRecord| ranked_as(r, scoped_tier(r, current, scope), current@),
    );
    stable_sort_is_permutation::<RankedRecord, DefinitionOrder>(s);
    sorted_terms(s, current@, i, j);
}

/// The same of a ranking by a set of reachable files.
pub proof fn plain_ranking_is_by_tier(
    records: Seq<SymbolRecord>,
    current: Seq<char>,
    reach: Option<Set<Seq<char>>>,
    i: int,
    j: int,
)
    requires
        0 <= i < j < records.len(),
    ensures
        plain_ranking(records, current, reach).len() == records.len(),
        outranks(
            plain_ranking(records, current, reach)[i],
            plain_ranking(records, current, reach)[j],
        ),
{
    let s = records.map_values(
        |r: SymbolRecord| ranked_as(r, plain_tier(r, current, reach), current),
    );
    stable_sort_is_permutation::<RankedRecord, DefinitionOrder>(s);
    sorted_terms(s, current, i, j);
}

proof fn sorted_keeps_all(s: Seq<RankedRecord>, i: int)
    requires
        0 <= i < s.len(),
    ensures
        stable_sort::<RankedRecord, DefinitionOrder>(s).contains(s[i]),
        stable_sort::<RankedRecord, DefinitionOrder>(s).len() == s.len(),
{
    broadcast use vstd::seq_lib::group_to_multiset_ensures;

    stable_sort_is_permutation::<RankedRecord, DefinitionOrder>(s);
    assert(s.to_multiset().count(s[i]) > 0);
}

/// Scope orders definitions and drops none: a record that nothing reaches is
/// still offered.
pub proof fn scoped_ranking_drops_nothing(
    records: Seq<SymbolRecord>,
    current: &str,
    scope: Option<&ReachScope>,
    i: int,
)
    requires
        0 <= i < records.len(),
    ensures
        scoped_ranking(records, current, scope).len() == records.len(),
        records_of(scoped_ranking(records, current, scope)).contains(records[i]),
{
    let s = records.map_values(
        |r: SymbolRecord| ranked_as(r, scoped_tier(r, current, scope), current@),
    );
    let sorted = scoped_ranking(records, current, scope);
    sorted_keeps_all(s, i);
    let k = choose|k: int| 0 <= k < sorted.len() && sorted[k] == s[i];
    assert(records_of(sorted)[k] == records[i]);
}

/// The same of a ranking by a set of reachable files.
pub proof fn plain_ranking_drops_nothing(
    records: Seq<SymbolRecord>,
    current: Seq<char>,
    reach: Option<Set<Seq<char>>>,
    i: int,
)
    requires
        0 <= i < records.len(),
    ensures
        plain_ranking(records, current, reach).len() == records.len(),
        records_of(plain_ranking(records, current, reach)).contains(records[i]),
{
    let s = records.map_values(
        |r: SymbolRecord| ranked_as(r, plain_tier(r, current, reach), current),
    );
    let sorted = plain_ranking(records, current, reach);
    sorted_keeps_all(s, i);
    let k = choose|k: int| 0 <= k < sorted.len() && sorted[k] == s[i];
    assert(records_of(sorted)[k] == records[i]);
}

/// Candidates stand in the order of the ranked records, each with the facts of
/// its record.
pub proof fn candidates_follow_records(
    s: Seq<RankedRecord>,
    open_reason: Option<OpenReason>,
    i: int,
)
    requires
        0 <= i < s.len(),
    ensures
        candidates_of(s, open_reason).len() == records_of(s).len(),
        ({
            let c = candidates_of(s, open_reason)[i];
            let r = records_of(s)[i];
            &&& c.name == r.name
            &&& c.kind == r.kind
            &&& c.role == r.role
            &&& c.path == r.path
            &&& c.source == r.source
            &&& c.range.start_line == r.start_line
            &&& c.range.start_col == r.start_col
            &&& c.range.end_line == r.end_line
            &&& c.range.end_col == r.end_col
        }),
{
}

} // verus!
