//! Which definition stands first, told by the records and the files they are
//! in.

use vstd::prelude::*;

use crate::callables::counterpart::{after_last_dot, extension_of, header_path, source_path};
use crate::chars::{char_lower, chars_lower};
use crate::definitions::{
    definition_order_is_strict_weak, plain_ranking, plain_tier, quality, ranked_as,
    scoped_ranking, scoped_tier, DefinitionOrder, RankedRecord, SymbolRecord,
};
use crate::model::tier_rank_is_injective;
use crate::order::{
    stable_sort, stable_sort_is_in_order, stable_sort_is_permutation, stable_sort_takes_from,
    text_before, text_before_is_total, Order,
};
use crate::reach::ReachScope;
use crate::resolver::{nearness, shared_dirs_from};

verus! {

// ---------------------------------------------------------------------------
// Files by their endings

/// `s` spells a word of small letters, in small or capital letters.
pub open spec fn spells_word(s: Seq<char>, word: Seq<char>) -> bool {
    s.len() == word.len() && forall|k: int|
        0 <= k < s.len() ==> 'a' <= word[k] && word[k] <= 'z' && (#[trigger] s[k] == word[k] || s[k]
            as u32 + 32 == word[k] as u32)
}

pub open spec fn with_ending(stem: Seq<char>, ending: Seq<char>) -> Seq<char> {
    stem + seq!['.'] + ending
}

proof fn dot_found(s: Seq<char>, dot: int, end: int)
    requires
        0 <= dot < end <= s.len(),
        s[dot] == '.',
        forall|k: int| dot < k < end ==> #[trigger] s[k] != '.',
    ensures
        after_last_dot(s, end) == Some(dot + 1),
    decreases end,
{
    if dot + 1 < end {
        assert(s[end - 1] != '.');
        dot_found(s, dot, end - 1);
    }
}

proof fn lowered(c: char, w: char)
    requires
        'a' <= w && w <= 'z',
        c == w || c as u32 + 32 == w as u32,
    ensures
        char_lower(c) == w,
        c != '.',
{
    if c != w {
        assert('A' <= c && c <= 'Z');
        assert((c as u8 + 32) as u8 as u32 == w as u32);
    }
}

proof fn ending_read(stem: Seq<char>, ending: Seq<char>, word: Seq<char>)
    requires
        spells_word(ending, word),
    ensures
        extension_of(with_ending(stem, ending)) == Some(ending),
        chars_lower(ending) == word,
{
    let path = with_ending(stem, ending);
    let dot = stem.len() as int;
    assert forall|k: int| 0 <= k < ending.len() implies char_lower(#[trigger] ending[k]) == word[k]
        && ending[k] != '.' by {
        lowered(ending[k], word[k]);
    }
    assert forall|k: int| dot < k < path.len() implies #[trigger] path[k] != '.' by {
        assert(path[k] == ending[k - dot - 1]);
    }
    dot_found(path, dot, path.len() as int);
    assert(path.subrange(dot + 1, path.len() as int) =~= ending);
    assert(chars_lower(ending) =~= word);
}

/// A file is a source file by its ending, in small or capital letters: `c`,
/// `cc`, `cpp` and `cxx`.
pub proof fn sources_end_so(stem: Seq<char>, ending: Seq<char>)
    requires
        spells_word(ending, "c"@) || spells_word(ending, "cc"@) || spells_word(ending, "cpp"@)
            || spells_word(ending, "cxx"@),
    ensures
        source_path(with_ending(stem, ending)),
{
    if spells_word(ending, "c"@) {
        ending_read(stem, ending, "c"@);
    } else if spells_word(ending, "cc"@) {
        ending_read(stem, ending, "cc"@);
    } else if spells_word(ending, "cpp"@) {
        ending_read(stem, ending, "cpp"@);
    } else {
        ending_read(stem, ending, "cxx"@);
    }
}

/// A file is a header by its ending: `h`, `hh`, `hpp`, `hxx` and `inl`. No
/// header is a source file.
pub proof fn headers_end_so(stem: Seq<char>, ending: Seq<char>)
    requires
        spells_word(ending, "h"@) || spells_word(ending, "hh"@) || spells_word(ending, "hpp"@)
            || spells_word(ending, "hxx"@) || spells_word(ending, "inl"@),
    ensures
        header_path(with_ending(stem, ending)),
        !source_path(with_ending(stem, ending)),
{
    reveal_strlit("c");
    reveal_strlit("cc");
    reveal_strlit("cpp");
    reveal_strlit("cxx");
    reveal_strlit("h");
    reveal_strlit("hh");
    reveal_strlit("hpp");
    reveal_strlit("hxx");
    reveal_strlit("inl");
    let word = if spells_word(ending, "h"@) {
        "h"@
    } else if spells_word(ending, "hh"@) {
        "hh"@
    } else if spells_word(ending, "hpp"@) {
        "hpp"@
    } else if spells_word(ending, "hxx"@) {
        "hxx"@
    } else {
        "inl"@
    };
    ending_read(stem, ending, word);
    assert(word[0] == 'h' || word[0] == 'i');
    assert("c"@[0] == 'c' && "cc"@[0] == 'c' && "cpp"@[0] == 'c' && "cxx"@[0] == 'c');
}

// ---------------------------------------------------------------------------
// Nearness

/// Number of directories that a path begins with.
pub open spec fn slashes(s: Seq<char>) -> nat
    decreases s.len(),
{
    if s.len() == 0 {
        0
    } else {
        slashes(s.drop_last()) + if s.last() == '/' {
            1nat
        } else {
            0nat
        }
    }
}

proof fn slashes_from(s: Seq<char>, i: int)
    requires
        0 <= i < s.len(),
    ensures
        slashes(s.subrange(i, s.len() as int)) == slashes(s.subrange(i + 1, s.len() as int)) + if s[i]
            == '/' {
            1nat
        } else {
            0nat
        },
    decreases s.len(),
{
    let a = s.subrange(i, s.len() as int);
    let b = s.subrange(i + 1, s.len() as int);
    assert(a.last() == s.last());
    if i + 1 < s.len() {
        let t = s.drop_last();
        slashes_from(t, i);
        assert(a.drop_last() =~= t.subrange(i, t.len() as int));
        assert(b.drop_last() =~= t.subrange(i + 1, t.len() as int));
        assert(b.last() == s.last());
    } else {
        assert(a.drop_last() =~= Seq::<char>::empty());
        assert(b =~= Seq::<char>::empty());
    }
}

proof fn shared_is(a: Seq<char>, b: Seq<char>, common: Seq<char>, i: int)
    requires
        0 <= i <= common.len() <= a.len(),
        common.len() <= b.len(),
        a.subrange(0, common.len() as int) == common,
        b.subrange(0, common.len() as int) == common,
        common.len() == a.len() || common.len() == b.len() || a[common.len() as int]
            != b[common.len() as int],
    ensures
        shared_dirs_from(a, b, i) == slashes(common.subrange(i, common.len() as int)),
    decreases common.len() - i,
{
    if i < common.len() {
        assert(a.subrange(0, common.len() as int)[i] == a[i]);
        assert(b.subrange(0, common.len() as int)[i] == b[i]);
        shared_is(a, b, common, i + 1);
        slashes_from(common, i);
    } else {
        assert(common.subrange(i, common.len() as int) =~= Seq::<char>::empty());
    }
}

/// Two files are as near as they have leading directories in common, up to
/// sixty-four.
pub proof fn nearness_counts_common_directories(
    path: Seq<char>,
    current: Seq<char>,
    common: Seq<char>,
)
    requires
        common.len() <= path.len(),
        common.len() <= current.len(),
        path.subrange(0, common.len() as int) == common,
        current.subrange(0, common.len() as int) == common,
        common.len() == path.len() || common.len() == current.len() || path[common.len() as int]
            != current[common.len() as int],
    ensures
        nearness(path, Some(current)) == if slashes(common) < 64 {
            slashes(common) as int
        } else {
            64
        },
        nearness(path, None) == 0,
{
    shared_is(path, current, common, 0);
    assert(common.subrange(0, common.len() as int) =~= common);
}

// ---------------------------------------------------------------------------
// Ranking

pub open spec fn is_definition(r: SymbolRecord) -> bool {
    r.role@ == "definition"@
}

/// A function in a source file.
pub open spec fn is_implemented(r: SymbolRecord) -> bool {
    r.kind@ == "function"@ && source_path(r.path@)
}

/// `a` may stand before `b`, both of one tier: a definition before any other
/// record, of two that both are or both are not a function in a source file
/// before any other, then the nearer file, then the path and the line.
pub open spec fn may_precede(a: SymbolRecord, b: SymbolRecord, current: Seq<char>) -> bool {
    let (near_a, near_b) = (nearness(a.path@, Some(current)), nearness(b.path@, Some(current)));
    &&& is_definition(b) ==> is_definition(a)
    &&& is_definition(a) == is_definition(b) && is_implemented(b) ==> is_implemented(a)
    &&& is_definition(a) == is_definition(b) && is_implemented(a) == is_implemented(b) ==> near_a
        >= near_b && (near_a == near_b ==> {
        &&& !text_before(b.path@, a.path@)
        &&& a.path@ == b.path@ ==> a.start_line <= b.start_line
    })
}

proof fn sorted_pair(s: Seq<RankedRecord>, current: Seq<char>, i: int, j: int)
    requires
        0 <= i < j < s.len(),
        forall|k: int|
            0 <= k < s.len() ==> #[trigger] s[k] == ranked_as(s[k].record, s[k].tier, current),
    ensures
        ({
            let sorted = stable_sort::<RankedRecord, DefinitionOrder>(s);
            let (a, b) = (sorted[i], sorted[j]);
            &&& sorted.len() == s.len()
            &&& s.contains(a)
            &&& s.contains(b)
            &&& a.tier.spec_rank() >= b.tier.spec_rank()
            &&& a.tier == b.tier ==> may_precede(a.record, b.record, current)
        }),
{
    let sorted = stable_sort::<RankedRecord, DefinitionOrder>(s);
    definition_order_is_strict_weak();
    stable_sort_is_in_order::<RankedRecord, DefinitionOrder>(s);
    stable_sort_is_permutation::<RankedRecord, DefinitionOrder>(s);
    stable_sort_takes_from::<RankedRecord, DefinitionOrder>(s, i);
    stable_sort_takes_from::<RankedRecord, DefinitionOrder>(s, j);
    let (a, b) = (sorted[i], sorted[j]);
    let m = choose|m: int| 0 <= m < s.len() && s[m] == a;
    let n = choose|n: int| 0 <= n < s.len() && s[n] == b;
    assert(s[m] == ranked_as(s[m].record, s[m].tier, current));
    assert(s[n] == ranked_as(s[n].record, s[n].tier, current));
    assert(!<DefinitionOrder as Order<RankedRecord>>::before(b, a));
    tier_rank_is_injective(a.tier, b.tier);
    text_before_is_total(a.record.path@, b.record.path@);
}

/// The record is an external one that the index knows as included directly.
pub open spec fn is_first_layer(r: SymbolRecord) -> bool {
    r.source@ == "external"@ && r.directly_included
}

/// Records of the current file stand first, then those of reachable files, then
/// external ones that are included directly, then those of which reach cannot
/// tell, then all others. Within each of these, definitions stand before
/// declarations, whatever their paths, functions of source files before those
/// of headers, and nearer files before farther ones.
pub proof fn scoped_ranking_prefers_definitions(
    records: Seq<SymbolRecord>,
    current: &str,
    scope: Option<&ReachScope>,
    i: int,
    j: int,
)
    requires
        0 <= i < j < records.len(),
    ensures
        ({
            let ranking = scoped_ranking(records, current, scope);
            let (a, b) = (ranking[i].record, ranking[j].record);
            &&& ranking.len() == records.len()
            &&& place(a, current@, scope) >= place(b, current@, scope)
            &&& place(a, current@, scope) == place(b, current@, scope) ==> may_precede(
                a,
                b,
                current@,
            )
        }),
{
    let f = |r: SymbolRecord| ranked_as(r, scoped_tier(r, current, scope), current@);
    let s = records.map_values(f);
    sorted_pair(s, current@, i, j);
    let ranking = scoped_ranking(records, current, scope);
    let m = choose|m: int| 0 <= m < s.len() && s[m] == ranking[i];
    let n = choose|n: int| 0 <= n < s.len() && s[n] == ranking[j];
    assert(s[m] == f(records[m]) && s[n] == f(records[n]));
    tier_rank_is_injective(ranking[i].tier, ranking[j].tier);
}

/// How strongly the place of a record speaks for it.
pub open spec fn place(r: SymbolRecord, current: Seq<char>, scope: Option<&ReachScope>) -> int {
    if is_first_layer(r) {
        2
    } else if r.path@ == current {
        4
    } else {
        match scope {
            Some(reach) => if reach.files@.contains(r.path@) {
                3
            } else if reach.open && r.source@ != "external"@ {
                1
            } else {
                0
            },
            None => 0,
        }
    }
}

/// The same of a ranking by a set of reachable files, which can always tell.
pub proof fn plain_ranking_prefers_definitions(
    records: Seq<SymbolRecord>,
    current: Seq<char>,
    reach: Option<Set<Seq<char>>>,
    i: int,
    j: int,
)
    requires
        0 <= i < j < records.len(),
    ensures
        ({
            let ranking = plain_ranking(records, current, reach);
            let (a, b) = (ranking[i].record, ranking[j].record);
            &&& ranking.len() == records.len()
            &&& plain_place(a, current, reach) >= plain_place(b, current, reach)
            &&& plain_place(a, current, reach) == plain_place(b, current, reach) ==> may_precede(
                a,
                b,
                current,
            )
        }),
{
    let f = |r: SymbolRecord| ranked_as(r, plain_tier(r, current, reach), current);
    let s = records.map_values(f);
    sorted_pair(s, current, i, j);
    let ranking = plain_ranking(records, current, reach);
    let m = choose|m: int| 0 <= m < s.len() && s[m] == ranking[i];
    let n = choose|n: int| 0 <= n < s.len() && s[n] == ranking[j];
    assert(s[m] == f(records[m]) && s[n] == f(records[n]));
    tier_rank_is_injective(ranking[i].tier, ranking[j].tier);
}

pub open spec fn plain_place(
    r: SymbolRecord,
    current: Seq<char>,
    reach: Option<Set<Seq<char>>>,
) -> int {
    if is_first_layer(r) {
        1
    } else if r.path@ == current {
        3
    } else if reach is Some && reach->0.contains(r.path@) {
        2
    } else {
        0
    }
}

/// A record scores a thousand or more exactly where it is a definition,
/// whatever its kind, and a function of a source file scores more than any
/// other record of its role.
pub proof fn quality_tells_definitions(a: SymbolRecord, b: SymbolRecord)
    ensures
        quality(a) >= 1000 <==> is_definition(a),
        is_definition(a) && !is_definition(b) ==> quality(a) > quality(b) + 64,
        is_definition(a) == is_definition(b) && is_implemented(a) && !is_implemented(b) ==> quality(
            a,
        ) > quality(b) + 64,
        is_definition(a) == is_definition(b) && is_implemented(a) == is_implemented(b) ==> quality(
            a,
        ) == quality(b),
{
}

} // verus!
