//! What the current file offers, told by what stands in it.

use vstd::prelude::*;
use vstd::set_lib::set_int_range;
use vstd::utf8::{encode_utf8, is_ascii_chars, is_ascii_chars_encode_utf8};

use crate::call_laws::is_word_byte;
use crate::count_laws::one_more;
use crate::current_file_overlay::{
    after_aliases, after_records, after_symbols, after_uses, after_using, best_overlays,
    declared, end_of, ident_end, identifiers_from, keyword_here, named_from, occurrence_usage,
    offered, overlay_order_is_strict_weak, overlays, proximity, reads_raw_text, spaces_until,
    span_usage, spelled_at, usage_from, use_counts, used, using_from, with_declared, with_usage,
    Overlay, OverlayOrder, Setting, Usage, MAX_PROXIMITY_SCORE,
};
use crate::facts::{FileSemanticIndex, FileSymbol, Occurrence, RecordFact, SymbolKind, TypeAlias};
use crate::order::{stable_sort, stable_sort_is_in_order, stable_sort_is_permutation, Order};
use crate::text::word_score;

verus! {

// ---------------------------------------------------------------------------
// Names

/// The name is offered; as one that the file declares where `declared_here`.
pub open spec fn is_offered(s: Seq<Overlay>, name: Seq<char>, declared_here: bool) -> bool {
    exists|k: int|
        0 <= k < s.len() && (#[trigger] s[k]).name == name && (declared_here ==> s[k].semantic)
}

proof fn name_is_found(s: Seq<Overlay>, name: Seq<char>, i: int)
    requires
        0 <= i,
    ensures
        match named_from(s, name, i) {
            Some(k) => i <= k < s.len() && s[k].name == name,
            None => forall|k: int| i <= k < s.len() ==> (#[trigger] s[k]).name != name,
        },
    decreases s.len() - i,
{
    if i < s.len() && s[i].name != name {
        name_is_found(s, name, i + 1);
    }
}

proof fn stays_offered(s: Seq<Overlay>, c: Option<Overlay>, name: Seq<char>, declared_here: bool)
    requires
        is_offered(s, name, declared_here),
    ensures
        is_offered(with_declared(s, c), name, declared_here),
{
    let k = choose|k: int|
        0 <= k < s.len() && (#[trigger] s[k]).name == name && (declared_here ==> s[k].semantic);
    if c is Some {
        name_is_found(s, c->0.name, 0);
    }
    let r = with_declared(s, c);
    assert(r[k].name == name && (declared_here ==> r[k].semantic));
}

proof fn becomes_offered(s: Seq<Overlay>, c: Overlay)
    ensures
        is_offered(with_declared(s, Some(c)), c.name, c.semantic),
{
    name_is_found(s, c.name, 0);
    let r = with_declared(s, Some(c));
    match named_from(s, c.name, 0) {
        Some(k) => {
            assert(r[k].name == c.name && (c.semantic ==> r[k].semantic));
        },
        None => {
            assert(r[s.len() as int] == c);
        },
    }
}

spec fn fits(prefix: Seq<char>, name: Seq<char>) -> bool {
    word_score(encode_utf8(prefix), encode_utf8(name)) is Some
}

proof fn symbols_offer(symbols: Seq<FileSymbol>, at: Setting, i: int, n: int)
    requires
        0 <= i < n <= symbols.len(),
        offered(symbols[i].kind, symbols[i].role),
        fits(at.prefix, symbols[i].name@),
    ensures
        is_offered(after_symbols(symbols, at, n), symbols[i].name@, true),
    decreases n,
{
    let s = symbols[n - 1];
    let before = after_symbols(symbols, at, n - 1);
    let c = declared(s.name@, s.kind, s.start_byte as int, at.prefix, at.stats, at.cursor);
    if i == n - 1 {
        becomes_offered(before, c->0);
    } else {
        symbols_offer(symbols, at, i, n - 1);
        stays_offered(before, c, symbols[i].name@, true);
    }
}

proof fn aliases_offer(base: Seq<Overlay>, aliases: Seq<TypeAlias>, at: Setting, i: int, n: int)
    requires
        0 <= i < n <= aliases.len(),
        fits(at.prefix, aliases[i].alias@),
    ensures
        is_offered(after_aliases(base, aliases, at, n), aliases[i].alias@, true),
    decreases n,
{
    let a = aliases[n - 1];
    let before = after_aliases(base, aliases, at, n - 1);
    let c = declared(
        a.alias@,
        SymbolKind::Type,
        a.start_byte as int,
        at.prefix,
        at.stats,
        at.cursor,
    );
    if i == n - 1 {
        becomes_offered(before, c->0);
    } else {
        aliases_offer(base, aliases, at, i, n - 1);
        stays_offered(before, c, aliases[i].alias@, true);
    }
}

proof fn records_offer(base: Seq<Overlay>, records: Seq<RecordFact>, at: Setting, i: int, n: int)
    requires
        0 <= i < n <= records.len(),
        fits(at.prefix, records[i].display_name@),
    ensures
        is_offered(after_records(base, records, at, n), records[i].display_name@, true),
    decreases n,
{
    let r = records[n - 1];
    let before = after_records(base, records, at, n - 1);
    let c = declared(
        r.display_name@,
        SymbolKind::Type,
        r.start_byte as int,
        at.prefix,
        at.stats,
        at.cursor,
    );
    if i == n - 1 {
        becomes_offered(before, c->0);
    } else {
        records_offer(base, records, at, i, n - 1);
        stays_offered(before, c, records[i].display_name@, true);
    }
}

proof fn uses_offer(
    base: Seq<Overlay>,
    uses: Seq<Usage>,
    prefix: Seq<char>,
    cursor: int,
    i: int,
    n: int,
)
    requires
        0 <= i < n <= uses.len(),
        fits(prefix, uses[i].name),
    ensures
        is_offered(after_uses(base, uses, prefix, cursor, n), uses[i].name, false),
    decreases n,
{
    let before = after_uses(base, uses, prefix, cursor, n - 1);
    let c = used(uses[n - 1], prefix, cursor);
    if i == n - 1 {
        becomes_offered(before, c->0);
    } else {
        uses_offer(base, uses, prefix, cursor, i, n - 1);
        stays_offered(before, c, uses[i].name, false);
    }
}

proof fn aliases_keep(
    base: Seq<Overlay>,
    aliases: Seq<TypeAlias>,
    at: Setting,
    n: int,
    name: Seq<char>,
)
    requires
        is_offered(base, name, true),
    ensures
        is_offered(after_aliases(base, aliases, at, n), name, true),
    decreases n,
{
    if n > 0 {
        aliases_keep(base, aliases, at, n - 1, name);
        let a = aliases[n - 1];
        stays_offered(
            after_aliases(base, aliases, at, n - 1),
            declared(
                a.alias@,
                SymbolKind::Type,
                a.start_byte as int,
                at.prefix,
                at.stats,
                at.cursor,
            ),
            name,
            true,
        );
    }
}

proof fn using_keeps(
    base: Seq<Overlay>,
    bytes: Seq<u8>,
    spans: Seq<(int, int)>,
    at: Setting,
    n: int,
    name: Seq<char>,
)
    requires
        is_offered(base, name, true),
    ensures
        is_offered(after_using(base, bytes, spans, at, n), name, true),
    decreases n,
{
    if n > 0 {
        using_keeps(base, bytes, spans, at, n - 1, name);
        stays_offered(
            after_using(base, bytes, spans, at, n - 1),
            declared(
                spelled_at(bytes, spans[n - 1]),
                SymbolKind::Type,
                spans[n - 1].0,
                at.prefix,
                at.stats,
                at.cursor,
            ),
            name,
            true,
        );
    }
}

proof fn records_keep(
    base: Seq<Overlay>,
    records: Seq<RecordFact>,
    at: Setting,
    n: int,
    name: Seq<char>,
)
    requires
        is_offered(base, name, true),
    ensures
        is_offered(after_records(base, records, at, n), name, true),
    decreases n,
{
    if n > 0 {
        records_keep(base, records, at, n - 1, name);
        let r = records[n - 1];
        stays_offered(
            after_records(base, records, at, n - 1),
            declared(
                r.display_name@,
                SymbolKind::Type,
                r.start_byte as int,
                at.prefix,
                at.stats,
                at.cursor,
            ),
            name,
            true,
        );
    }
}

proof fn uses_keep(
    base: Seq<Overlay>,
    uses: Seq<Usage>,
    prefix: Seq<char>,
    cursor: int,
    n: int,
    name: Seq<char>,
)
    requires
        is_offered(base, name, true),
    ensures
        is_offered(after_uses(base, uses, prefix, cursor, n), name, true),
    decreases n,
{
    if n > 0 {
        uses_keep(base, uses, prefix, cursor, n - 1, name);
        stays_offered(
            after_uses(base, uses, prefix, cursor, n - 1),
            used(uses[n - 1], prefix, cursor),
            name,
            true,
        );
    }
}

/// Everything that the file declares and that matches is offered as declared
/// in it: symbols that can be completed, aliases and records.
pub proof fn every_declaration_is_offered(
    index: FileSemanticIndex,
    bytes: Seq<u8>,
    cursor: int,
    prefix: Seq<char>,
    i: int,
)
    ensures
        0 <= i < index.symbols@.len() && offered(index.symbols@[i].kind, index.symbols@[i].role)
            && word_score(encode_utf8(prefix), encode_utf8(index.symbols@[i].name@)) is Some
            ==> is_offered(
            overlays(index, bytes, cursor, prefix),
            index.symbols@[i].name@,
            true,
        ),
        0 <= i < index.aliases@.len() && word_score(
            encode_utf8(prefix),
            encode_utf8(index.aliases@[i].alias@),
        ) is Some ==> is_offered(
            overlays(index, bytes, cursor, prefix),
            index.aliases@[i].alias@,
            true,
        ),
        0 <= i < index.records@.len() && word_score(
            encode_utf8(prefix),
            encode_utf8(index.records@[i].display_name@),
        ) is Some ==> is_offered(
            overlays(index, bytes, cursor, prefix),
            index.records@[i].display_name@,
            true,
        ),
{
    let (symbols, aliases, records) = (index.symbols@, index.aliases@, index.records@);
    let (ns, na, nr) = (symbols.len() as int, aliases.len() as int, records.len() as int);
    let stats = occurrence_usage(
        index.occurrences@,
        cursor,
        prefix,
        index.occurrences@.len() as int,
    );
    let at = Setting { prefix, stats, cursor };
    let a = after_symbols(symbols, at, ns);
    let b = after_aliases(a, aliases, at, na);
    let spans = using_from(bytes, 0, cursor);
    let nu = spans.len() as int;
    let c = after_using(b, bytes, spans, at, nu);
    let d = after_records(c, records, at, nr);
    let uses = if reads_raw_text(index) {
        span_usage(bytes, identifiers_from(bytes, 0, cursor), cursor, prefix, Seq::empty(), 0)
    } else {
        stats
    };
    let n = uses.len() as int;
    if 0 <= i < ns && offered(symbols[i].kind, symbols[i].role) && fits(prefix, symbols[i].name@) {
        let name = symbols[i].name@;
        symbols_offer(symbols, at, i, ns);
        aliases_keep(a, aliases, at, na, name);
        using_keeps(b, bytes, spans, at, nu, name);
        records_keep(c, records, at, nr, name);
        uses_keep(d, uses, prefix, cursor, n, name);
    }
    if 0 <= i < na && fits(prefix, aliases[i].alias@) {
        let name = aliases[i].alias@;
        aliases_offer(a, aliases, at, i, na);
        using_keeps(b, bytes, spans, at, nu, name);
        records_keep(c, records, at, nr, name);
        uses_keep(d, uses, prefix, cursor, n, name);
    }
    if 0 <= i < nr && fits(prefix, records[i].display_name@) {
        let name = records[i].display_name@;
        records_offer(c, records, at, i, nr);
        uses_keep(d, uses, prefix, cursor, n, name);
    }
}

// ---------------------------------------------------------------------------
// Uses

/// How many of the first `n` occurrences are uses of the name.
pub open spec fn uses_of(
    occurrences: Seq<Occurrence>,
    cursor: int,
    prefix: Seq<char>,
    name: Seq<char>,
    n: int,
) -> nat {
    set_int_range(0, n).filter(|i: int| is_use_of(occurrences, cursor, prefix, name, i)).len()
}

pub open spec fn is_use_of(
    occurrences: Seq<Occurrence>,
    cursor: int,
    prefix: Seq<char>,
    name: Seq<char>,
    i: int,
) -> bool {
    let o = occurrences[i];
    o.name@ == name && use_counts(o.name@, end_of(o.start_byte, o.name@), cursor, prefix)
}

proof fn usage_is_found(s: Seq<Usage>, name: Seq<char>, i: int)
    requires
        0 <= i,
    ensures
        match usage_from(s, name, i) {
            Some(k) => i <= k < s.len() && s[k].name == name,
            None => true,
        },
    decreases s.len() - i,
{
    if i < s.len() && s[i].name != name {
        usage_is_found(s, name, i + 1);
    }
}

proof fn usage_by_names(s: Seq<Usage>, t: Seq<Usage>, name: Seq<char>, i: int)
    requires
        0 <= i,
        s.len() <= t.len() <= s.len() + 1,
        forall|k: int| 0 <= k < s.len() ==> (#[trigger] t[k]).name == s[k].name,
    ensures
        usage_from(s, name, i) is Some ==> usage_from(t, name, i) == usage_from(s, name, i),
        usage_from(s, name, i) is None && i <= s.len() ==> usage_from(t, name, i) == if t.len()
            > s.len() && t.last().name == name {
            Some(s.len() as int)
        } else {
            None
        },
    decreases s.len() + 1 - i,
{
    if i < s.len() {
        assert(t[i].name == s[i].name);
        if s[i].name != name {
            usage_by_names(s, t, name, i + 1);
        }
    } else if i == s.len() && t.len() > s.len() {
        assert(t[i] == t.last());
        if t[i].name != name {
            assert(usage_from(t, name, i + 1) is None);
        }
    }
}

/// What is counted for a name among the first `n` occurrences.
spec fn is_tally(
    occurrences: Seq<Occurrence>,
    cursor: int,
    prefix: Seq<char>,
    name: Seq<char>,
    n: int,
    stats: Seq<Usage>,
) -> bool {
    match usage_from(stats, name, 0) {
        Some(k) => {
            &&& stats[k].count == uses_of(occurrences, cursor, prefix, name, n)
            &&& stats[k].count > 0
            &&& forall|i: int|
                0 <= i < n && #[trigger] is_use_of(occurrences, cursor, prefix, name, i)
                    ==> occurrences[i].start_byte <= stats[k].nearest
            &&& exists|i: int|
                0 <= i < n && #[trigger] is_use_of(occurrences, cursor, prefix, name, i)
                    && occurrences[i].start_byte == stats[k].nearest
        },
        None => uses_of(occurrences, cursor, prefix, name, n) == 0 && forall|i: int|
            0 <= i < n ==> !#[trigger] is_use_of(occurrences, cursor, prefix, name, i),
    }
}

proof fn tally_holds(
    occurrences: Seq<Occurrence>,
    cursor: int,
    prefix: Seq<char>,
    name: Seq<char>,
    n: int,
)
    requires
        0 <= n <= occurrences.len(),
    ensures
        is_tally(
            occurrences,
            cursor,
            prefix,
            name,
            n,
            occurrence_usage(occurrences, cursor, prefix, n),
        ),
    decreases n,
{
    let test = |i: int| is_use_of(occurrences, cursor, prefix, name, i);
    if n <= 0 {
        assert(set_int_range(0, n).filter(test) =~= Set::empty());
    } else {
        tally_holds(occurrences, cursor, prefix, name, n - 1);
        one_more(test, n - 1);
        let o = occurrences[n - 1];
        let before = occurrence_usage(occurrences, cursor, prefix, n - 1);
        let stats = occurrence_usage(occurrences, cursor, prefix, n);
        if use_counts(o.name@, end_of(o.start_byte, o.name@), cursor, prefix) {
            usage_is_found(before, o.name@, 0);
            usage_is_found(before, name, 0);
            usage_by_names(before, stats, name, 0);
            if o.name@ == name {
                assert(is_use_of(occurrences, cursor, prefix, name, n - 1));
                match usage_from(before, name, 0) {
                    Some(k) => {
                        assert(usage_from(stats, name, 0) == Some(k));
                        if stats[k].nearest != o.start_byte {
                            let i = choose|i: int|
                                0 <= i < n - 1 && #[trigger] is_use_of(
                                    occurrences,
                                    cursor,
                                    prefix,
                                    name,
                                    i,
                                ) && occurrences[i].start_byte == before[k].nearest;
                            assert(is_use_of(occurrences, cursor, prefix, name, i));
                        }
                    },
                    None => {
                        assert(usage_from(stats, name, 0) == Some(before.len() as int));
                    },
                }
            } else {
                assert(!is_use_of(occurrences, cursor, prefix, name, n - 1));
                if usage_from(before, name, 0) is Some {
                    let k = usage_from(before, name, 0)->0;
                    assert(stats[k] == before[k]);
                }
            }
        } else {
            assert(!is_use_of(occurrences, cursor, prefix, name, n - 1));
        }
    }
}

/// Every use of a name before the cursor is counted, however many there are,
/// and the last of them is the nearest. A name without uses is not listed.
pub proof fn every_use_is_counted(
    occurrences: Seq<Occurrence>,
    cursor: int,
    prefix: Seq<char>,
    name: Seq<char>,
)
    ensures
        ({
            let n = occurrences.len() as int;
            let stats = occurrence_usage(occurrences, cursor, prefix, n);
            match usage_from(stats, name, 0) {
                Some(k) => {
                    &&& 0 <= k < stats.len()
                    &&& stats[k].name == name
                    &&& stats[k].count == uses_of(occurrences, cursor, prefix, name, n)
                    &&& forall|i: int|
                        0 <= i < n && #[trigger] is_use_of(occurrences, cursor, prefix, name, i)
                            ==> occurrences[i].start_byte <= stats[k].nearest
                    &&& exists|i: int|
                        0 <= i < n && #[trigger] is_use_of(occurrences, cursor, prefix, name, i)
                            && occurrences[i].start_byte == stats[k].nearest
                },
                None => forall|i: int|
                    0 <= i < n ==> !#[trigger] is_use_of(occurrences, cursor, prefix, name, i),
            }
        }),
{
    let n = occurrences.len() as int;
    tally_holds(occurrences, cursor, prefix, name, n);
    usage_is_found(occurrence_usage(occurrences, cursor, prefix, n), name, 0);
}

/// Every name that is used before the cursor and matches is offered.
pub proof fn every_use_is_offered(
    index: FileSemanticIndex,
    bytes: Seq<u8>,
    cursor: int,
    prefix: Seq<char>,
    i: int,
)
    requires
        !reads_raw_text(index),
        0 <= i < index.occurrences@.len(),
        is_use_of(index.occurrences@, cursor, prefix, index.occurrences@[i].name@, i),
    ensures
        is_offered(
            overlays(index, bytes, cursor, prefix),
            index.occurrences@[i].name@,
            false,
        ),
{
    let occurrences = index.occurrences@;
    let name = occurrences[i].name@;
    let stats = occurrence_usage(occurrences, cursor, prefix, occurrences.len() as int);
    tally_holds(occurrences, cursor, prefix, name, occurrences.len() as int);
    usage_is_found(stats, name, 0);
    let k = usage_from(stats, name, 0)->0;
    let at = Setting { prefix, stats, cursor };
    let a = after_symbols(index.symbols@, at, index.symbols@.len() as int);
    let b = after_aliases(a, index.aliases@, at, index.aliases@.len() as int);
    let spans = using_from(bytes, 0, cursor);
    let c = after_using(b, bytes, spans, at, spans.len() as int);
    let d = after_records(c, index.records@, at, index.records@.len() as int);
    uses_offer(d, stats, prefix, cursor, k, stats.len() as int);
}

// ---------------------------------------------------------------------------
// Words of the raw text

/// A whole word of the first `end` bytes: word bytes, no digit first, and
/// nothing on either side that would lengthen it.
pub open spec fn is_whole_word(bytes: Seq<u8>, end: int, span: (int, int)) -> bool {
    let (a, b) = span;
    &&& 0 <= a < b <= end
    &&& !(0x30 <= bytes[a] <= 0x39)
    &&& forall|k: int| a <= k < b ==> is_word_byte(#[trigger] bytes[k])
    &&& a > 0 ==> !is_word_byte(bytes[a - 1])
    &&& b < end ==> !is_word_byte(bytes[b])
}

proof fn word_ends(bytes: Seq<u8>, i: int, stop: int, end: int)
    requires
        0 <= i <= stop <= end <= bytes.len(),
        forall|k: int| i <= k < stop ==> is_word_byte(#[trigger] bytes[k]),
        stop < end ==> !is_word_byte(bytes[stop]),
    ensures
        ident_end(bytes, i, end) == stop,
    decreases stop - i,
{
    if i < stop {
        assert(is_word_byte(bytes[i]));
        word_ends(bytes, i + 1, stop, end);
    }
}

proof fn word_end_facts(bytes: Seq<u8>, i: int, end: int)
    requires
        0 <= i <= end <= bytes.len(),
    ensures
        i <= ident_end(bytes, i, end) <= end,
        forall|k: int| i <= k < ident_end(bytes, i, end) ==> is_word_byte(#[trigger] bytes[k]),
        ident_end(bytes, i, end) < end ==> !is_word_byte(bytes[ident_end(bytes, i, end)]),
    decreases end - i,
{
    if i < end && is_word_byte(bytes[i]) {
        word_end_facts(bytes, i + 1, end);
    }
}

proof fn word_is_listed(bytes: Seq<u8>, i: int, end: int, span: (int, int))
    requires
        end <= bytes.len(),
        is_whole_word(bytes, end, span),
        0 <= i <= span.0,
    ensures
        identifiers_from(bytes, i, end).contains(span),
    decreases end - i,
{
    let (a, b) = span;
    let list = identifiers_from(bytes, i, end);
    assert(is_word_byte(bytes[a]));
    if i == a {
        word_ends(bytes, a + 1, b, end);
        assert(list[0] == span);
    } else if is_word_byte(bytes[i]) && !(0x30 <= bytes[i] <= 0x39) {
        let stop = ident_end(bytes, i + 1, end);
        word_end_facts(bytes, i + 1, end);
        if stop > a {
            assert(is_word_byte(bytes[a - 1]));
        }
        word_is_listed(bytes, stop, end, span);
        let rest = identifiers_from(bytes, stop, end);
        let k = choose|k: int| 0 <= k < rest.len() && rest[k] == span;
        assert(list[k + 1] == span);
    } else {
        word_is_listed(bytes, i + 1, end, span);
    }
}

proof fn listed_is_word(bytes: Seq<u8>, i: int, end: int, k: int)
    requires
        0 <= i,
        end <= bytes.len(),
        0 <= k < identifiers_from(bytes, i, end).len(),
    ensures
        ({
            let (a, b) = identifiers_from(bytes, i, end)[k];
            &&& i <= a < b <= end
            &&& !(0x30 <= bytes[a] <= 0x39)
            &&& forall|j: int| a <= j < b ==> is_word_byte(#[trigger] bytes[j])
            &&& b < end ==> !is_word_byte(bytes[b])
        }),
    decreases end - i,
{
    if i < end {
        if is_word_byte(bytes[i]) && !(0x30 <= bytes[i] <= 0x39) {
            let stop = ident_end(bytes, i + 1, end);
            word_end_facts(bytes, i + 1, end);
            if k > 0 {
                listed_is_word(bytes, stop, end, k - 1);
            }
        } else {
            listed_is_word(bytes, i + 1, end, k);
        }
    }
}

/// Where the text itself is read, every whole word before the cursor is found,
/// and all that is found is made of word bytes and ends where a word ends.
pub proof fn every_word_is_found(bytes: Seq<u8>, end: int, span: (int, int), k: int)
    requires
        end <= bytes.len(),
    ensures
        is_whole_word(bytes, end, span) ==> identifiers_from(bytes, 0, end).contains(span),
        0 <= k < identifiers_from(bytes, 0, end).len() ==> {
            let (a, b) = identifiers_from(bytes, 0, end)[k];
            &&& 0 <= a < b <= end
            &&& !(0x30 <= bytes[a] <= 0x39)
            &&& forall|j: int| a <= j < b ==> is_word_byte(#[trigger] bytes[j])
            &&& b < end ==> !is_word_byte(bytes[b])
        },
{
    if is_whole_word(bytes, end, span) {
        word_is_listed(bytes, 0, end, span);
    }
    if 0 <= k < identifiers_from(bytes, 0, end).len() {
        listed_is_word(bytes, 0, end, k);
    }
}

// ---------------------------------------------------------------------------
// Nearness

/// A name that is used nearer or more often is never rated lower. Each of the
/// first five uses adds to the rating, and so does each step nearer; no rating
/// is larger than the largest one.
pub proof fn nearer_and_oftener_is_better(
    count: int,
    more: int,
    nearest: int,
    nearer: int,
    cursor: int,
)
    requires
        1 <= count <= more,
        nearest <= nearer <= cursor,
    ensures
        proximity(count, nearest, cursor) <= proximity(more, nearer, cursor),
        more <= 5 ==> proximity(more, nearest, cursor) - proximity(count, nearest, cursor) == 20 * (
        more - count),
        cursor - nearer <= 32 && 32 < cursor - nearest ==> proximity(count, nearest, cursor)
            < proximity(count, nearer, cursor),
        cursor - nearer <= 2048 && 2048 < cursor - nearest ==> proximity(count, nearest, cursor)
            < proximity(count, nearer, cursor),
        0 < proximity(count, nearest, cursor) <= MAX_PROXIMITY_SCORE,
{
}

// ---------------------------------------------------------------------------
// Uses in the raw text

proof fn usage_stays(acc: Seq<Usage>, other: Seq<char>, start: int, name: Seq<char>)
    requires
        usage_from(acc, name, 0) is Some || other == name,
    ensures
        usage_from(with_usage(acc, other, start), name, 0) is Some,
{
    usage_is_found(acc, other, 0);
    usage_is_found(acc, name, 0);
    usage_by_names(acc, with_usage(acc, other, start), name, 0);
}

proof fn span_is_used(
    bytes: Seq<u8>,
    spans: Seq<(int, int)>,
    cursor: int,
    prefix: Seq<char>,
    acc: Seq<Usage>,
    k: int,
    j: int,
    name: Seq<char>,
)
    requires
        0 <= k,
        usage_from(acc, name, 0) is Some || (k <= j < spans.len() && spelled_at(bytes, spans[j])
            == name && use_counts(name, spans[j].1, cursor, prefix)),
    ensures
        usage_from(span_usage(bytes, spans, cursor, prefix, acc, k), name, 0) is Some,
    decreases spans.len() - k,
{
    if k < spans.len() {
        let here = spelled_at(bytes, spans[k]);
        let next = if use_counts(here, spans[k].1, cursor, prefix) {
            with_usage(acc, here, spans[k].0)
        } else {
            acc
        };
        if use_counts(here, spans[k].1, cursor, prefix) && (usage_from(acc, name, 0) is Some || here
            == name) {
            usage_stays(acc, here, spans[k].0, name);
        }
        span_is_used(bytes, spans, cursor, prefix, next, k + 1, j, name);
    }
}

/// Where the text itself is read, every whole word before the cursor that
/// counts as a use is offered.
pub proof fn every_word_in_the_text_is_offered(
    index: FileSemanticIndex,
    bytes: Seq<u8>,
    cursor: int,
    prefix: Seq<char>,
    span: (int, int),
)
    requires
        reads_raw_text(index),
        cursor <= bytes.len(),
        is_whole_word(bytes, cursor, span),
        use_counts(spelled_at(bytes, span), span.1, cursor, prefix),
    ensures
        is_offered(overlays(index, bytes, cursor, prefix), spelled_at(bytes, span), false),
{
    let name = spelled_at(bytes, span);
    let spans = identifiers_from(bytes, 0, cursor);
    word_is_listed(bytes, 0, cursor, span);
    let j = choose|j: int| 0 <= j < spans.len() && spans[j] == span;
    let uses = span_usage(bytes, spans, cursor, prefix, Seq::empty(), 0);
    span_is_used(bytes, spans, cursor, prefix, Seq::empty(), 0, j, name);
    usage_is_found(uses, name, 0);
    let k = usage_from(uses, name, 0)->0;
    let stats = occurrence_usage(
        index.occurrences@,
        cursor,
        prefix,
        index.occurrences@.len() as int,
    );
    let at = Setting { prefix, stats, cursor };
    let a = after_symbols(index.symbols@, at, index.symbols@.len() as int);
    let b = after_aliases(a, index.aliases@, at, index.aliases@.len() as int);
    let given = using_from(bytes, 0, cursor);
    let c = after_using(b, bytes, given, at, given.len() as int);
    let d = after_records(c, index.records@, at, index.records@.len() as int);
    uses_offer(d, uses, prefix, cursor, k, uses.len() as int);
}

// ---------------------------------------------------------------------------
// Aliases in the text

/// The bytes of `using` and a blank.
pub open spec fn using_word() -> Seq<u8> {
    seq![0x75u8, 0x73, 0x69, 0x6E, 0x67, 0x20]
}

/// Text before an alias: no `u`, and at its end nothing that would make the
/// keyword a part of a longer word.
pub open spec fn is_filler(s: Seq<u8>) -> bool {
    &&& forall|i: int| 0 <= i < s.len() ==> #[trigger] s[i] != 0x75
    &&& s.len() > 0 ==> !is_word_byte(s.last())
}

pub open spec fn is_alias_name(s: Seq<u8>) -> bool {
    &&& s.len() > 0
    &&& !(0x30 <= s[0] <= 0x39)
    &&& forall|i: int| 0 <= i < s.len() ==> is_word_byte(#[trigger] s[i])
}

/// Aliases as they are written, each behind its filler.
pub open spec fn aliases_text(aliases: Seq<(Seq<u8>, Seq<u8>)>, k: int) -> Seq<u8>
    decreases aliases.len() - k,
{
    if k < 0 || k >= aliases.len() {
        Seq::empty()
    } else {
        aliases[k].0 + using_word() + aliases[k].1 + seq![0x20u8, 0x3D] + aliases_text(
            aliases,
            k + 1,
        )
    }
}

/// Where the names of the aliases stand.
pub open spec fn alias_spans(aliases: Seq<(Seq<u8>, Seq<u8>)>, k: int, at: int) -> Seq<(int, int)>
    decreases aliases.len() - k,
{
    if k < 0 || k >= aliases.len() {
        Seq::empty()
    } else {
        let start = at + aliases[k].0.len() + 6;
        let stop = start + aliases[k].1.len();
        seq![(start, stop)] + alias_spans(aliases, k + 1, stop + 2)
    }
}

proof fn keyword_spelled()
    ensures
        encode_utf8("using"@) == seq![0x75u8, 0x73, 0x69, 0x6E, 0x67],
{
    reveal_strlit("using");
    let w = "using"@;
    assert(is_ascii_chars(w));
    is_ascii_chars_encode_utf8(w);
    assert(w[0] as u8 == 0x75 && w[1] as u8 == 0x73 && w[2] as u8 == 0x69 && w[3] as u8 == 0x6E
        && w[4] as u8 == 0x67);
    assert(encode_utf8(w) =~= seq![0x75u8, 0x73, 0x69, 0x6E, 0x67]);
}

proof fn filler_passed(bytes: Seq<u8>, i: int, j: int, end: int)
    requires
        0 <= i <= j <= end <= bytes.len(),
        forall|k: int| i <= k < j ==> #[trigger] bytes[k] != 0x75,
    ensures
        using_from(bytes, i, end) == using_from(bytes, j, end),
    decreases j - i,
{
    if i < j {
        keyword_spelled();
        assert(bytes[i] != 0x75);
        if keyword_here(bytes, i, end) {
            assert(bytes.subrange(i, i + 5)[0] == bytes[i]);
        }
        filler_passed(bytes, i + 1, j, end);
    }
}

/// One alias is read, and reading goes on behind it.
proof fn alias_read(bytes: Seq<u8>, at: int, end: int, name: Seq<u8>)
    requires
        0 <= at,
        at + name.len() + 8 <= end <= bytes.len(),
        is_alias_name(name),
        at > 0 ==> !is_word_byte(bytes[at - 1]),
        bytes.subrange(at, at + 6) == using_word(),
        bytes.subrange(at + 6, at + 6 + name.len()) == name,
        bytes[at + 6 + name.len()] == 0x20,
        bytes[at + 7 + name.len()] == 0x3D,
    ensures
        using_from(bytes, at, end) == seq![(at + 6, at + 6 + name.len() as int)] + using_from(
            bytes,
            at + 8 + name.len(),
            end,
        ),
{
    keyword_spelled();
    let start = at + 6;
    let stop = start + name.len();
    let head = bytes.subrange(at, at + 6);
    assert(bytes.subrange(at, at + 5) =~= head.subrange(0, 5));
    assert(head.subrange(0, 5) =~= seq![0x75u8, 0x73, 0x69, 0x6E, 0x67]);
    assert(bytes[at + 5] == head[5]);
    assert(keyword_here(bytes, at, end));
    let own = bytes.subrange(start, stop);
    assert forall|k: int| start <= k < stop implies is_word_byte(#[trigger] bytes[k]) by {
        assert(bytes[k] == own[k - start]);
        assert(is_word_byte(name[k - start]));
    }
    assert(bytes[start] == own[0]);
    assert(is_word_byte(bytes[start]));
    assert(spaces_until(bytes, start, end) == start);
    assert(spaces_until(bytes, at + 5, end) == start);
    word_ends(bytes, start + 1, stop, end);
    assert(spaces_until(bytes, stop + 1, end) == stop + 1);
    assert(spaces_until(bytes, stop, end) == stop + 1);
}

proof fn aliases_read(
    bytes: Seq<u8>,
    at: int,
    aliases: Seq<(Seq<u8>, Seq<u8>)>,
    k: int,
    tail: Seq<u8>,
)
    requires
        0 <= at <= bytes.len(),
        0 <= k <= aliases.len(),
        forall|j: int|
            0 <= j < aliases.len() ==> is_filler((#[trigger] aliases[j]).0) && is_alias_name(
                aliases[j].1,
            ),
        forall|i: int| 0 <= i < tail.len() ==> #[trigger] tail[i] != 0x75,
        bytes.subrange(at, bytes.len() as int) == aliases_text(aliases, k) + tail,
        at > 0 ==> bytes[at - 1] == 0x3D,
    ensures
        using_from(bytes, at, bytes.len() as int) == alias_spans(aliases, k, at),
    decreases aliases.len() - k,
{
    let end = bytes.len() as int;
    let rest = bytes.subrange(at, end);
    assert forall|j: int| 0 <= j < rest.len() implies bytes[at + j] == #[trigger] rest[j] by {}
    if k < aliases.len() {
        let (filler, name) = aliases[k];
        assert(is_filler(filler) && is_alias_name(name));
        let more = aliases_text(aliases, k + 1) + tail;
        let f = filler.len() as int;
        let m = name.len() as int;
        assert(rest =~= filler + using_word() + name + seq![0x20u8, 0x3D] + more);
        assert forall|j: int| at <= j < at + f implies #[trigger] bytes[j] != 0x75 by {
            assert(bytes[at + (j - at)] == rest[j - at]);
            assert(rest[j - at] == filler[j - at]);
        }
        filler_passed(bytes, at, at + f, end);
        let key = at + f;
        assert(bytes.subrange(key, key + 6) =~= using_word()) by {
            assert forall|j: int| 0 <= j < 6 implies bytes[key + j] == using_word()[j] by {
                assert(bytes[at + (f + j)] == rest[f + j]);
            }
        }
        assert(bytes.subrange(key + 6, key + 6 + m) =~= name) by {
            assert forall|j: int| 0 <= j < m implies bytes[key + 6 + j] == name[j] by {
                assert(bytes[at + (f + 6 + j)] == rest[f + 6 + j]);
            }
        }
        assert(bytes[at + (f + 6 + m)] == rest[f + 6 + m]);
        assert(bytes[at + (f + 7 + m)] == rest[f + 7 + m]);
        if f > 0 {
            assert(bytes[at + (f - 1)] == rest[f - 1]);
            assert(rest[f - 1] == filler.last());
        }
        alias_read(bytes, key, end, name);
        let next = key + 8 + m;
        assert(bytes.subrange(next, end) =~= more) by {
            assert(bytes.subrange(next, end) =~= rest.subrange(f + 8 + m, rest.len() as int));
        }
        assert(bytes[at + (f + 7 + m)] == 0x3D);
        aliases_read(bytes, next, aliases, k + 1, tail);
    } else {
        assert forall|j: int| at <= j < end implies #[trigger] bytes[j] != 0x75 by {
            assert(bytes[at + (j - at)] == rest[j - at]);
            assert(rest[j - at] == tail[j - at]);
        }
        filler_passed(bytes, at, end, end);
    }
}

/// Every alias that a text gives with `using` is found, in order, however many
/// there are.
pub proof fn every_alias_in_the_text_is_found(aliases: Seq<(Seq<u8>, Seq<u8>)>, tail: Seq<u8>)
    requires
        forall|j: int|
            0 <= j < aliases.len() ==> is_filler((#[trigger] aliases[j]).0) && is_alias_name(
                aliases[j].1,
            ),
        forall|i: int| 0 <= i < tail.len() ==> #[trigger] tail[i] != 0x75,
    ensures
        using_from(
            aliases_text(aliases, 0) + tail,
            0,
            (aliases_text(aliases, 0) + tail).len() as int,
        ) == alias_spans(aliases, 0, 0),
{
    let bytes = aliases_text(aliases, 0) + tail;
    assert(bytes.subrange(0, bytes.len() as int) =~= bytes);
    aliases_read(bytes, 0, aliases, 0, tail);
}

// ---------------------------------------------------------------------------
// What is returned

/// What is offered is returned where the limit allows for all of it.
pub proof fn offered_names_are_returned(
    s: Seq<Overlay>,
    limit: int,
    name: Seq<char>,
    declared_here: bool,
)
    requires
        s.len() <= limit,
        is_offered(s, name, declared_here),
    ensures
        is_offered(best_overlays(s, limit), name, declared_here),
{
    broadcast use vstd::seq_lib::group_to_multiset_ensures;

    let best = best_overlays(s, limit);
    let k = choose|k: int|
        0 <= k < s.len() && (#[trigger] s[k]).name == name && (declared_here ==> s[k].semantic);
    stable_sort_is_permutation::<Overlay, OverlayOrder>(s);
    assert(s.contains(s[k]));
    assert(s.to_multiset().count(s[k]) > 0);
    assert(best.contains(s[k]));
    let m = choose|m: int| 0 <= m < best.len() && best[m] == s[k];
    assert(best[m].name == name);
}

/// What is declared comes before what is only used; then better matches come
/// first, then those used nearer and oftener, then those that stand nearer.
pub proof fn returned_names_are_in_order(s: Seq<Overlay>, limit: int, i: int, j: int)
    requires
        0 <= limit,
        0 <= i < j < best_overlays(s, limit).len(),
    ensures
        ({
            let (a, b) = (best_overlays(s, limit)[i], best_overlays(s, limit)[j]);
            &&& b.semantic ==> a.semantic
            &&& a.semantic == b.semantic ==> a.match_score >= b.match_score
            &&& a.semantic == b.semantic && a.match_score == b.match_score ==> a.proximity
                >= b.proximity
            &&& a.semantic == b.semantic && a.match_score == b.match_score && a.proximity
                == b.proximity ==> a.distance <= b.distance
        }),
{
    let sorted = stable_sort::<Overlay, OverlayOrder>(s);
    let best = best_overlays(s, limit);
    overlay_order_is_strict_weak();
    stable_sort_is_in_order::<Overlay, OverlayOrder>(s);
    assert(best[i] == sorted[i] && best[j] == sorted[j]);
    assert(!<OverlayOrder as Order<Overlay>>::before(sorted[j], sorted[i]));
}

} // verus!
