//! How many there are of something, told as the size of a set.

use vstd::prelude::*;
use vstd::set_lib::{lemma_int_range, set_int_range};

use crate::facts::{SemanticFamily, SymbolKind};
use crate::name_coloring::{counts_below, defined_below, defines, KindCounts};
use crate::name_search::Context;
use crate::name_table::Table;

verus! {

/// Of one place more there is one more, or none.
pub proof fn one_more(test: spec_fn(int) -> bool, n: int)
    requires
        0 <= n,
    ensures
        set_int_range(0, n).filter(test).finite(),
        set_int_range(0, n + 1).filter(test).len() == set_int_range(0, n).filter(test).len()
            + if test(n) {
            1nat
        } else {
            0
        },
{
    let (a, b) = (set_int_range(0, n), set_int_range(0, n + 1));
    lemma_int_range(0, n);
    lemma_int_range(0, n + 1);
    a.lemma_len_filter(test);
    b.lemma_len_filter(test);
    let (x, y) = (a.filter(test), b.filter(test));
    if test(n) {
        assert(y =~= x.insert(n));
        assert(!x.contains(n));
    } else {
        assert(y =~= x);
    }
}

/// The slots that give a name a definition of a kind.
pub open spec fn definitions_of(
    t: Table,
    ctx: Option<Context>,
    family: Option<SemanticFamily>,
    name: Seq<char>,
    kind: SymbolKind,
    n: int,
) -> Set<int> {
    set_int_range(0, n).filter(|i: int| defines(t, ctx, family, name, kind, i))
}

proof fn definitions_are_counted(
    t: Table,
    ctx: Option<Context>,
    family: Option<SemanticFamily>,
    name: Seq<char>,
    kind: SymbolKind,
    n: int,
)
    requires
        0 <= n,
    ensures
        defined_below(t, ctx, family, name, kind, n) == definitions_of(
            t,
            ctx,
            family,
            name,
            kind,
            n,
        ).len(),
    decreases n,
{
    let test = |i: int| defines(t, ctx, family, name, kind, i);
    if n > 0 {
        definitions_are_counted(t, ctx, family, name, kind, n - 1);
        one_more(test, n - 1);
    } else {
        assert(set_int_range(0, n).filter(test) =~= Set::empty());
    }
}

/// The counts of a name are the sizes of the sets of its definitions, however
/// many there are: macros, types and enumeration constants.
pub proof fn color_counts_are_sizes(
    c: KindCounts,
    t: Table,
    ctx: Option<Context>,
    family: Option<SemanticFamily>,
    name: Seq<char>,
)
    requires
        counts_below(c, t, ctx, family, name, t.slots.len() as int),
    ensures
        ({
            let n = t.slots.len() as int;
            &&& c.macros == definitions_of(t, ctx, family, name, SymbolKind::Macro, n).len()
            &&& c.types == definitions_of(t, ctx, family, name, SymbolKind::Type, n).len()
            &&& c.enum_constants == definitions_of(
                t,
                ctx,
                family,
                name,
                SymbolKind::EnumConstant,
                n,
            ).len()
        }),
{
    let n = t.slots.len() as int;
    definitions_are_counted(t, ctx, family, name, SymbolKind::Macro, n);
    definitions_are_counted(t, ctx, family, name, SymbolKind::Type, n);
    definitions_are_counted(t, ctx, family, name, SymbolKind::EnumConstant, n);
}

} // verus!
