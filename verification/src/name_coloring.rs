//! Which kinds of definitions a name has in scope, for coloring.

use vstd::prelude::*;

use crate::facts::{SemanticFamily, SymbolKind};
use crate::name_recall::eligible;
use crate::name_search::{
    context_of, opt_context, tier_in, tier_in_is_tier_of, CompletionScope, Context,
};
use crate::name_segment::Name;
use crate::name_table::{NameTable, Table};
use crate::model::ScopeTier;

use crate::resolver::{coloring_scope_allows, colors, ResolveContext};
use crate::text_index::TextIndex;

verus! {

/// Definitions of one name, by the kinds that have a color.
#[derive(Debug, Clone, Copy, PartialEq, Eq, Structural)]
pub struct KindCounts {
    pub macros: usize,
    pub types: usize,
    pub enum_constants: usize,
}

/// Counts by name.
pub struct ColorCounts {
    pub names: TextIndex,
    pub counts: Vec<KindCounts>,
}

/// A definition in scope for coloring.
pub open spec fn colors_in(t: Table, ctx: Option<Context>, n: Name) -> bool {
    let tier = tier_in(ctx, n.path, n.external, t.direct_for(n));
    tier == ScopeTier::Current || tier == ScopeTier::Reachable || tier == ScopeTier::External
        || match ctx {
        Some(c) => c.heuristic.contains(n.path),
        None => false,
    }
}

/// The context of a scope; without a scope all workspace files are reachable.
pub open spec fn coloring_context(t: Table, scope: Option<&CompletionScope>) -> Option<Context> {
    match scope {
        Some(_) => context_of(scope),
        None => Some(
            Context {
                current: None,
                files: t.workspace,
                heuristic: Set::empty(),
                open: false,
                direct: None,
            },
        ),
    }
}

/// Slot `i` gives `name` a definition of `kind`.
pub open spec fn defines(
    t: Table,
    ctx: Option<Context>,
    family: Option<SemanticFamily>,
    name: Seq<char>,
    kind: SymbolKind,
    i: int,
) -> bool {
    eligible(t, family, i) && t.slots[i].name == name && t.slots[i].kind == kind && colors_in(
        t,
        ctx,
        t.slots[i],
    )
}

/// Definitions of `name` of one kind among the first `n` slots.
pub open spec fn defined_below(
    t: Table,
    ctx: Option<Context>,
    family: Option<SemanticFamily>,
    name: Seq<char>,
    kind: SymbolKind,
    n: int,
) -> nat
    decreases n,
{
    if n <= 0 {
        0
    } else {
        defined_below(t, ctx, family, name, kind, n - 1) + if defines(
            t,
            ctx,
            family,
            name,
            kind,
            n - 1,
        ) {
            1nat
        } else {
            0nat
        }
    }
}

pub open spec fn counts_below(
    c: KindCounts,
    t: Table,
    ctx: Option<Context>,
    family: Option<SemanticFamily>,
    name: Seq<char>,
    n: int,
) -> bool {
    &&& c.macros == defined_below(t, ctx, family, name, SymbolKind::Macro, n)
    &&& c.types == defined_below(t, ctx, family, name, SymbolKind::Type, n)
    &&& c.enum_constants == defined_below(t, ctx, family, name, SymbolKind::EnumConstant, n)
}

impl ColorCounts {
    pub open spec fn wf(self) -> bool {
        self.names.wf() && self.counts@.len() == self.names@.len()
    }

    /// The counts are those of a table and a scope, for the names `asked`.
    pub open spec fn describes(
        self,
        t: Table,
        ctx: Option<Context>,
        family: Option<SemanticFamily>,
        asked: Seq<&str>,
    ) -> bool {
        &&& self.wf()
        &&& forall|s: Seq<char>|
            #[trigger] self.names@.contains(s) <==> exists|k: int|
                0 <= k < asked.len() && (#[trigger] asked[k])@ == s
        &&& forall|k: int|
            0 <= k < self.names@.len() ==> counts_below(
                #[trigger] self.counts@[k],
                t,
                ctx,
                family,
                self.names@[k],
                t.slots.len() as int,
            )
    }

    /// The counts of a name; none for a name that was not asked for or has no
    /// definition in scope.
    pub fn get(&self, name: &str) -> (r: Option<KindCounts>)
        requires
            self.wf(),
        ensures
            match r {
                Some(c) => exists|k: int|
                    0 <= k < self.names@.len() && self.names@[k] == name@ && #[trigger] self.counts@[k]
                        == c && (c.macros > 0 || c.types > 0 || c.enum_constants > 0),
                None => forall|k: int|
                    0 <= k < self.names@.len() && self.names@[k] == name@ ==> (
                    #[trigger] self.counts@[k]).macros == 0 && self.counts@[k].types == 0
                        && self.counts@[k].enum_constants == 0,
            },
    {
        match self.names.find(name) {
            Some(k) => {
                let c = self.counts[k];
                if c.macros > 0 || c.types > 0 || c.enum_constants > 0 {
                    assert(self.counts@[k as int] == c);
                    Some(c)
                } else {
                    None
                }
            },
            None => None,
        }
    }
}

proof fn colors_in_is_colors(t: Table, n: Name, ctx: Option<&ResolveContext>)
    ensures
        colors_in(t, opt_context(ctx), n) == colors(n.path, n.external, t.direct_for(n), ctx),
{
    tier_in_is_tier_of(n.path, n.external, t.direct_for(n), ctx);
}

fn index_names(names: &[&str]) -> (r: (TextIndex, Vec<KindCounts>))
    ensures
        r.0.wf(),
        r.1@.len() == r.0@.len(),
        forall|s: Seq<char>|
            #[trigger] r.0@.contains(s) <==> exists|k: int|
                0 <= k < names@.len() && (#[trigger] names@[k])@ == s,
        forall|k: int|
            0 <= k < r.1@.len() ==> (#[trigger] r.1@[k]) == (KindCounts {
                macros: 0,
                types: 0,
                enum_constants: 0,
            }),
{
    let mut index = TextIndex::new();
    let mut counts: Vec<KindCounts> = Vec::new();
    let mut i: usize = 0;
    while i < names.len()
        invariant
            i <= names@.len(),
            index.wf(),
            counts@.len() == index@.len(),
            forall|s: Seq<char>|
                #[trigger] index@.contains(s) <==> exists|k: int|
                    0 <= k < i && (#[trigger] names@[k])@ == s,
            forall|k: int|
                0 <= k < counts@.len() ==> (#[trigger] counts@[k]) == (KindCounts {
                    macros: 0,
                    types: 0,
                    enum_constants: 0,
                }),
        decreases names@.len() - i,
    {
        let ghost before = index@;
        let known: usize = index.len();
        let _ = index.intern(names[i]);
        if index.len() > known {
            counts.push(KindCounts { macros: 0, types: 0, enum_constants: 0 });
        }
        proof {
            let name = names@[i as int]@;
            assert forall|s: Seq<char>| #[trigger] index@.contains(s) <==> exists|k: int|
                0 <= k < i + 1 && (#[trigger] names@[k])@ == s by {
                if before.contains(s) {
                    let j = choose|j: int| 0 <= j < before.len() && before[j] == s;
                    assert(index@[j] == s);
                    let k = choose|k: int| 0 <= k < i && (#[trigger] names@[k])@ == s;
                    assert(names@[k]@ == s);
                }
                if index@.contains(s) && !before.contains(s) {
                    let j = choose|j: int| 0 <= j < index@.len() && index@[j] == s;
                    if j < before.len() {
                        assert(before[j] == s);
                    }
                    assert(names@[i as int]@ == s);
                }
                if exists|k: int| 0 <= k < i + 1 && (#[trigger] names@[k])@ == s {
                    let k = choose|k: int| 0 <= k < i + 1 && (#[trigger] names@[k])@ == s;
                    if k < i {
                        assert(names@[k]@ == s);
                        assert(before.contains(s));
                    }
                }
            }
        }
        i = i + 1;
    }
    (index, counts)
}

impl NameTable {
    fn colorable_kind_counts_filtered(
        &self,
        names: &[&str],
        scope: Option<&CompletionScope>,
        family: Option<SemanticFamily>,
    ) -> (r: ColorCounts)
        requires
            self.wf(),
        ensures
            r.describes(self@, coloring_context(self@, scope), family, names@),
    {
        let (index, mut counts) = index_names(names);
        let owned = match scope {
            Some(s) => s.resolve_context(),
            None => ResolveContext {
                current_path: None,
                reach: Some(&self.all_workspace_reach),
                direct_external_files: None,
            },
        };
        let ctx: Option<&ResolveContext> = Some(&owned);
        let ghost c = coloring_context(self@, scope);
        assert(opt_context(ctx) == c);
        let mut i: usize = 0;
        while i < self.slot_len
            invariant
                self.wf(),
                i <= self.slot_len,
                index.wf(),
                opt_context(ctx) == c,
                counts@.len() == index@.len(),
                forall|k: int|
                    0 <= k < index@.len() ==> counts_below(
                        #[trigger] counts@[k],
                        self@,
                        c,
                        family,
                        index@[k],
                        i as int,
                    ) && counts@[k].macros <= i && counts@[k].types <= i && counts@[k].enum_constants
                        <= i,
            decreases self.slot_len - i,
        {
            let ghost before = counts@;
            let ghost mut hit: Option<int> = None;
            if self.is_active_index(i) {
                let entry = self.entry(i);
                let mine = match family {
                    Some(f) => entry.semantic_family == f,
                    None => true,
                };
                let colored = match entry.kind {
                    SymbolKind::Macro | SymbolKind::Type | SymbolKind::EnumConstant => true,
                    _ => false,
                };
                if mine && colored {
                    match index.find(entry.name) {
                        Some(k) => {
                            let direct = self.directly_included_for(&entry);
                            proof {
                                colors_in_is_colors(self@, entry@, ctx);
                            }
                            if coloring_scope_allows(entry.path, entry.external, direct, ctx) {
                                let mut n = counts[k];
                                assert(counts_below(
                                    counts@[k as int],
                                    self@,
                                    c,
                                    family,
                                    index@[k as int],
                                    i as int,
                                ));
                                match entry.kind {
                                    SymbolKind::Macro => {
                                        n.macros = n.macros + 1;
                                    },
                                    SymbolKind::Type => {
                                        n.types = n.types + 1;
                                    },
                                    SymbolKind::EnumConstant => {
                                        n.enum_constants = n.enum_constants + 1;
                                    },
                                    _ => {},
                                }
                                counts.set(k, n);
                            }
                        },
                        None => {},
                    }
                }
            }
            proof {
                assert forall|k: int| 0 <= k < index@.len() implies counts_below(
                    #[trigger] counts@[k],
                    self@,
                    c,
                    family,
                    index@[k],
                    i + 1,
                ) && counts@[k].macros <= i + 1 && counts@[k].types <= i + 1
                    && counts@[k].enum_constants <= i + 1 by {
                    assert(counts_below(before[k], self@, c, family, index@[k], i as int));
                    let n = self@.slots[i as int];
                    if n.name == index@[k] {
                        assert(index@.contains(n.name));
                    }
                }
            }
            i = i + 1;
        }
        ColorCounts { names: index, counts }
    }

    /// Count the definitions that may color each of `names`.
    pub fn colorable_kind_counts(&self, names: &[&str], scope: Option<&CompletionScope>) -> (r:
        ColorCounts)
        requires
            self.wf(),
        ensures
            r.describes(self@, coloring_context(self@, scope), None, names@),
    {
        self.colorable_kind_counts_filtered(names, scope, None)
    }

    /// As `colorable_kind_counts`, for one language family.
    pub fn colorable_kind_counts_for_family(
        &self,
        names: &[&str],
        scope: Option<&CompletionScope>,
        semantic_family: SemanticFamily,
    ) -> (r: ColorCounts)
        requires
            self.wf(),
        ensures
            r.describes(self@, coloring_context(self@, scope), Some(semantic_family), names@),
    {
        self.colorable_kind_counts_filtered(names, scope, Some(semantic_family))
    }
}

} // verus!
