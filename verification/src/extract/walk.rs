//! Shared walk state: the file being read, the nearest enclosing function
//! and class, and the facts gathered so far.

use vstd::prelude::*;
use crate::extract::syntax::{line_of, signature_exec, signature_spec, text_of, SyntaxTree};
use crate::model::{
    opt_view, symbol_id, FileFacts, ImportBinding, ImportBindingV, RawCallV, Symbol, SymbolV, EdgeV,
};
use crate::resolve::{binding_views, call_views, edge_views, sym_views};
use crate::text::owned;

verus! {

/// Walk state.
pub struct Ctx {
    pub file: String,
    /// Nearest enclosing function or method symbol id.
    pub enclosing: Option<String>,
    /// Enclosing class: (name, symbol id).
    pub class: Option<(String, String)>,
    pub facts: FileFacts,
}

/// The four fact lists a walk appends to.
#[verifier::ext_equal]
pub ghost struct FactsV {
    pub symbols: Seq<SymbolV>,
    pub calls: Seq<RawCallV>,
    pub imports: Seq<ImportBindingV>,
    pub heritage: Seq<EdgeV>,
}

pub open spec fn facts_view(f: FileFacts) -> FactsV {
    FactsV {
        symbols: sym_views(f.symbols@),
        calls: call_views(f.calls@),
        imports: binding_views(f.imports@),
        heritage: edge_views(f.heritage@),
    }
}

pub open spec fn no_facts() -> FactsV {
    FactsV { symbols: Seq::empty(), calls: Seq::empty(), imports: Seq::empty(), heritage: Seq::empty() }
}

/// Facts `a` followed by facts `b`.
pub open spec fn cat(a: FactsV, b: FactsV) -> FactsV {
    FactsV {
        symbols: a.symbols + b.symbols,
        calls: a.calls + b.calls,
        imports: a.imports + b.imports,
        heritage: a.heritage + b.heritage,
    }
}

pub proof fn lemma_cat_assoc(a: FactsV, b: FactsV, c: FactsV)
    ensures
        cat(cat(a, b), c) == cat(a, cat(b, c)),
        cat(a, no_facts()) == a,
        cat(no_facts(), a) == a,
{
    assert(cat(cat(a, b), c) =~= cat(a, cat(b, c)));
    assert(cat(a, no_facts()) =~= a);
    assert(cat(no_facts(), a) =~= a);
}

pub open spec fn class_view(c: Option<(String, String)>) -> Option<(Seq<char>, Seq<char>)> {
    match c {
        Some(p) => Some((p.0@, p.1@)),
        None => None,
    }
}

/// Everything but the four fact lists is the same.
pub open spec fn same_frame(a: Ctx, b: Ctx) -> bool {
    &&& a.file@ == b.file@
    &&& opt_view(a.enclosing) == opt_view(b.enclosing)
    &&& class_view(a.class) == class_view(b.class)
    &&& a.facts.extra@ == b.facts.extra@
    &&& a.facts.routes@ == b.facts.routes@
}

/// One import binding fact; none when the local name is empty.
pub open spec fn binding_fact(
    file: Seq<char>,
    module: Seq<char>,
    local: Seq<char>,
    imported: Seq<char>,
    kind: Seq<char>,
) -> FactsV {
    if local.len() == 0 {
        no_facts()
    } else {
        FactsV {
            imports: seq![
                ImportBindingV {
                    file_path: file,
                    local_name: local,
                    source_module: module,
                    imported_name: imported,
                    kind: kind,
                },
            ],
            ..no_facts()
        }
    }
}

/// Record an import binding (nothing for an empty local name).
pub fn push_binding(ctx: &mut Ctx, module: &str, local: &str, imported: &str, kind: &str)
    ensures
        same_frame(*final(ctx), *old(ctx)),
        facts_view(final(ctx).facts) == cat(
            facts_view(old(ctx).facts),
            binding_fact(old(ctx).file@, module@, local@, imported@, kind@),
        ),
{
    let lv = crate::text::chars_of(local);
    if lv.len() == 0 {
        proof {
            lemma_cat_assoc(facts_view(ctx.facts), no_facts(), no_facts());
        }
        return;
    }
    let b = ImportBinding {
        file_path: owned(ctx.file.as_str()),
        local_name: owned(local),
        source_module: owned(module),
        imported_name: owned(imported),
        kind: owned(kind),
    };
    let ghost before = facts_view(ctx.facts);
    ctx.facts.imports.push(b);
    assert(facts_view(ctx.facts) =~= cat(
        before,
        binding_fact(old(ctx).file@, module@, local@, imported@, kind@),
    ));
}

/// The symbol for definition node `def` named by node `name`.
pub open spec fn symbol_at(
    t: Seq<crate::extract::syntax::SyntaxNode>,
    file: Seq<char>,
    def: int,
    name: int,
    kind: Seq<char>,
    qual: Option<Seq<char>>,
    exported: bool,
    stop: char,
) -> SymbolV {
    let nm = text_of(t, name);
    let start = line_of(t, def);
    SymbolV {
        id: symbol_id(file, nm, start),
        kind: kind,
        name: nm,
        qualified_name: match qual {
            Some(q) => q,
            None => nm,
        },
        file_path: file,
        start_line: start,
        end_line: (t[def].end_row + 1) as nat,
        exported: exported,
        signature: signature_spec(text_of(t, def), stop),
    }
}

pub open spec fn sym_fact(s: SymbolV) -> FactsV {
    FactsV { symbols: seq![s], ..no_facts() }
}

/// Record the symbol for `def` named by `name`; returns its id.
pub fn push_symbol(
    ctx: &mut Ctx,
    t: &SyntaxTree,
    def: usize,
    name: usize,
    kind: &str,
    qual: Option<String>,
    exported: bool,
    stop: char,
) -> (id: String)
    requires
        t.wf(),
        def < t.nodes@.len(),
        name < t.nodes@.len(),
    ensures
        same_frame(*final(ctx), *old(ctx)),
        facts_view(final(ctx).facts) == cat(
            facts_view(old(ctx).facts),
            sym_fact(symbol_at(t.nodes@, old(ctx).file@, def as int, name as int, kind@, opt_view(qual), exported, stop)),
        ),
        id@ == symbol_at(t.nodes@, old(ctx).file@, def as int, name as int, kind@, opt_view(qual), exported, stop).id,
{
    assert(t.nodes@[def as int].start_row < usize::MAX);
    assert(t.nodes@[def as int].end_row < usize::MAX);
    let nm = owned(t.nodes[name].text.as_str());
    let start = t.nodes[def].start_row + 1;
    let end = t.nodes[def].end_row + 1;
    let id = Symbol::make_id(ctx.file.as_str(), nm.as_str(), start);
    let qn = match qual {
        Some(q) => q,
        None => owned(nm.as_str()),
    };
    let s = Symbol {
        id: owned(id.as_str()),
        kind: owned(kind),
        name: nm,
        qualified_name: qn,
        file_path: owned(ctx.file.as_str()),
        start_line: start,
        end_line: end,
        exported: exported,
        signature: signature_exec(t.nodes[def].text.as_str(), stop),
    };
    let ghost before = facts_view(ctx.facts);
    ctx.facts.symbols.push(s);
    assert(facts_view(ctx.facts) =~= cat(
        before,
        sym_fact(symbol_at(t.nodes@, old(ctx).file@, def as int, name as int, kind@, opt_view(qual), exported, stop)),
    ));
    id
}

} // verus!
