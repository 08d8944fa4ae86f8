//! TS/JS extraction: symbols, call sites, import bindings and heritage
//! clauses from a parsed file, by a recursive walk over node kinds and
//! fields.

pub mod syntax;
pub mod walk;
pub mod parse;
pub mod python;

use vstd::prelude::*;
use crate::extract::syntax::{
    field_child, field_child_exec, first_named, first_named_exec, is_exported, is_exported_exec,
    kind_is, kind_of, kids, line_of,
    named_of_kind_exec, named_of_kind_from, text_of, unquote, unquote_exec, SyntaxNode, SyntaxTree,
    tree_wf,
};
use crate::extract::walk::{
    binding_fact, cat, class_view, facts_view, lemma_cat_assoc, no_facts, push_binding, push_symbol,
    same_frame, sym_fact, symbol_at, Ctx, FactsV,
};
use crate::extract::parse::{parse_shape, parse_syntax, syntax_views};
use crate::extract::python::{py_tree_facts, py_walk};
use crate::heuristics::{extra_edges, extra_edges_spec};
use crate::model::{lang_of_path, module_symbol_id, opt_view, Edge, EdgeV, FileFacts, Lang, RawCall, RawCallV, Symbol};
use crate::plugins::{collect, route_views};
use crate::plugins::express::express_routes;
use crate::plugins::next::next_routes;
use crate::resolve::{call_views, edge_views, sym_views};
use crate::text::{chars_of, owned};

verus! {

// ------------------------------------------------------------- call sites ---

/// The callee of a call expression: an identifier, or a member
/// expression's property (then `true`).
pub open spec fn call_target(t: Seq<SyntaxNode>, i: int) -> Option<(Seq<char>, bool)> {
    match field_child(t, i, "function"@) {
        None => None,
        Some(c) => if kind_of(t, c) == "identifier"@ {
            Some((text_of(t, c), false))
        } else if kind_of(t, c) == "member_expression"@ {
            match field_child(t, c, "property"@) {
                Some(p) => Some((text_of(t, p), true)),
                None => None,
            }
        } else {
            None
        },
    }
}

/// The call site recorded for call expression `i`.
pub open spec fn call_fact(t: Seq<SyntaxNode>, file: Seq<char>, i: int, enc: Option<Seq<char>>) -> FactsV {
    match call_target(t, i) {
        Some(nm) => if nm.0.len() > 0 {
            FactsV {
                calls: seq![
                    RawCallV {
                        from_id: match enc {
                            Some(e) => e,
                            None => module_symbol_id(file),
                        },
                        name: nm.0,
                        member: nm.1,
                        line: line_of(t, i),
                        file_path: file,
                    },
                ],
                ..no_facts()
            }
        } else {
            no_facts()
        },
        None => no_facts(),
    }
}

fn record_call(t: &SyntaxTree, i: usize, ctx: &mut Ctx)
    requires
        t.wf(),
        i < t.nodes@.len(),
    ensures
        same_frame(*final(ctx), *old(ctx)),
        facts_view(final(ctx).facts) == cat(
            facts_view(old(ctx).facts),
            call_fact(t.nodes@, old(ctx).file@, i as int, opt_view(old(ctx).enclosing)),
        ),
{
    proof {
        lemma_cat_assoc(facts_view(ctx.facts), no_facts(), no_facts());
    }
    let callee = match field_child_exec(t, i, "function") {
        Some(c) => c,
        None => return,
    };
    let (name, member) = if kind_is(t, callee, "identifier") {
        (owned(t.nodes[callee].text.as_str()), false)
    } else if kind_is(t, callee, "member_expression") {
        match field_child_exec(t, callee, "property") {
            Some(p) => (owned(t.nodes[p].text.as_str()), true),
            None => return,
        }
    } else {
        return;
    };
    let nv = chars_of(name.as_str());
    if nv.len() == 0 {
        return;
    }
    let from_id = match &ctx.enclosing {
        Some(e) => owned(e.as_str()),
        None => Symbol::module_id(ctx.file.as_str()),
    };
    assert(t.nodes@[i as int].start_row < usize::MAX);
    let c = RawCall {
        from_id: from_id,
        name: name,
        member: member,
        line: t.nodes[i].start_row + 1,
        file_path: owned(ctx.file.as_str()),
    };
    let ghost before = facts_view(ctx.facts);
    ctx.facts.calls.push(c);
    assert(facts_view(ctx.facts) =~= cat(
        before,
        call_fact(t.nodes@, old(ctx).file@, i as int, opt_view(old(ctx).enclosing)),
    ));
}

// ---------------------------------------------------------------- imports ---

/// `(imported, local)` names of an import / export specifier: its `name`
/// field (empty when missing) and its `alias` field (else the name).
pub open spec fn spec_names(t: Seq<SyntaxNode>, s: int) -> (Seq<char>, Seq<char>) {
    let orig = match field_child(t, s, "name"@) {
        Some(n) => text_of(t, n),
        None => Seq::empty(),
    };
    let local = match field_child(t, s, "alias"@) {
        Some(a) => text_of(t, a),
        None => orig,
    };
    (orig, local)
}

/// Bindings of the specifiers of kind `skind` among the children of `p`,
/// from the `k`-th on.
pub open spec fn specifiers(
    t: Seq<SyntaxNode>,
    file: Seq<char>,
    p: int,
    module: Seq<char>,
    skind: Seq<char>,
    bkind: Seq<char>,
    k: int,
) -> FactsV
    decreases kids(t, p).len() - k,
{
    if k < 0 || k >= kids(t, p).len() {
        no_facts()
    } else {
        let s = kids(t, p)[k] as int;
        cat(
            if kind_of(t, s) == skind {
                binding_fact(file, module, spec_names(t, s).1, spec_names(t, s).0, bkind)
            } else {
                no_facts()
            },
            specifiers(t, file, p, module, skind, bkind, k + 1),
        )
    }
}

/// Bindings of one part of an import clause.
pub open spec fn clause_part(t: Seq<SyntaxNode>, file: Seq<char>, part: int, module: Seq<char>) -> FactsV {
    if kind_of(t, part) == "identifier"@ {
        binding_fact(file, module, text_of(t, part), "default"@, "default"@)
    } else if kind_of(t, part) == "namespace_import"@ {
        match first_named(t, part) {
            Some(id) => binding_fact(file, module, text_of(t, id), "*"@, "namespace"@),
            None => no_facts(),
        }
    } else if kind_of(t, part) == "named_imports"@ {
        specifiers(t, file, part, module, "import_specifier"@, "named"@, 0)
    } else {
        no_facts()
    }
}

pub open spec fn clause_parts(t: Seq<SyntaxNode>, file: Seq<char>, c: int, module: Seq<char>, k: int) -> FactsV
    decreases kids(t, c).len() - k,
{
    if k < 0 || k >= kids(t, c).len() {
        no_facts()
    } else {
        cat(clause_part(t, file, kids(t, c)[k] as int, module), clause_parts(t, file, c, module, k + 1))
    }
}

pub open spec fn import_clauses(t: Seq<SyntaxNode>, file: Seq<char>, i: int, module: Seq<char>, k: int) -> FactsV
    decreases kids(t, i).len() - k,
{
    if k < 0 || k >= kids(t, i).len() {
        no_facts()
    } else {
        let c = kids(t, i)[k] as int;
        cat(
            if kind_of(t, c) == "import_clause"@ {
                clause_parts(t, file, c, module, 0)
            } else {
                no_facts()
            },
            import_clauses(t, file, i, module, k + 1),
        )
    }
}

/// The bindings of an import statement: default, namespace and named
/// imports of its (unquoted, non-empty) source module.
pub open spec fn import_fact(t: Seq<SyntaxNode>, file: Seq<char>, i: int) -> FactsV {
    match field_child(t, i, "source"@) {
        None => no_facts(),
        Some(s) => {
            let m = unquote(text_of(t, s));
            if m.len() == 0 {
                no_facts()
            } else {
                import_clauses(t, file, i, m, 0)
            }
        },
    }
}

fn push_specifiers(
    t: &SyntaxTree,
    p: usize,
    module: &str,
    skind: &str,
    bkind: &str,
    ctx: &mut Ctx,
)
    requires
        t.wf(),
        p < t.nodes@.len(),
    ensures
        same_frame(*final(ctx), *old(ctx)),
        facts_view(final(ctx).facts) == cat(
            facts_view(old(ctx).facts),
            specifiers(t.nodes@, old(ctx).file@, p as int, module@, skind@, bkind@, 0),
        ),
{
    let ghost f0 = facts_view(ctx.facts);
    let ghost file = ctx.file@;
    let ghost ts = t.nodes@;
    let n = t.nodes[p].children.len();
    let mut k: usize = 0;
    proof {
        lemma_cat_assoc(f0, specifiers(ts, file, p as int, module@, skind@, bkind@, 0), no_facts());
    }
    while k < n
        invariant
            t.wf(),
            ts == t.nodes@,
            p < ts.len(),
            n == kids(ts, p as int).len(),
            k <= n,
            file == ctx.file@,
            same_frame(*ctx, *old(ctx)),
            cat(facts_view(ctx.facts), specifiers(ts, file, p as int, module@, skind@, bkind@, k as int))
                == cat(f0, specifiers(ts, file, p as int, module@, skind@, bkind@, 0)),
        decreases n - k,
    {
        let s = t.nodes[p].children[k];
        assert(s < ts.len());
        let ghost fa = facts_view(ctx.facts);
        let ghost rest = specifiers(ts, file, p as int, module@, skind@, bkind@, k + 1);
        if kind_is(t, s, skind) {
            let orig = match field_child_exec(t, s, "name") {
                Some(nn) => owned(t.nodes[nn].text.as_str()),
                None => String::new(),
            };
            let local = match field_child_exec(t, s, "alias") {
                Some(a) => owned(t.nodes[a].text.as_str()),
                None => owned(orig.as_str()),
            };
            assert(orig@ == spec_names(ts, s as int).0);
            assert(local@ == spec_names(ts, s as int).1);
            push_binding(ctx, module, local.as_str(), orig.as_str(), bkind);
            proof {
                lemma_cat_assoc(fa, binding_fact(file, module@, local@, orig@, bkind@), rest);
            }
        } else {
            proof {
                lemma_cat_assoc(fa, no_facts(), rest);
            }
        }
        k += 1;
    }
    proof {
        lemma_cat_assoc(facts_view(ctx.facts), no_facts(), no_facts());
    }
}

fn push_clause_part(t: &SyntaxTree, part: usize, module: &str, ctx: &mut Ctx)
    requires
        t.wf(),
        part < t.nodes@.len(),
    ensures
        same_frame(*final(ctx), *old(ctx)),
        facts_view(final(ctx).facts) == cat(
            facts_view(old(ctx).facts),
            clause_part(t.nodes@, old(ctx).file@, part as int, module@),
        ),
{
    proof {
        lemma_cat_assoc(facts_view(ctx.facts), no_facts(), no_facts());
    }
    if kind_is(t, part, "identifier") {
        push_binding(ctx, module, t.nodes[part].text.as_str(), "default", "default");
    } else if kind_is(t, part, "namespace_import") {
        match first_named_exec(t, part) {
            Some(id) => push_binding(ctx, module, t.nodes[id].text.as_str(), "*", "namespace"),
            None => {},
        }
    } else if kind_is(t, part, "named_imports") {
        push_specifiers(t, part, module, "import_specifier", "named", ctx);
    }
}

fn record_imports(t: &SyntaxTree, i: usize, ctx: &mut Ctx)
    requires
        t.wf(),
        i < t.nodes@.len(),
    ensures
        same_frame(*final(ctx), *old(ctx)),
        facts_view(final(ctx).facts) == cat(facts_view(old(ctx).facts), import_fact(t.nodes@, old(ctx).file@, i as int)),
{
    proof {
        lemma_cat_assoc(facts_view(ctx.facts), no_facts(), no_facts());
    }
    let src = match field_child_exec(t, i, "source") {
        Some(s) => s,
        None => return,
    };
    let module = unquote_exec(t.nodes[src].text.as_str());
    let mv = chars_of(module.as_str());
    if mv.len() == 0 {
        return;
    }
    let ghost f0 = facts_view(ctx.facts);
    let ghost file = ctx.file@;
    let ghost ts = t.nodes@;
    let ghost m = module@;
    let n = t.nodes[i].children.len();
    let mut k: usize = 0;
    proof {
        lemma_cat_assoc(f0, import_clauses(ts, file, i as int, m, 0), no_facts());
    }
    while k < n
        invariant
            t.wf(),
            ts == t.nodes@,
            i < ts.len(),
            n == kids(ts, i as int).len(),
            k <= n,
            file == ctx.file@,
            m == module@,
            same_frame(*ctx, *old(ctx)),
            cat(facts_view(ctx.facts), import_clauses(ts, file, i as int, m, k as int)) == cat(
                f0,
                import_clauses(ts, file, i as int, m, 0),
            ),
        decreases n - k,
    {
        let c = t.nodes[i].children[k];
        assert(c < ts.len());
        let ghost fa = facts_view(ctx.facts);
        let ghost rest = import_clauses(ts, file, i as int, m, k + 1);
        if kind_is(t, c, "import_clause") {
            let cn = t.nodes[c].children.len();
            let mut q: usize = 0;
            proof {
                lemma_cat_assoc(fa, clause_parts(ts, file, c as int, m, 0), no_facts());
            }
            while q < cn
                invariant
                    t.wf(),
                    ts == t.nodes@,
                    c < ts.len(),
                    cn == kids(ts, c as int).len(),
                    q <= cn,
                    file == ctx.file@,
                    m == module@,
                    same_frame(*ctx, *old(ctx)),
                    cat(facts_view(ctx.facts), clause_parts(ts, file, c as int, m, q as int)) == cat(
                        fa,
                        clause_parts(ts, file, c as int, m, 0),
                    ),
                decreases cn - q,
            {
                let part = t.nodes[c].children[q];
                assert(part < ts.len());
                let ghost fb = facts_view(ctx.facts);
                push_clause_part(t, part, module.as_str(), ctx);
                proof {
                    lemma_cat_assoc(
                        fb,
                        clause_part(ts, file, part as int, m),
                        clause_parts(ts, file, c as int, m, q + 1),
                    );
                }
                q += 1;
            }
            proof {
                lemma_cat_assoc(facts_view(ctx.facts), no_facts(), no_facts());
                lemma_cat_assoc(fa, clause_parts(ts, file, c as int, m, 0), rest);
            }
        } else {
            proof {
                lemma_cat_assoc(fa, no_facts(), rest);
            }
        }
        k += 1;
    }
    proof {
        lemma_cat_assoc(facts_view(ctx.facts), no_facts(), no_facts());
    }
}

// -------------------------------------------------------------- re-exports ---

/// The module a re-export names: its `source` field, else its first named
/// child that is a string.
pub open spec fn reexport_source(t: Seq<SyntaxNode>, i: int) -> Option<int> {
    match field_child(t, i, "source"@) {
        Some(s) => Some(s),
        None => named_of_kind_from(t, i, "string"@, 0),
    }
}

/// Bindings of one child of an export statement.
pub open spec fn export_part(t: Seq<SyntaxNode>, file: Seq<char>, c: int, module: Seq<char>) -> FactsV {
    if kind_of(t, c) == "export_clause"@ {
        specifiers(t, file, c, module, "export_specifier"@, "named-reexport"@, 0)
    } else if kind_of(t, c) == "namespace_export"@ {
        match first_named(t, c) {
            Some(id) => binding_fact(file, module, text_of(t, id), "*"@, "namespace-reexport"@),
            None => no_facts(),
        }
    } else {
        no_facts()
    }
}

pub open spec fn export_parts(t: Seq<SyntaxNode>, file: Seq<char>, i: int, module: Seq<char>, k: int) -> FactsV
    decreases kids(t, i).len() - k,
{
    if k < 0 || k >= kids(t, i).len() {
        no_facts()
    } else {
        cat(export_part(t, file, kids(t, i)[k] as int, module), export_parts(t, file, i, module, k + 1))
    }
}

/// Some child from the `k`-th on is an export clause or namespace export.
pub open spec fn names_exports_from(t: Seq<SyntaxNode>, i: int, k: int) -> bool
    decreases kids(t, i).len() - k,
{
    if k < 0 || k >= kids(t, i).len() {
        false
    } else {
        let c = kids(t, i)[k] as int;
        kind_of(t, c) == "export_clause"@ || kind_of(t, c) == "namespace_export"@ || names_exports_from(
            t,
            i,
            k + 1,
        )
    }
}

/// The bindings of an export statement with a source module: named and
/// namespace re-exports, or one star re-export when it names none.
pub open spec fn reexport_fact(t: Seq<SyntaxNode>, file: Seq<char>, i: int) -> FactsV {
    match reexport_source(t, i) {
        None => no_facts(),
        Some(s) => {
            let m = unquote(text_of(t, s));
            if m.len() == 0 {
                no_facts()
            } else {
                cat(
                    export_parts(t, file, i, m, 0),
                    if names_exports_from(t, i, 0) {
                        no_facts()
                    } else {
                        binding_fact(file, m, "*"@, "*"@, "star-reexport"@)
                    },
                )
            }
        },
    }
}

fn record_reexports(t: &SyntaxTree, i: usize, ctx: &mut Ctx)
    requires
        t.wf(),
        i < t.nodes@.len(),
    ensures
        same_frame(*final(ctx), *old(ctx)),
        facts_view(final(ctx).facts) == cat(facts_view(old(ctx).facts), reexport_fact(t.nodes@, old(ctx).file@, i as int)),
{
    proof {
        lemma_cat_assoc(facts_view(ctx.facts), no_facts(), no_facts());
    }
    let src = match field_child_exec(t, i, "source") {
        Some(s) => s,
        None => match named_of_kind_exec(t, i, "string") {
            Some(s) => s,
            None => return,
        },
    };
    let module = unquote_exec(t.nodes[src].text.as_str());
    let mv = chars_of(module.as_str());
    if mv.len() == 0 {
        return;
    }
    let ghost f0 = facts_view(ctx.facts);
    let ghost file = ctx.file@;
    let ghost ts = t.nodes@;
    let ghost m = module@;
    let n = t.nodes[i].children.len();
    let mut k: usize = 0;
    let mut saw_named = false;
    proof {
        lemma_cat_assoc(f0, export_parts(ts, file, i as int, m, 0), no_facts());
    }
    while k < n
        invariant
            t.wf(),
            ts == t.nodes@,
            i < ts.len(),
            n == kids(ts, i as int).len(),
            k <= n,
            file == ctx.file@,
            m == module@,
            same_frame(*ctx, *old(ctx)),
            names_exports_from(ts, i as int, 0) == (saw_named || names_exports_from(ts, i as int, k as int)),
            cat(facts_view(ctx.facts), export_parts(ts, file, i as int, m, k as int)) == cat(
                f0,
                export_parts(ts, file, i as int, m, 0),
            ),
        decreases n - k,
    {
        let c = t.nodes[i].children[k];
        assert(c < ts.len());
        let ghost fa = facts_view(ctx.facts);
        let ghost rest = export_parts(ts, file, i as int, m, k + 1);
        if kind_is(t, c, "export_clause") {
            saw_named = true;
            push_specifiers(t, c, module.as_str(), "export_specifier", "named-reexport", ctx);
        } else if kind_is(t, c, "namespace_export") {
            saw_named = true;
            match first_named_exec(t, c) {
                Some(id) => push_binding(ctx, module.as_str(), t.nodes[id].text.as_str(), "*", "namespace-reexport"),
                None => {
                    proof {
                        lemma_cat_assoc(fa, no_facts(), no_facts());
                    }
                },
            }
        } else {
            proof {
                lemma_cat_assoc(fa, no_facts(), no_facts());
            }
        }
        proof {
            lemma_cat_assoc(fa, export_part(ts, file, c as int, m), rest);
        }
        k += 1;
    }
    let ghost f1 = facts_view(ctx.facts);
    proof {
        lemma_cat_assoc(f1, no_facts(), no_facts());
    }
    if !saw_named {
        push_binding(ctx, module.as_str(), "*", "*", "star-reexport");
        proof {
            reveal_strlit("*");
        }
    }
    proof {
        lemma_cat_assoc(f0, export_parts(ts, file, i as int, m, 0), if names_exports_from(ts, i as int, 0) {
            no_facts()
        } else {
            binding_fact(file, m, "*"@, "*"@, "star-reexport"@)
        });
    }
}

// -------------------------------------------------------------- heritage ---

/// The type names under a heritage clause, with their lines: identifiers,
/// type identifiers and member expressions, not looking inside them.
pub open spec fn type_names(t: Seq<SyntaxNode>, n: int) -> Seq<(Seq<char>, nat)>
    decreases t.len() - n, 1int, 0int,
{
    if n < 0 || n >= t.len() {
        Seq::empty()
    } else if kind_of(t, n) == "identifier"@ || kind_of(t, n) == "type_identifier"@ || kind_of(t, n)
        == "member_expression"@ {
        if text_of(t, n).len() > 0 {
            seq![(text_of(t, n), line_of(t, n))]
        } else {
            Seq::empty()
        }
    } else {
        type_names_kids(t, n, 0)
    }
}

pub open spec fn type_names_kids(t: Seq<SyntaxNode>, n: int, k: int) -> Seq<(Seq<char>, nat)>
    decreases t.len() - n, 0int, kids(t, n).len() - k,
{
    if n < 0 || n >= t.len() || k < 0 || k >= kids(t, n).len() {
        Seq::empty()
    } else {
        let c = kids(t, n)[k] as int;
        (if n < c && c < t.len() {
            type_names(t, c)
        } else {
            Seq::empty()
        }) + type_names_kids(t, n, k + 1)
    }
}

/// The edge kind of a heritage clause.
pub open spec fn clause_edge_kind(k: Seq<char>) -> Option<Seq<char>> {
    if k == "extends_clause"@ || k == "extends_type_clause"@ {
        Some("extends"@)
    } else if k == "implements_clause"@ {
        Some("implements"@)
    } else {
        None
    }
}

/// An open (unresolved, weak) heritage edge from a class to a type name.
pub open spec fn heritage_edge(file: Seq<char>, class_id: Seq<char>, kind: Seq<char>, name: (Seq<char>, nat)) -> EdgeV {
    EdgeV {
        src_id: class_id,
        dst_id: None,
        kind: kind,
        raw_name: name.0,
        resolved: false,
        conf: "weak"@,
        reason: "unresolved"@,
        provenance: "ast"@,
        file_path: file,
        line: name.1,
    }
}

pub open spec fn clause_fact(t: Seq<SyntaxNode>, file: Seq<char>, n: int, class_id: Seq<char>) -> FactsV {
    match clause_edge_kind(kind_of(t, n)) {
        Some(ek) => FactsV {
            heritage: type_names(t, n).map_values(|p: (Seq<char>, nat)| heritage_edge(file, class_id, ek, p)),
            ..no_facts()
        },
        None => no_facts(),
    }
}

pub open spec fn heritage_inner(t: Seq<SyntaxNode>, file: Seq<char>, c: int, class_id: Seq<char>, k: int) -> FactsV
    decreases kids(t, c).len() - k,
{
    if k < 0 || k >= kids(t, c).len() {
        no_facts()
    } else {
        cat(clause_fact(t, file, kids(t, c)[k] as int, class_id), heritage_inner(t, file, c, class_id, k + 1))
    }
}

/// The `extends` / `implements` edges of a class: its direct heritage
/// clauses, looking one level into a `class_heritage` wrapper.
pub open spec fn heritage_fact(t: Seq<SyntaxNode>, file: Seq<char>, i: int, class_id: Seq<char>, k: int) -> FactsV
    decreases kids(t, i).len() - k,
{
    if k < 0 || k >= kids(t, i).len() {
        no_facts()
    } else {
        let c = kids(t, i)[k] as int;
        cat(
            if kind_of(t, c) == "class_heritage"@ {
                heritage_inner(t, file, c, class_id, 0)
            } else {
                clause_fact(t, file, c, class_id)
            },
            heritage_fact(t, file, i, class_id, k + 1),
        )
    }
}

fn collect_type_names(t: &SyntaxTree, n: usize, out: &mut Vec<(String, usize)>)
    requires
        t.wf(),
        n < t.nodes@.len(),
    ensures
        final(out)@.map_values(|p: (String, usize)| (p.0@, p.1 as nat)) == old(out)@.map_values(
            |p: (String, usize)| (p.0@, p.1 as nat),
        ) + type_names(t.nodes@, n as int),
    decreases t.nodes@.len() - n, 1int, 0int,
{
    let ghost ts = t.nodes@;
    let ghost before = old(out)@.map_values(|p: (String, usize)| (p.0@, p.1 as nat));
    if kind_is(t, n, "identifier") || kind_is(t, n, "type_identifier") || kind_is(t, n, "member_expression") {
        let tv = chars_of(t.nodes[n].text.as_str());
        if tv.len() > 0 {
            assert(ts[n as int].start_row < usize::MAX);
            out.push((owned(t.nodes[n].text.as_str()), t.nodes[n].start_row + 1));
            assert(out@.map_values(|p: (String, usize)| (p.0@, p.1 as nat)) =~= before + type_names(ts, n as int));
        } else {
            assert(before + type_names(ts, n as int) =~= before);
        }
    } else {
        collect_type_names_kids(t, n, 0, out);
    }
}

fn collect_type_names_kids(t: &SyntaxTree, n: usize, k: usize, out: &mut Vec<(String, usize)>)
    requires
        t.wf(),
        n < t.nodes@.len(),
        k <= t.nodes@[n as int].children@.len(),
    ensures
        final(out)@.map_values(|p: (String, usize)| (p.0@, p.1 as nat)) == old(out)@.map_values(
            |p: (String, usize)| (p.0@, p.1 as nat),
        ) + type_names_kids(t.nodes@, n as int, k as int),
    decreases t.nodes@.len() - n, 0int, t.nodes@[n as int].children@.len() - k,
{
    let ghost ts = t.nodes@;
    let ghost before = old(out)@.map_values(|p: (String, usize)| (p.0@, p.1 as nat));
    if k >= t.nodes[n].children.len() {
        assert(before + type_names_kids(ts, n as int, k as int) =~= before);
        return;
    }
    let c = t.nodes[n].children[k];
    assert(n < c < ts.len());
    collect_type_names(t, c, out);
    collect_type_names_kids(t, n, k + 1, out);
    assert(out@.map_values(|p: (String, usize)| (p.0@, p.1 as nat)) =~= before + type_names_kids(
        ts,
        n as int,
        k as int,
    ));
}

fn emit_clause(t: &SyntaxTree, n: usize, class_id: &str, ctx: &mut Ctx)
    requires
        t.wf(),
        n < t.nodes@.len(),
    ensures
        same_frame(*final(ctx), *old(ctx)),
        facts_view(final(ctx).facts) == cat(
            facts_view(old(ctx).facts),
            clause_fact(t.nodes@, old(ctx).file@, n as int, class_id@),
        ),
{
    let ghost ts = t.nodes@;
    let kind: &str = if kind_is(t, n, "extends_clause") || kind_is(t, n, "extends_type_clause") {
        "extends"
    } else if kind_is(t, n, "implements_clause") {
        "implements"
    } else {
        proof {
            lemma_cat_assoc(facts_view(ctx.facts), no_facts(), no_facts());
        }
        return;
    };
    assert(clause_edge_kind(kind_of(ts, n as int)) == Some(kind@));
    let mut names: Vec<(String, usize)> = Vec::new();
    collect_type_names(t, n, &mut names);
    let ghost tn = type_names(ts, n as int);
    assert(names@.map_values(|p: (String, usize)| (p.0@, p.1 as nat)) =~= tn);
    let ghost f0 = facts_view(ctx.facts);
    let ghost file = ctx.file@;
    let mut j: usize = 0;
    while j < names.len()
        invariant
            j <= names@.len(),
            names@.map_values(|p: (String, usize)| (p.0@, p.1 as nat)) == tn,
            file == ctx.file@,
            same_frame(*ctx, *old(ctx)),
            facts_view(ctx.facts) == cat(
                f0,
                FactsV {
                    heritage: tn.take(j as int).map_values(
                        |p: (Seq<char>, nat)| heritage_edge(file, class_id@, kind@, p),
                    ),
                    ..no_facts()
                },
            ),
        decreases names.len() - j,
    {
        assert(tn[j as int] == (names@[j as int].0@, names@[j as int].1 as nat));
        let e = Edge {
            src_id: owned(class_id),
            dst_id: None,
            kind: owned(kind),
            raw_name: owned(names[j].0.as_str()),
            resolved: false,
            conf: owned("weak"),
            reason: owned("unresolved"),
            provenance: owned("ast"),
            file_path: owned(ctx.file.as_str()),
            line: names[j].1,
        };
        let ghost ev = e@;
        assert(ev == heritage_edge(file, class_id@, kind@, tn[j as int]));
        let ghost prev = facts_view(ctx.facts);
        ctx.facts.heritage.push(e);
        assert(facts_view(ctx.facts).heritage =~= prev.heritage.push(ev));
        assert(facts_view(ctx.facts).symbols == prev.symbols);
        assert(facts_view(ctx.facts).calls == prev.calls);
        assert(facts_view(ctx.facts).imports == prev.imports);
        assert(tn.take(j + 1) =~= tn.take(j as int).push(tn[j as int]));
        assert(tn.take(j + 1).map_values(|p: (Seq<char>, nat)| heritage_edge(file, class_id@, kind@, p))
            =~= tn.take(j as int).map_values(|p: (Seq<char>, nat)| heritage_edge(file, class_id@, kind@, p)).push(ev));
        assert(facts_view(ctx.facts) =~= cat(
            f0,
            FactsV {
                heritage: tn.take(j + 1).map_values(
                    |p: (Seq<char>, nat)| heritage_edge(file, class_id@, kind@, p),
                ),
                ..no_facts()
            },
        ));
        j += 1;
    }
    assert(tn.take(names.len() as int) =~= tn);
}

fn record_heritage(t: &SyntaxTree, i: usize, class_id: &str, ctx: &mut Ctx)
    requires
        t.wf(),
        i < t.nodes@.len(),
    ensures
        same_frame(*final(ctx), *old(ctx)),
        facts_view(final(ctx).facts) == cat(
            facts_view(old(ctx).facts),
            heritage_fact(t.nodes@, old(ctx).file@, i as int, class_id@, 0),
        ),
{
    let ghost f0 = facts_view(ctx.facts);
    let ghost file = ctx.file@;
    let ghost ts = t.nodes@;
    let n = t.nodes[i].children.len();
    let mut k: usize = 0;
    proof {
        lemma_cat_assoc(f0, heritage_fact(ts, file, i as int, class_id@, 0), no_facts());
    }
    while k < n
        invariant
            t.wf(),
            ts == t.nodes@,
            i < ts.len(),
            n == kids(ts, i as int).len(),
            k <= n,
            file == ctx.file@,
            same_frame(*ctx, *old(ctx)),
            cat(facts_view(ctx.facts), heritage_fact(ts, file, i as int, class_id@, k as int)) == cat(
                f0,
                heritage_fact(ts, file, i as int, class_id@, 0),
            ),
        decreases n - k,
    {
        let c = t.nodes[i].children[k];
        assert(c < ts.len());
        let ghost fa = facts_view(ctx.facts);
        let ghost rest = heritage_fact(ts, file, i as int, class_id@, k + 1);
        if kind_is(t, c, "class_heritage") {
            let cn = t.nodes[c].children.len();
            let mut q: usize = 0;
            proof {
                lemma_cat_assoc(fa, heritage_inner(ts, file, c as int, class_id@, 0), no_facts());
            }
            while q < cn
                invariant
                    t.wf(),
                    ts == t.nodes@,
                    c < ts.len(),
                    cn == kids(ts, c as int).len(),
                    q <= cn,
                    file == ctx.file@,
                    same_frame(*ctx, *old(ctx)),
                    cat(facts_view(ctx.facts), heritage_inner(ts, file, c as int, class_id@, q as int))
                        == cat(fa, heritage_inner(ts, file, c as int, class_id@, 0)),
                decreases cn - q,
            {
                let gc = t.nodes[c].children[q];
                assert(gc < ts.len());
                let ghost fb = facts_view(ctx.facts);
                emit_clause(t, gc, class_id, ctx);
                proof {
                    lemma_cat_assoc(
                        fb,
                        clause_fact(ts, file, gc as int, class_id@),
                        heritage_inner(ts, file, c as int, class_id@, q + 1),
                    );
                }
                q += 1;
            }
            proof {
                lemma_cat_assoc(facts_view(ctx.facts), no_facts(), no_facts());
                lemma_cat_assoc(fa, heritage_inner(ts, file, c as int, class_id@, 0), rest);
            }
        } else {
            emit_clause(t, c, class_id, ctx);
            proof {
                lemma_cat_assoc(fa, clause_fact(ts, file, c as int, class_id@), rest);
            }
        }
        k += 1;
    }
    proof {
        lemma_cat_assoc(facts_view(ctx.facts), no_facts(), no_facts());
    }
}

// ------------------------------------------------------------------ walk ---

/// An initializer that makes a variable a function symbol.
pub open spec fn is_fn_value(k: Seq<char>) -> bool {
    k == "arrow_function"@ || k == "function"@ || k == "function_expression"@
}

/// The facts of the subtree at `i`, walked in source order with `enc` the
/// nearest enclosing function / method id and `cls` the enclosing class
/// (name, id).
pub open spec fn visit_spec(
    t: Seq<SyntaxNode>,
    file: Seq<char>,
    i: int,
    enc: Option<Seq<char>>,
    cls: Option<(Seq<char>, Seq<char>)>,
) -> FactsV
    decreases t.len() - i, 2int, 0int,
{
    if i < 0 || i >= t.len() {
        no_facts()
    } else {
        let k = kind_of(t, i);
        let name = field_child(t, i, "name"@);
        if (k == "function_declaration"@ || k == "generator_function_declaration"@) && name is Some {
            let s = symbol_at(t, file, i, name->0, "function"@, None, is_exported(t, i), '{');
            cat(sym_fact(s), visit_kids(t, file, i, 0, Some(s.id), cls))
        } else if (k == "class_declaration"@ || k == "abstract_class_declaration"@) && name is Some {
            let s = symbol_at(t, file, i, name->0, "class"@, None, is_exported(t, i), '{');
            cat(
                sym_fact(s),
                cat(
                    heritage_fact(t, file, i, s.id, 0),
                    visit_kids(t, file, i, 0, enc, Some((text_of(t, name->0), s.id))),
                ),
            )
        } else if k == "method_definition"@ && name is Some {
            let qual = match cls {
                Some(c) => Some(c.0 + "."@ + text_of(t, name->0)),
                None => None,
            };
            let s = symbol_at(t, file, i, name->0, "method"@, qual, is_exported(t, i), '{');
            cat(sym_fact(s), visit_kids(t, file, i, 0, Some(s.id), cls))
        } else if k == "lexical_declaration"@ || k == "variable_declaration"@ {
            decls(t, file, i, 0, is_exported(t, i), enc, cls)
        } else if k == "call_expression"@ {
            cat(call_fact(t, file, i, enc), visit_kids(t, file, i, 0, enc, cls))
        } else if k == "import_statement"@ {
            import_fact(t, file, i)
        } else if k == "export_statement"@ {
            cat(reexport_fact(t, file, i), visit_kids(t, file, i, 0, enc, cls))
        } else {
            visit_kids(t, file, i, 0, enc, cls)
        }
    }
}

/// The facts of the children of `i` from the `k`-th on, each walked with
/// the given context.
pub open spec fn visit_kids(
    t: Seq<SyntaxNode>,
    file: Seq<char>,
    i: int,
    k: int,
    enc: Option<Seq<char>>,
    cls: Option<(Seq<char>, Seq<char>)>,
) -> FactsV
    decreases t.len() - i, 0int, kids(t, i).len() - k,
{
    if i < 0 || i >= t.len() || k < 0 || k >= kids(t, i).len() {
        no_facts()
    } else {
        let c = kids(t, i)[k] as int;
        cat(
            if i < c && c < t.len() {
                visit_spec(t, file, c, enc, cls)
            } else {
                no_facts()
            },
            visit_kids(t, file, i, k + 1, enc, cls),
        )
    }
}

/// The facts of the named declarators of a variable declaration from the
/// `k`-th child on: a declarator initialised with a function becomes a
/// function symbol (exported with its declaration) enclosing its subtree;
/// any other named child is walked as usual.
pub open spec fn decls(
    t: Seq<SyntaxNode>,
    file: Seq<char>,
    i: int,
    k: int,
    exported: bool,
    enc: Option<Seq<char>>,
    cls: Option<(Seq<char>, Seq<char>)>,
) -> FactsV
    decreases t.len() - i, 1int, kids(t, i).len() - k,
{
    if i < 0 || i >= t.len() || k < 0 || k >= kids(t, i).len() {
        no_facts()
    } else {
        let d = kids(t, i)[k] as int;
        let here = if !(i < d && d < t.len()) || !t[d].named || kind_of(t, d) != "variable_declarator"@ {
            no_facts()
        } else {
            let value_is_fn = match field_child(t, d, "value"@) {
                Some(v) => is_fn_value(kind_of(t, v)),
                None => false,
            };
            let nm = field_child(t, d, "name"@);
            if value_is_fn && nm is Some && kind_of(t, nm->0) == "identifier"@ {
                let s = symbol_at(t, file, d, nm->0, "function"@, None, exported, '{');
                cat(sym_fact(s), visit_kids(t, file, d, 0, Some(s.id), cls))
            } else {
                visit_spec(t, file, d, enc, cls)
            }
        };
        cat(here, decls(t, file, i, k + 1, exported, enc, cls))
    }
}

fn copy_class(c: &Option<(String, String)>) -> (r: Option<(String, String)>)
    ensures
        class_view(r) == class_view(*c),
{
    match c {
        Some(p) => Some((owned(p.0.as_str()), owned(p.1.as_str()))),
        None => None,
    }
}

fn copy_opt_str(c: &Option<String>) -> (r: Option<String>)
    ensures
        opt_view(r) == opt_view(*c),
{
    match c {
        Some(p) => Some(owned(p.as_str())),
        None => None,
    }
}

/// Walk the children of `node` with `enclosing` / `class` as the context,
/// then restore the caller's.
fn recurse_with(
    t: &SyntaxTree,
    node: usize,
    ctx: &mut Ctx,
    enclosing: Option<String>,
    class: Option<(String, String)>,
)
    requires
        t.wf(),
        node < t.nodes@.len(),
    ensures
        same_frame(*final(ctx), *old(ctx)),
        facts_view(final(ctx).facts) == cat(
            facts_view(old(ctx).facts),
            visit_kids(t.nodes@, old(ctx).file@, node as int, 0, opt_view(enclosing), class_view(class)),
        ),
    decreases t.nodes@.len() - node, 1int, 0int,
{
    let ghost ts = t.nodes@;
    let ghost file = ctx.file@;
    let ghost ev = opt_view(enclosing);
    let ghost cv = class_view(class);
    let ghost f0 = facts_view(ctx.facts);
    let mut enc = enclosing;
    let mut cls = class;
    std::mem::swap(&mut ctx.enclosing, &mut enc);
    std::mem::swap(&mut ctx.class, &mut cls);
    let n = t.nodes[node].children.len();
    let mut k: usize = 0;
    proof {
        lemma_cat_assoc(f0, visit_kids(ts, file, node as int, 0, ev, cv), no_facts());
    }
    while k < n
        invariant
            t.wf(),
            ts == t.nodes@,
            node < ts.len(),
            n == kids(ts, node as int).len(),
            k <= n,
            file == ctx.file@,
            ev == opt_view(ctx.enclosing),
            cv == class_view(ctx.class),
            ctx.facts.extra@ == old(ctx).facts.extra@,
            ctx.facts.routes@ == old(ctx).facts.routes@,
            opt_view(enc) == opt_view(old(ctx).enclosing),
            class_view(cls) == class_view(old(ctx).class),
            cat(facts_view(ctx.facts), visit_kids(ts, file, node as int, k as int, ev, cv)) == cat(
                f0,
                visit_kids(ts, file, node as int, 0, ev, cv),
            ),
        decreases n - k,
    {
        let c = t.nodes[node].children[k];
        assert(node < c < ts.len());
        let ghost fa = facts_view(ctx.facts);
        visit(t, c, ctx);
        proof {
            lemma_cat_assoc(fa, visit_spec(ts, file, c as int, ev, cv), visit_kids(ts, file, node as int, k + 1, ev, cv));
        }
        k += 1;
    }
    std::mem::swap(&mut ctx.enclosing, &mut enc);
    std::mem::swap(&mut ctx.class, &mut cls);
    proof {
        lemma_cat_assoc(facts_view(ctx.facts), no_facts(), no_facts());
    }
}

fn walk_decls(t: &SyntaxTree, i: usize, exported: bool, ctx: &mut Ctx)
    requires
        t.wf(),
        i < t.nodes@.len(),
    ensures
        same_frame(*final(ctx), *old(ctx)),
        facts_view(final(ctx).facts) == cat(
            facts_view(old(ctx).facts),
            decls(t.nodes@, old(ctx).file@, i as int, 0, exported, opt_view(old(ctx).enclosing), class_view(old(ctx).class)),
        ),
    decreases t.nodes@.len() - i, 1int, 0int,
{
    let ghost ts = t.nodes@;
    let ghost file = ctx.file@;
    let ghost ev = opt_view(ctx.enclosing);
    let ghost cv = class_view(ctx.class);
    let ghost f0 = facts_view(ctx.facts);
    let n = t.nodes[i].children.len();
    let mut k: usize = 0;
    proof {
        lemma_cat_assoc(f0, decls(ts, file, i as int, 0, exported, ev, cv), no_facts());
    }
    while k < n
        invariant
            t.wf(),
            ts == t.nodes@,
            i < ts.len(),
            n == kids(ts, i as int).len(),
            k <= n,
            file == ctx.file@,
            same_frame(*ctx, *old(ctx)),
            ev == opt_view(old(ctx).enclosing),
            cv == class_view(old(ctx).class),
            cat(facts_view(ctx.facts), decls(ts, file, i as int, k as int, exported, ev, cv)) == cat(
                f0,
                decls(ts, file, i as int, 0, exported, ev, cv),
            ),
        decreases n - k,
    {
        let d = t.nodes[i].children[k];
        assert(i < d < ts.len());
        let ghost fa = facts_view(ctx.facts);
        let ghost rest = decls(ts, file, i as int, k + 1, exported, ev, cv);
        let ghost here = if !ts[d as int].named || kind_of(ts, d as int) != "variable_declarator"@ {
            no_facts()
        } else {
            let value_is_fn = match field_child(ts, d as int, "value"@) {
                Some(v) => is_fn_value(kind_of(ts, v)),
                None => false,
            };
            let nm = field_child(ts, d as int, "name"@);
            if value_is_fn && nm is Some && kind_of(ts, nm->0) == "identifier"@ {
                let s = symbol_at(ts, file, d as int, nm->0, "function"@, None, exported, '{');
                cat(sym_fact(s), visit_kids(ts, file, d as int, 0, Some(s.id), cv))
            } else {
                visit_spec(ts, file, d as int, ev, cv)
            }
        };
        assert(decls(ts, file, i as int, k as int, exported, ev, cv) == cat(here, rest));
        if t.nodes[d].named && kind_is(t, d, "variable_declarator") {
            let value_is_fn = match field_child_exec(t, d, "value") {
                Some(v) => kind_is(t, v, "arrow_function") || kind_is(t, v, "function") || kind_is(
                    t,
                    v,
                    "function_expression",
                ),
                None => false,
            };
            let nm = field_child_exec(t, d, "name");
            let mut handled = false;
            if value_is_fn {
                match nm {
                    Some(n1) => {
                        if kind_is(t, n1, "identifier") {
                            let id = push_symbol(ctx, t, d, n1, "function", None, exported, '{');
                            let ghost fb = facts_view(ctx.facts);
                            let cls = copy_class(&ctx.class);
                            recurse_with(t, d, ctx, Some(id), cls);
                            proof {
                                let s = symbol_at(ts, file, d as int, n1 as int, "function"@, None, exported, '{');
                                lemma_cat_assoc(fa, sym_fact(s), visit_kids(ts, file, d as int, 0, Some(s.id), cv));
                            }
                            handled = true;
                        }
                    },
                    None => {},
                }
            }
            if !handled {
                visit(t, d, ctx);
            }
        } else {
            proof {
                lemma_cat_assoc(fa, no_facts(), no_facts());
            }
        }
        proof {
            lemma_cat_assoc(fa, here, rest);
        }
        k += 1;
    }
    proof {
        lemma_cat_assoc(facts_view(ctx.facts), no_facts(), no_facts());
    }
}

/// Walk the subtree at `i`, appending its facts.
fn visit(t: &SyntaxTree, i: usize, ctx: &mut Ctx)
    requires
        t.wf(),
        i < t.nodes@.len(),
    ensures
        same_frame(*final(ctx), *old(ctx)),
        facts_view(final(ctx).facts) == cat(
            facts_view(old(ctx).facts),
            visit_spec(t.nodes@, old(ctx).file@, i as int, opt_view(old(ctx).enclosing), class_view(old(ctx).class)),
        ),
    decreases t.nodes@.len() - i, 2int, 0int,
{
    let ghost ts = t.nodes@;
    let ghost file = ctx.file@;
    let ghost ev = opt_view(ctx.enclosing);
    let ghost cv = class_view(ctx.class);
    let ghost f0 = facts_view(ctx.facts);
    let name = field_child_exec(t, i, "name");
    if (kind_is(t, i, "function_declaration") || kind_is(t, i, "generator_function_declaration"))
        && name.is_some() {
        let nm = name.unwrap();
        let exported = is_exported_exec(t, i);
        let id = push_symbol(ctx, t, i, nm, "function", None, exported, '{');
        let cls = copy_class(&ctx.class);
        recurse_with(t, i, ctx, Some(id), cls);
        proof {
            let s = symbol_at(ts, file, i as int, nm as int, "function"@, None, exported, '{');
            lemma_cat_assoc(f0, sym_fact(s), visit_kids(ts, file, i as int, 0, Some(s.id), cv));
        }
        return;
    }
    if (kind_is(t, i, "class_declaration") || kind_is(t, i, "abstract_class_declaration"))
        && name.is_some() {
        let nm = name.unwrap();
        let cname = owned(t.nodes[nm].text.as_str());
        let exported = is_exported_exec(t, i);
        let id = push_symbol(ctx, t, i, nm, "class", None, exported, '{');
        let ghost f1 = facts_view(ctx.facts);
        record_heritage(t, i, id.as_str(), ctx);
        let ghost f2 = facts_view(ctx.facts);
        let enc = copy_opt_str(&ctx.enclosing);
        recurse_with(t, i, ctx, enc, Some((cname, id)));
        proof {
            let s = symbol_at(ts, file, i as int, nm as int, "class"@, None, exported, '{');
            let h = heritage_fact(ts, file, i as int, s.id, 0);
            let vk = visit_kids(ts, file, i as int, 0, ev, Some((text_of(ts, nm as int), s.id)));
            lemma_cat_assoc(f0, sym_fact(s), h);
            lemma_cat_assoc(cat(f0, sym_fact(s)), h, vk);
            lemma_cat_assoc(f0, sym_fact(s), cat(h, vk));
        }
        return;
    }
    if kind_is(t, i, "method_definition") && name.is_some() {
        let nm = name.unwrap();
        let qual = match &ctx.class {
            Some(c) => {
                let mut q = chars_of(c.0.as_str());
                q.push('.');
                let mut w = chars_of(t.nodes[nm].text.as_str());
                q.append(&mut w);
                proof {
                    reveal_strlit(".");
                }
                assert(q@ =~= c.0@ + "."@ + text_of(ts, nm as int));
                Some(crate::text::string_of(q.as_slice()))
            },
            None => None,
        };
        let exported = is_exported_exec(t, i);
        let ghost qv = opt_view(qual);
        let id = push_symbol(ctx, t, i, nm, "method", qual, exported, '{');
        let cls = copy_class(&ctx.class);
        recurse_with(t, i, ctx, Some(id), cls);
        proof {
            let s = symbol_at(ts, file, i as int, nm as int, "method"@, qv, exported, '{');
            lemma_cat_assoc(f0, sym_fact(s), visit_kids(ts, file, i as int, 0, Some(s.id), cv));
        }
        return;
    }
    if kind_is(t, i, "lexical_declaration") || kind_is(t, i, "variable_declaration") {
        let exported = is_exported_exec(t, i);
        walk_decls(t, i, exported, ctx);
        return;
    }
    if kind_is(t, i, "call_expression") {
        record_call(t, i, ctx);
        let enc = copy_opt_str(&ctx.enclosing);
        let cls = copy_class(&ctx.class);
        recurse_with(t, i, ctx, enc, cls);
        proof {
            lemma_cat_assoc(f0, call_fact(ts, file, i as int, ev), visit_kids(ts, file, i as int, 0, ev, cv));
        }
        return;
    }
    if kind_is(t, i, "import_statement") {
        record_imports(t, i, ctx);
        return;
    }
    if kind_is(t, i, "export_statement") {
        record_reexports(t, i, ctx);
        let enc = copy_opt_str(&ctx.enclosing);
        let cls = copy_class(&ctx.class);
        recurse_with(t, i, ctx, enc, cls);
        proof {
            lemma_cat_assoc(f0, reexport_fact(ts, file, i as int), visit_kids(ts, file, i as int, 0, ev, cv));
        }
        return;
    }
    let enc = copy_opt_str(&ctx.enclosing);
    let cls = copy_class(&ctx.class);
    recurse_with(t, i, ctx, enc, cls);
}

// ----------------------------------------------------------------- entry ---

/// The TS/JS facts of a parsed file, walked from its root.
pub open spec fn tree_facts(t: Seq<SyntaxNode>, file: Seq<char>) -> FactsV {
    if t.len() > 0 {
        visit_spec(t, file, 0, None, None)
    } else {
        no_facts()
    }
}

/// The walk's facts for a language.
pub open spec fn lang_facts(lang: Lang, t: Seq<SyntaxNode>, file: Seq<char>) -> FactsV {
    if lang == Lang::Py {
        py_tree_facts(t, file)
    } else {
        tree_facts(t, file)
    }
}

/// The heuristic edges and framework routes of a file, added after the walk.
pub open spec fn enriched(r: FileFacts, path: Seq<char>, src: Seq<char>) -> bool {
    &&& edge_views(r.extra@) == extra_edges_spec(path, src, sym_views(r.symbols@), call_views(r.calls@))
    &&& route_views(r.routes@) == express_routes(path, src) + next_routes(path, src)
}

/// The facts of a parsed file: the walk for its language, then heuristic
/// edges and framework routes.
pub fn extract_from_tree(path_rel: &str, src: &str, lang: Lang, tree: &SyntaxTree) -> (r: FileFacts)
    requires
        tree.wf(),
    ensures
        facts_view(r) == lang_facts(lang, tree.nodes@, path_rel@),
        enriched(r, path_rel@, src@),
{
    let mut ctx = Ctx { file: owned(path_rel), enclosing: None, class: None, facts: FileFacts::default() };
    proof {
        assert(facts_view(ctx.facts) =~= no_facts());
    }
    if lang == Lang::Py {
        py_walk(tree, &mut ctx);
    } else if tree.nodes.len() > 0 {
        visit(tree, 0, &mut ctx);
    }
    proof {
        lemma_cat_assoc(no_facts(), lang_facts(lang, tree.nodes@, path_rel@), no_facts());
    }
    let mut facts = ctx.facts;
    facts.extra = extra_edges(path_rel, src, &facts);
    facts.routes = collect(path_rel, src);
    facts
}

/// What extraction gives for a file: nothing for an unknown language;
/// otherwise the walk's facts over the plain tree of tree-sitter's parse of
/// the text (no nodes when there is no tree), plus heuristic edges and
/// framework routes.
pub open spec fn extracted(r: FileFacts, path: Seq<char>, src: Seq<char>) -> bool {
    &&& lang_of_path(path) is None ==> facts_view(r) == no_facts() && r.extra@.len() == 0 && r.routes@.len() == 0
    &&& lang_of_path(path) matches Some(l) ==> enriched(r, path, src) && exists|t: Seq<SyntaxNode>|
        tree_wf(t) && syntax_views(t) == parse_shape(l, src) && facts_view(r) == lang_facts(l, t, path)
}

/// Symbols, call sites, import bindings and heritage of a source file (by
/// its extension), plus heuristic edges and framework routes. A file of no
/// known language has no facts; one the parser gives up on has only the
/// heuristic ones.
pub fn extract(path_rel: &str, src: &str) -> (r: FileFacts)
    ensures
        extracted(r, path_rel@, src@),
{
    let lang = match Lang::from_path(path_rel) {
        Some(l) => l,
        None => {
            let f = FileFacts::default();
            assert(facts_view(f) =~= no_facts());
            return f;
        },
    };
    let tree = match parse_syntax(lang, src) {
        Some(t) => t,
        None => SyntaxTree { nodes: Vec::new() },
    };
    assert(syntax_views(tree.nodes@) =~= parse_shape(lang, src@));
    let r = extract_from_tree(path_rel, src, lang, &tree);
    assert(tree_wf(tree.nodes@));
    r
}

} // verus!
