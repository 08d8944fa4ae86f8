//! Python extraction: functions, classes and methods, call sites and
//! import bindings, by a recursive walk over the parsed file.

use vstd::prelude::*;
use crate::extract::syntax::{
    field_child, field_child_exec, kind_is, kind_of, kids, line_of, text_of, SyntaxNode, SyntaxTree,
};
use crate::extract::walk::{
    binding_fact, cat, class_view, facts_view, lemma_cat_assoc, no_facts, push_binding, push_symbol,
    same_frame, sym_fact, symbol_at, Ctx, FactsV,
};
use crate::model::{module_symbol_id, opt_view, RawCall, RawCallV, Symbol};
use crate::text::{chars_of, owned, string_of};

verus! {

/// The callee of a call: an identifier, or an attribute's attribute (then
/// `true`).
pub open spec fn py_call_target(t: Seq<SyntaxNode>, i: int) -> Option<(Seq<char>, bool)> {
    match field_child(t, i, "function"@) {
        None => None,
        Some(c) => if kind_of(t, c) == "identifier"@ {
            Some((text_of(t, c), false))
        } else if kind_of(t, c) == "attribute"@ {
            match field_child(t, c, "attribute"@) {
                Some(p) => Some((text_of(t, p), true)),
                None => None,
            }
        } else {
            None
        },
    }
}

pub open spec fn py_call_fact(t: Seq<SyntaxNode>, file: Seq<char>, i: int, enc: Option<Seq<char>>) -> FactsV {
    match py_call_target(t, i) {
        Some(nm) => if nm.0.len() > 0 {
            FactsV {
                calls: seq![
                    RawCallV {
                        from_id: match enc {
                            Some(e) => e,
                            None => module_symbol_id(file),
                        },
                        name: nm.0,
                        member: nm.1,
                        line: line_of(t, i),
                        file_path: file,
                    },
                ],
                ..no_facts()
            }
        } else {
            no_facts()
        },
        None => no_facts(),
    }
}

/// The child `c` fills its parent's `name` field.
pub open spec fn is_name_slot(t: Seq<SyntaxNode>, c: int) -> bool {
    t[c].field matches Some(f) && f@ == "name"@
}

/// One `name` entry of `import ...`: a dotted module bound under its own
/// name, or `module as alias`.
pub open spec fn import_entry(t: Seq<SyntaxNode>, file: Seq<char>, c: int) -> FactsV {
    if kind_of(t, c) == "dotted_name"@ {
        binding_fact(file, text_of(t, c), text_of(t, c), "*"@, "namespace"@)
    } else if kind_of(t, c) == "aliased_import"@ {
        match (field_child(t, c, "name"@), field_child(t, c, "alias"@)) {
            (Some(n), Some(a)) => binding_fact(file, text_of(t, n), text_of(t, a), "*"@, "namespace"@),
            _ => no_facts(),
        }
    } else {
        no_facts()
    }
}

pub open spec fn import_entries(t: Seq<SyntaxNode>, file: Seq<char>, i: int, k: int) -> FactsV
    decreases kids(t, i).len() - k,
{
    if k < 0 || k >= kids(t, i).len() {
        no_facts()
    } else {
        let c = kids(t, i)[k] as int;
        cat(
            if is_name_slot(t, c) {
                import_entry(t, file, c)
            } else {
                no_facts()
            },
            import_entries(t, file, i, k + 1),
        )
    }
}

/// One `name` entry of `from M import ...`: a plain name, or `name as alias`.
pub open spec fn from_entry(t: Seq<SyntaxNode>, file: Seq<char>, c: int, module: Seq<char>) -> FactsV {
    if kind_of(t, c) == "dotted_name"@ {
        binding_fact(file, module, text_of(t, c), text_of(t, c), "named"@)
    } else if kind_of(t, c) == "aliased_import"@ {
        match (field_child(t, c, "name"@), field_child(t, c, "alias"@)) {
            (Some(n), Some(a)) => binding_fact(file, module, text_of(t, a), text_of(t, n), "named"@),
            _ => no_facts(),
        }
    } else {
        no_facts()
    }
}

pub open spec fn from_entries(t: Seq<SyntaxNode>, file: Seq<char>, i: int, module: Seq<char>, k: int) -> FactsV
    decreases kids(t, i).len() - k,
{
    if k < 0 || k >= kids(t, i).len() {
        no_facts()
    } else {
        let c = kids(t, i)[k] as int;
        cat(
            if is_name_slot(t, c) {
                from_entry(t, file, c, module)
            } else {
                no_facts()
            },
            from_entries(t, file, i, module, k + 1),
        )
    }
}

pub open spec fn has_wildcard_from(t: Seq<SyntaxNode>, i: int, k: int) -> bool
    decreases kids(t, i).len() - k,
{
    if k < 0 || k >= kids(t, i).len() {
        false
    } else {
        kind_of(t, kids(t, i)[k] as int) == "wildcard_import"@ || has_wildcard_from(t, i, k + 1)
    }
}

/// `from M import a, b as c` / `from M import *`.
pub open spec fn from_fact(t: Seq<SyntaxNode>, file: Seq<char>, i: int) -> FactsV {
    match field_child(t, i, "module_name"@) {
        None => no_facts(),
        Some(mn) => {
            let m = text_of(t, mn);
            if m.len() == 0 {
                no_facts()
            } else {
                cat(
                    from_entries(t, file, i, m, 0),
                    if has_wildcard_from(t, i, 0) {
                        binding_fact(file, m, "*"@, "*"@, "star-reexport"@)
                    } else {
                        no_facts()
                    },
                )
            }
        },
    }
}

/// The facts of the subtree at `i`: a `def` directly in a class body is a
/// method (`Class.name`); only module-level defs and classes are exported;
/// inside a def the class context is dropped.
pub open spec fn py_visit(
    t: Seq<SyntaxNode>,
    file: Seq<char>,
    i: int,
    enc: Option<Seq<char>>,
    cls: Option<(Seq<char>, Seq<char>)>,
) -> FactsV
    decreases t.len() - i, 1int, 0int,
{
    if i < 0 || i >= t.len() {
        no_facts()
    } else {
        let k = kind_of(t, i);
        let name = field_child(t, i, "name"@);
        let top = enc is None && cls is None;
        if k == "function_definition"@ && name is Some {
            let is_method = cls is Some && enc is None;
            let s = if is_method {
                symbol_at(t, file, i, name->0, "method"@, Some((cls->0).0 + "."@ + text_of(t, name->0)), top, ':')
            } else {
                symbol_at(t, file, i, name->0, "function"@, None, top, ':')
            };
            cat(sym_fact(s), py_kids(t, file, i, 0, Some(s.id), None))
        } else if k == "class_definition"@ && name is Some {
            let s = symbol_at(t, file, i, name->0, "class"@, None, top, ':');
            cat(sym_fact(s), py_kids(t, file, i, 0, None, Some((text_of(t, name->0), s.id))))
        } else if k == "call"@ {
            cat(py_call_fact(t, file, i, enc), py_kids(t, file, i, 0, enc, cls))
        } else if k == "import_statement"@ {
            import_entries(t, file, i, 0)
        } else if k == "import_from_statement"@ {
            from_fact(t, file, i)
        } else {
            py_kids(t, file, i, 0, enc, cls)
        }
    }
}

pub open spec fn py_kids(
    t: Seq<SyntaxNode>,
    file: Seq<char>,
    i: int,
    k: int,
    enc: Option<Seq<char>>,
    cls: Option<(Seq<char>, Seq<char>)>,
) -> FactsV
    decreases t.len() - i, 0int, kids(t, i).len() - k,
{
    if i < 0 || i >= t.len() || k < 0 || k >= kids(t, i).len() {
        no_facts()
    } else {
        let c = kids(t, i)[k] as int;
        cat(
            if i < c && c < t.len() {
                py_visit(t, file, c, enc, cls)
            } else {
                no_facts()
            },
            py_kids(t, file, i, k + 1, enc, cls),
        )
    }
}

// ------------------------------------------------------------------ exec ---

fn py_record_call(t: &SyntaxTree, i: usize, ctx: &mut Ctx)
    requires
        t.wf(),
        i < t.nodes@.len(),
    ensures
        same_frame(*final(ctx), *old(ctx)),
        facts_view(final(ctx).facts) == cat(
            facts_view(old(ctx).facts),
            py_call_fact(t.nodes@, old(ctx).file@, i as int, opt_view(old(ctx).enclosing)),
        ),
{
    proof {
        lemma_cat_assoc(facts_view(ctx.facts), no_facts(), no_facts());
    }
    let callee = match field_child_exec(t, i, "function") {
        Some(c) => c,
        None => return,
    };
    let (name, member) = if kind_is(t, callee, "identifier") {
        (owned(t.nodes[callee].text.as_str()), false)
    } else if kind_is(t, callee, "attribute") {
        match field_child_exec(t, callee, "attribute") {
            Some(p) => (owned(t.nodes[p].text.as_str()), true),
            None => return,
        }
    } else {
        return;
    };
    let nv = chars_of(name.as_str());
    if nv.len() == 0 {
        return;
    }
    let from_id = match &ctx.enclosing {
        Some(e) => owned(e.as_str()),
        None => Symbol::module_id(ctx.file.as_str()),
    };
    assert(t.nodes@[i as int].start_row < usize::MAX);
    let c = RawCall {
        from_id: from_id,
        name: name,
        member: member,
        line: t.nodes[i].start_row + 1,
        file_path: owned(ctx.file.as_str()),
    };
    let ghost before = facts_view(ctx.facts);
    ctx.facts.calls.push(c);
    assert(facts_view(ctx.facts) =~= cat(
        before,
        py_call_fact(t.nodes@, old(ctx).file@, i as int, opt_view(old(ctx).enclosing)),
    ));
}

fn is_name_slot_exec(t: &SyntaxTree, c: usize) -> (r: bool)
    requires
        c < t.nodes@.len(),
    ensures
        r == is_name_slot(t.nodes@, c as int),
{
    match &t.nodes[c].field {
        Some(f) => crate::text::text_is(f.as_str(), "name"),
        None => false,
    }
}

fn push_import_entry(t: &SyntaxTree, c: usize, ctx: &mut Ctx)
    requires
        t.wf(),
        c < t.nodes@.len(),
    ensures
        same_frame(*final(ctx), *old(ctx)),
        facts_view(final(ctx).facts) == cat(facts_view(old(ctx).facts), import_entry(t.nodes@, old(ctx).file@, c as int)),
{
    proof {
        lemma_cat_assoc(facts_view(ctx.facts), no_facts(), no_facts());
    }
    if kind_is(t, c, "dotted_name") {
        push_binding(ctx, t.nodes[c].text.as_str(), t.nodes[c].text.as_str(), "*", "namespace");
    } else if kind_is(t, c, "aliased_import") {
        match (field_child_exec(t, c, "name"), field_child_exec(t, c, "alias")) {
            (Some(n), Some(a)) => push_binding(
                ctx,
                t.nodes[n].text.as_str(),
                t.nodes[a].text.as_str(),
                "*",
                "namespace",
            ),
            _ => {},
        }
    }
}

fn push_from_entry(t: &SyntaxTree, c: usize, module: &str, ctx: &mut Ctx)
    requires
        t.wf(),
        c < t.nodes@.len(),
    ensures
        same_frame(*final(ctx), *old(ctx)),
        facts_view(final(ctx).facts) == cat(
            facts_view(old(ctx).facts),
            from_entry(t.nodes@, old(ctx).file@, c as int, module@),
        ),
{
    proof {
        lemma_cat_assoc(facts_view(ctx.facts), no_facts(), no_facts());
    }
    if kind_is(t, c, "dotted_name") {
        push_binding(ctx, module, t.nodes[c].text.as_str(), t.nodes[c].text.as_str(), "named");
    } else if kind_is(t, c, "aliased_import") {
        match (field_child_exec(t, c, "name"), field_child_exec(t, c, "alias")) {
            (Some(n), Some(a)) => push_binding(
                ctx,
                module,
                t.nodes[a].text.as_str(),
                t.nodes[n].text.as_str(),
                "named",
            ),
            _ => {},
        }
    }
}

fn py_record_import(t: &SyntaxTree, i: usize, ctx: &mut Ctx)
    requires
        t.wf(),
        i < t.nodes@.len(),
    ensures
        same_frame(*final(ctx), *old(ctx)),
        facts_view(final(ctx).facts) == cat(facts_view(old(ctx).facts), import_entries(t.nodes@, old(ctx).file@, i as int, 0)),
{
    let ghost f0 = facts_view(ctx.facts);
    let ghost file = ctx.file@;
    let ghost ts = t.nodes@;
    let n = t.nodes[i].children.len();
    let mut k: usize = 0;
    proof {
        lemma_cat_assoc(f0, import_entries(ts, file, i as int, 0), no_facts());
    }
    while k < n
        invariant
            t.wf(),
            ts == t.nodes@,
            i < ts.len(),
            n == kids(ts, i as int).len(),
            k <= n,
            file == ctx.file@,
            same_frame(*ctx, *old(ctx)),
            cat(facts_view(ctx.facts), import_entries(ts, file, i as int, k as int)) == cat(
                f0,
                import_entries(ts, file, i as int, 0),
            ),
        decreases n - k,
    {
        let c = t.nodes[i].children[k];
        assert(c < ts.len());
        let ghost fa = facts_view(ctx.facts);
        let ghost rest = import_entries(ts, file, i as int, k + 1);
        if is_name_slot_exec(t, c) {
            push_import_entry(t, c, ctx);
            proof {
                lemma_cat_assoc(fa, import_entry(ts, file, c as int), rest);
            }
        } else {
            proof {
                lemma_cat_assoc(fa, no_facts(), rest);
            }
        }
        k += 1;
    }
    proof {
        lemma_cat_assoc(facts_view(ctx.facts), no_facts(), no_facts());
    }
}

fn py_record_from(t: &SyntaxTree, i: usize, ctx: &mut Ctx)
    requires
        t.wf(),
        i < t.nodes@.len(),
    ensures
        same_frame(*final(ctx), *old(ctx)),
        facts_view(final(ctx).facts) == cat(facts_view(old(ctx).facts), from_fact(t.nodes@, old(ctx).file@, i as int)),
{
    proof {
        lemma_cat_assoc(facts_view(ctx.facts), no_facts(), no_facts());
    }
    let mn = match field_child_exec(t, i, "module_name") {
        Some(m) => m,
        None => return,
    };
    let module = owned(t.nodes[mn].text.as_str());
    let mv = chars_of(module.as_str());
    if mv.len() == 0 {
        return;
    }
    let ghost f0 = facts_view(ctx.facts);
    let ghost file = ctx.file@;
    let ghost ts = t.nodes@;
    let ghost m = module@;
    let n = t.nodes[i].children.len();
    let mut k: usize = 0;
    let mut wild = false;
    proof {
        lemma_cat_assoc(f0, from_entries(ts, file, i as int, m, 0), no_facts());
    }
    while k < n
        invariant
            t.wf(),
            ts == t.nodes@,
            i < ts.len(),
            n == kids(ts, i as int).len(),
            k <= n,
            file == ctx.file@,
            m == module@,
            same_frame(*ctx, *old(ctx)),
            has_wildcard_from(ts, i as int, 0) == (wild || has_wildcard_from(ts, i as int, k as int)),
            cat(facts_view(ctx.facts), from_entries(ts, file, i as int, m, k as int)) == cat(
                f0,
                from_entries(ts, file, i as int, m, 0),
            ),
        decreases n - k,
    {
        let c = t.nodes[i].children[k];
        assert(c < ts.len());
        let ghost fa = facts_view(ctx.facts);
        let ghost rest = from_entries(ts, file, i as int, m, k + 1);
        if kind_is(t, c, "wildcard_import") {
            wild = true;
        }
        if is_name_slot_exec(t, c) {
            push_from_entry(t, c, module.as_str(), ctx);
            proof {
                lemma_cat_assoc(fa, from_entry(ts, file, c as int, m), rest);
            }
        } else {
            proof {
                lemma_cat_assoc(fa, no_facts(), rest);
            }
        }
        k += 1;
    }
    let ghost f1 = facts_view(ctx.facts);
    proof {
        lemma_cat_assoc(f1, no_facts(), no_facts());
    }
    if wild {
        push_binding(ctx, module.as_str(), "*", "*", "star-reexport");
    }
    proof {
        lemma_cat_assoc(f0, from_entries(ts, file, i as int, m, 0), if has_wildcard_from(ts, i as int, 0) {
            binding_fact(file, m, "*"@, "*"@, "star-reexport"@)
        } else {
            no_facts()
        });
    }
}

fn py_recurse_with(
    t: &SyntaxTree,
    node: usize,
    ctx: &mut Ctx,
    enclosing: Option<String>,
    class: Option<(String, String)>,
)
    requires
        t.wf(),
        node < t.nodes@.len(),
    ensures
        same_frame(*final(ctx), *old(ctx)),
        facts_view(final(ctx).facts) == cat(
            facts_view(old(ctx).facts),
            py_kids(t.nodes@, old(ctx).file@, node as int, 0, opt_view(enclosing), class_view(class)),
        ),
    decreases t.nodes@.len() - node, 0int,
{
    let ghost ts = t.nodes@;
    let ghost file = ctx.file@;
    let ghost ev = opt_view(enclosing);
    let ghost cv = class_view(class);
    let ghost f0 = facts_view(ctx.facts);
    let mut enc = enclosing;
    let mut cls = class;
    std::mem::swap(&mut ctx.enclosing, &mut enc);
    std::mem::swap(&mut ctx.class, &mut cls);
    let n = t.nodes[node].children.len();
    let mut k: usize = 0;
    proof {
        lemma_cat_assoc(f0, py_kids(ts, file, node as int, 0, ev, cv), no_facts());
    }
    while k < n
        invariant
            t.wf(),
            ts == t.nodes@,
            node < ts.len(),
            n == kids(ts, node as int).len(),
            k <= n,
            file == ctx.file@,
            ev == opt_view(ctx.enclosing),
            cv == class_view(ctx.class),
            ctx.facts.extra@ == old(ctx).facts.extra@,
            ctx.facts.routes@ == old(ctx).facts.routes@,
            opt_view(enc) == opt_view(old(ctx).enclosing),
            class_view(cls) == class_view(old(ctx).class),
            cat(facts_view(ctx.facts), py_kids(ts, file, node as int, k as int, ev, cv)) == cat(
                f0,
                py_kids(ts, file, node as int, 0, ev, cv),
            ),
        decreases n - k,
    {
        let c = t.nodes[node].children[k];
        assert(node < c < ts.len());
        let ghost fa = facts_view(ctx.facts);
        py_visit_exec(t, c, ctx);
        proof {
            lemma_cat_assoc(fa, py_visit(ts, file, c as int, ev, cv), py_kids(ts, file, node as int, k + 1, ev, cv));
        }
        k += 1;
    }
    std::mem::swap(&mut ctx.enclosing, &mut enc);
    std::mem::swap(&mut ctx.class, &mut cls);
    proof {
        lemma_cat_assoc(facts_view(ctx.facts), no_facts(), no_facts());
    }
}

fn copy_opt_str(c: &Option<String>) -> (r: Option<String>)
    ensures
        opt_view(r) == opt_view(*c),
{
    match c {
        Some(p) => Some(owned(p.as_str())),
        None => None,
    }
}

fn copy_class(c: &Option<(String, String)>) -> (r: Option<(String, String)>)
    ensures
        class_view(r) == class_view(*c),
{
    match c {
        Some(p) => Some((owned(p.0.as_str()), owned(p.1.as_str()))),
        None => None,
    }
}

fn py_visit_exec(t: &SyntaxTree, i: usize, ctx: &mut Ctx)
    requires
        t.wf(),
        i < t.nodes@.len(),
    ensures
        same_frame(*final(ctx), *old(ctx)),
        facts_view(final(ctx).facts) == cat(
            facts_view(old(ctx).facts),
            py_visit(t.nodes@, old(ctx).file@, i as int, opt_view(old(ctx).enclosing), class_view(old(ctx).class)),
        ),
    decreases t.nodes@.len() - i, 1int,
{
    let ghost ts = t.nodes@;
    let ghost file = ctx.file@;
    let ghost ev = opt_view(ctx.enclosing);
    let ghost cv = class_view(ctx.class);
    let ghost f0 = facts_view(ctx.facts);
    let name = field_child_exec(t, i, "name");
    let top = ctx.enclosing.is_none() && ctx.class.is_none();
    if kind_is(t, i, "function_definition") && name.is_some() {
        let nm = name.unwrap();
        let is_method = ctx.class.is_some() && ctx.enclosing.is_none();
        let ghost qv: Option<Seq<char>> = None;
        let id = if is_method {
            let cname = match &ctx.class {
                Some(c) => owned(c.0.as_str()),
                None => String::new(),
            };
            let mut q = chars_of(cname.as_str());
            q.push('.');
            let mut w = chars_of(t.nodes[nm].text.as_str());
            q.append(&mut w);
            proof {
                reveal_strlit(".");
            }
            assert(q@ =~= (cv->0).0 + "."@ + text_of(ts, nm as int));
            let qs = string_of(q.as_slice());
            proof {
                qv = Some(qs@);
            }
            push_symbol(ctx, t, i, nm, "method", Some(qs), top, ':')
        } else {
            push_symbol(ctx, t, i, nm, "function", None, top, ':')
        };
        let ghost s = if is_method {
            symbol_at(ts, file, i as int, nm as int, "method"@, qv, top, ':')
        } else {
            symbol_at(ts, file, i as int, nm as int, "function"@, None, top, ':')
        };
        py_recurse_with(t, i, ctx, Some(id), None);
        proof {
            lemma_cat_assoc(f0, sym_fact(s), py_kids(ts, file, i as int, 0, Some(s.id), None));
        }
        return;
    }
    if kind_is(t, i, "class_definition") && name.is_some() {
        let nm = name.unwrap();
        let cname = owned(t.nodes[nm].text.as_str());
        let id = push_symbol(ctx, t, i, nm, "class", None, top, ':');
        py_recurse_with(t, i, ctx, None, Some((cname, id)));
        proof {
            let s = symbol_at(ts, file, i as int, nm as int, "class"@, None, top, ':');
            lemma_cat_assoc(
                f0,
                sym_fact(s),
                py_kids(ts, file, i as int, 0, None, Some((text_of(ts, nm as int), s.id))),
            );
        }
        return;
    }
    if kind_is(t, i, "call") {
        py_record_call(t, i, ctx);
        let enc = copy_opt_str(&ctx.enclosing);
        let cls = copy_class(&ctx.class);
        py_recurse_with(t, i, ctx, enc, cls);
        proof {
            lemma_cat_assoc(f0, py_call_fact(ts, file, i as int, ev), py_kids(ts, file, i as int, 0, ev, cv));
        }
        return;
    }
    if kind_is(t, i, "import_statement") {
        py_record_import(t, i, ctx);
        return;
    }
    if kind_is(t, i, "import_from_statement") {
        py_record_from(t, i, ctx);
        return;
    }
    let enc = copy_opt_str(&ctx.enclosing);
    let cls = copy_class(&ctx.class);
    py_recurse_with(t, i, ctx, enc, cls);
}

/// The Python facts of a parsed file.
pub open spec fn py_tree_facts(t: Seq<SyntaxNode>, file: Seq<char>) -> FactsV {
    if t.len() > 0 {
        py_visit(t, file, 0, None, None)
    } else {
        no_facts()
    }
}

/// Walk a parsed Python file from its root.
pub fn py_walk(t: &SyntaxTree, ctx: &mut Ctx)
    requires
        t.wf(),
        old(ctx).enclosing is None,
        old(ctx).class is None,
    ensures
        same_frame(*final(ctx), *old(ctx)),
        facts_view(final(ctx).facts) == cat(facts_view(old(ctx).facts), py_tree_facts(t.nodes@, old(ctx).file@)),
{
    if t.nodes.len() > 0 {
        py_visit_exec(t, 0, ctx);
    } else {
        proof {
            lemma_cat_assoc(facts_view(ctx.facts), no_facts(), no_facts());
        }
    }
}

} // verus!
