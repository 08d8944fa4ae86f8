//! Edge resolution with honest precedence. Every edge carries `reason` + `conf`.
//!
//! Precedence per call site:
//!   1. import-binding  (strong)
//!   2. same-file       (strong)
//!   3. receiver-unknown(weak)
//!   4. unique-global   (weak)
//!   5. unresolved      (weak) — kept open, never faked
//!
//! Heritage (`extends` / `implements`) uses import-binding first, then
//! unique-global before same-file.

use vstd::prelude::*;
use crate::model::{Edge, EdgeV, ImportBinding, ImportBindingV, RawCall, RawCallV, Symbol, SymbolV, copy_opt};
use crate::module::{empty_config, ResolveConfig, ResolveConfigV, resolve_module_chars, resolve_module_spec};
use crate::text::{
    chars_of, find_char, find_char_exec, lemma_find_char_from_range, lemma_rfind_char_range, owned,
    rfind_char, rfind_char_exec, seq_eq, slice_of, str_views, string_of, text_is,
};

verus! {

// ----------------------------------------------------------------- views ---

pub open spec fn sym_views(s: Seq<Symbol>) -> Seq<SymbolV> {
    s.map_values(|x: Symbol| x@)
}

pub open spec fn call_views(s: Seq<RawCall>) -> Seq<RawCallV> {
    s.map_values(|x: RawCall| x@)
}

pub open spec fn binding_views(s: Seq<ImportBinding>) -> Seq<ImportBindingV> {
    s.map_values(|x: ImportBinding| x@)
}

pub open spec fn edge_views(s: Seq<Edge>) -> Seq<EdgeV> {
    s.map_values(|x: Edge| x@)
}

/// Everything resolution reads: symbols, bindings, known files, config.
pub ghost struct ResolveCtx {
    pub syms: Seq<SymbolV>,
    pub binds: Seq<ImportBindingV>,
    pub files: Seq<Seq<char>>,
    pub cfg: ResolveConfigV,
}

pub open spec fn ctx_of(
    symbols: Seq<Symbol>,
    bindings: Seq<ImportBinding>,
    files: Seq<String>,
    cfg: ResolveConfigV,
) -> ResolveCtx {
    ResolveCtx {
        syms: sym_views(symbols),
        binds: binding_views(bindings),
        files: str_views(files),
        cfg: cfg,
    }
}

// ------------------------------------------------------- sequence search ---

/// How many elements satisfy `p`.
pub open spec fn count_sat<A>(s: Seq<A>, p: spec_fn(A) -> bool) -> nat
    decreases s.len(),
{
    if s.len() == 0 {
        0
    } else {
        count_sat(s.drop_last(), p) + if p(s.last()) {
            1nat
        } else {
            0nat
        }
    }
}

/// The first element satisfying `p`.
pub open spec fn first_sat<A>(s: Seq<A>, p: spec_fn(A) -> bool) -> Option<A>
    decreases s.len(),
{
    if s.len() == 0 {
        None
    } else {
        match first_sat(s.drop_last(), p) {
            Some(x) => Some(x),
            None => if p(s.last()) {
                Some(s.last())
            } else {
                None
            },
        }
    }
}

/// The last element satisfying `p`.
pub open spec fn last_sat<A>(s: Seq<A>, p: spec_fn(A) -> bool) -> Option<A>
    decreases s.len(),
{
    if s.len() == 0 {
        None
    } else if p(s.last()) {
        Some(s.last())
    } else {
        last_sat(s.drop_last(), p)
    }
}

/// Something satisfies `p` exactly when there is a first such element.
pub proof fn lemma_count_first<A>(s: Seq<A>, p: spec_fn(A) -> bool)
    ensures
        (count_sat(s, p) > 0) == (first_sat(s, p) is Some),
        first_sat(s, p) matches Some(x) ==> p(x) && s.contains(x),
    decreases s.len(),
{
    if s.len() > 0 {
        lemma_count_first(s.drop_last(), p);
        if first_sat(s.drop_last(), p) is Some {
            let x = first_sat(s.drop_last(), p).unwrap();
            let k = choose|k: int| 0 <= k < s.drop_last().len() && s.drop_last()[k] == x;
            assert(s[k] == x);
        } else if p(s.last()) {
            assert(s[s.len() - 1] == s.last());
        }
    }
}

pub open spec fn named(name: Seq<char>) -> spec_fn(SymbolV) -> bool {
    |s: SymbolV| s.name == name
}

pub open spec fn in_file(file: Seq<char>) -> spec_fn(SymbolV) -> bool {
    |s: SymbolV| s.file_path == file
}

pub open spec fn in_file_named(file: Seq<char>, name: Seq<char>) -> spec_fn(SymbolV) -> bool {
    |s: SymbolV| s.file_path == file && s.name == name
}

pub open spec fn nonmethod_in_file_named(file: Seq<char>, name: Seq<char>) -> spec_fn(SymbolV) -> bool {
    |s: SymbolV| s.file_path == file && s.name == name && s.kind != "method"@
}

pub open spec fn class_in_file_named(file: Seq<char>, name: Seq<char>) -> spec_fn(SymbolV) -> bool {
    |s: SymbolV| s.file_path == file && s.name == name && s.kind == "class"@
}

pub open spec fn exported_in(file: Seq<char>) -> spec_fn(SymbolV) -> bool {
    |s: SymbolV| s.file_path == file && s.exported
}

/// The binding that names `local` in `file` (a later one shadows an earlier one).
pub open spec fn binding_for(binds: Seq<ImportBindingV>, file: Seq<char>, local: Seq<char>) -> Option<ImportBindingV> {
    last_sat(binds, |b: ImportBindingV| b.file_path == file && b.local_name == local)
}

// ------------------------------------------------------- export lookup ---

/// Symbol a module file exports under `want` (`None` = its default export:
/// the single exported symbol, else a symbol named `default`).
pub open spec fn pick_in_file_spec(syms: Seq<SymbolV>, file: Seq<char>, want: Option<Seq<char>>) -> Option<SymbolV> {
    if count_sat(syms, in_file(file)) == 0 {
        None
    } else {
        match want {
            Some(n) => first_sat(syms, in_file_named(file, n)),
            None => if count_sat(syms, exported_in(file)) == 1 {
                first_sat(syms, exported_in(file))
            } else {
                first_sat(syms, in_file_named(file, "default"@))
            },
        }
    }
}

/// Follow `export { x } from` / `export * from` chains (depth ≤ 6) to the
/// symbol a module exports under `name`.
pub open spec fn resolve_export_spec(c: ResolveCtx, mf: Seq<char>, name: Seq<char>, depth: int) -> Option<SymbolV>
    decreases 7 - depth, 2int, 0int,
{
    if depth > 6 {
        None
    } else {
        let direct = if name == "default"@ {
            pick_in_file_spec(c.syms, mf, None)
        } else {
            pick_in_file_spec(c.syms, mf, Some(name))
        };
        if direct is Some {
            direct
        } else {
            match named_reexport_hit(c, mf, name, depth, 0) {
                Some(s) => Some(s),
                None => star_reexport_hit(c, mf, name, depth, 0),
            }
        }
    }
}

pub open spec fn named_reexport_hit(c: ResolveCtx, mf: Seq<char>, name: Seq<char>, depth: int, i: int) -> Option<SymbolV>
    decreases 7 - depth, 1int, c.binds.len() - i,
{
    if depth > 6 || i < 0 || i >= c.binds.len() {
        None
    } else {
        let b = c.binds[i];
        let next = named_reexport_hit(c, mf, name, depth, i + 1);
        if b.file_path == mf && b.kind == "named-reexport"@ && (b.local_name == name
            || b.imported_name == name) {
            match resolve_module_spec(mf, b.source_module, c.files, c.cfg) {
                Some(t) => match resolve_export_spec(c, t, b.imported_name, depth + 1) {
                    Some(s) => Some(s),
                    None => next,
                },
                None => next,
            }
        } else {
            next
        }
    }
}

pub open spec fn star_reexport_hit(c: ResolveCtx, mf: Seq<char>, name: Seq<char>, depth: int, i: int) -> Option<SymbolV>
    decreases 7 - depth, 0int, c.binds.len() - i,
{
    if depth > 6 || i < 0 || i >= c.binds.len() {
        None
    } else {
        let b = c.binds[i];
        let next = star_reexport_hit(c, mf, name, depth, i + 1);
        if b.file_path == mf && b.kind == "star-reexport"@ {
            match resolve_module_spec(mf, b.source_module, c.files, c.cfg) {
                Some(t) => match resolve_export_spec(c, t, name, depth + 1) {
                    Some(s) => Some(s),
                    None => next,
                },
                None => next,
            }
        } else {
            next
        }
    }
}

// ----------------------------------------------------------- edge specs ---

/// `e` pointed at `dst` with the given confidence and reason.
pub open spec fn bind_to(e: EdgeV, dst: Seq<char>, conf: Seq<char>, reason: Seq<char>) -> EdgeV {
    EdgeV { dst_id: Some(dst), resolved: true, conf: conf, reason: reason, ..e }
}

/// Import-binding step: the binding's module resolves and exports the name →
/// strong `import-binding`; a bare specifier that names no known file →
/// strong `external-import` (left open); otherwise no verdict.
pub open spec fn binding_step(c: ResolveCtx, b: ImportBindingV, e: EdgeV, file: Seq<char>) -> Option<EdgeV> {
    match resolve_module_spec(file, b.source_module, c.files, c.cfg) {
        Some(t) => match resolve_export_spec(c, t, b.imported_name, 0) {
            Some(d) => Some(bind_to(e, d.id, "strong"@, "import-binding"@)),
            None => None,
        },
        None => if b.source_module.len() > 0 && b.source_module[0] == '.' {
            None
        } else {
            Some(EdgeV { reason: "external-import"@, conf: "strong"@, ..e })
        },
    }
}

/// The unresolved edge a call site starts from.
pub open spec fn call_base(call: RawCallV) -> EdgeV {
    EdgeV {
        src_id: call.from_id,
        dst_id: None,
        kind: "calls"@,
        raw_name: call.name,
        resolved: false,
        conf: "weak"@,
        reason: "unresolved"@,
        provenance: "ast"@,
        file_path: call.file_path,
        line: call.line,
    }
}

/// Same-file, receiver-unknown, unique-global, unresolved — in that order.
pub open spec fn call_fallback(c: ResolveCtx, call: RawCallV) -> EdgeV {
    let e = call_base(call);
    let local = nonmethod_in_file_named(call.file_path, call.name);
    let glob = named(call.name);
    if count_sat(c.syms, local) == 1 {
        bind_to(e, first_sat(c.syms, local).unwrap().id, "strong"@, "same-file"@)
    } else if call.member {
        if count_sat(c.syms, glob) == 1 {
            bind_to(e, first_sat(c.syms, glob).unwrap().id, "weak"@, "receiver-unknown"@)
        } else {
            EdgeV { reason: "receiver-unknown"@, ..e }
        }
    } else if count_sat(c.syms, glob) == 1 {
        bind_to(e, first_sat(c.syms, glob).unwrap().id, "weak"@, "unique-global"@)
    } else {
        e
    }
}

/// The edge for one call site.
pub open spec fn call_edge_spec(c: ResolveCtx, call: RawCallV) -> EdgeV {
    let step1 = if !call.member {
        match binding_for(c.binds, call.file_path, call.name) {
            Some(b) => binding_step(c, b, call_base(call), call.file_path),
            None => None,
        }
    } else {
        None
    };
    match step1 {
        Some(e) => e,
        None => call_fallback(c, call),
    }
}

/// Text after the last `.` (the whole name when there is none).
pub open spec fn last_segment(s: Seq<char>) -> Seq<char> {
    match rfind_char(s, '.') {
        Some(i) => s.subrange(i + 1, s.len() as int),
        None => s,
    }
}

/// Heritage fallback: unique-global (weak), then same-file (strong).
pub open spec fn heritage_fallback(c: ResolveCtx, h: EdgeV) -> EdgeV {
    let simple = last_segment(h.raw_name);
    if count_sat(c.syms, named(simple)) == 1 {
        bind_to(h, first_sat(c.syms, named(simple)).unwrap().id, "weak"@, "unique-global"@)
    } else {
        match first_sat(c.syms, in_file_named(h.file_path, simple)) {
            Some(s) => bind_to(h, s.id, "strong"@, "same-file"@),
            None => h,
        }
    }
}

/// The edge for one heritage clause (other edge kinds pass through).
pub open spec fn heritage_edge_spec(c: ResolveCtx, h: EdgeV) -> EdgeV {
    if h.kind != "extends"@ && h.kind != "implements"@ {
        h
    } else {
        let simple = last_segment(h.raw_name);
        let b = match binding_for(c.binds, h.file_path, h.raw_name) {
            Some(b) => Some(b),
            None => binding_for(c.binds, h.file_path, simple),
        };
        let step1 = match b {
            Some(b) => binding_step(c, b, h, h.file_path),
            None => None,
        };
        match step1 {
            Some(e) => e,
            None => heritage_fallback(c, h),
        }
    }
}

/// `contains` edge from a method's class (same file) to the method.
pub open spec fn contains_edge(syms: Seq<SymbolV>, s: SymbolV) -> Option<EdgeV> {
    if s.kind == "method"@ {
        match find_char(s.qualified_name, '.') {
            Some(i) => match first_sat(
                syms,
                class_in_file_named(s.file_path, s.qualified_name.subrange(0, i)),
            ) {
                Some(class) => Some(
                    EdgeV {
                        src_id: class.id,
                        dst_id: Some(s.id),
                        kind: "contains"@,
                        raw_name: s.name,
                        resolved: true,
                        conf: "strong"@,
                        reason: "same-file"@,
                        provenance: "ast"@,
                        file_path: s.file_path,
                        line: s.start_line,
                    },
                ),
                None => None,
            },
            None => None,
        }
    } else {
        None
    }
}

/// Contains edges for the first `n` symbols, in symbol order.
pub open spec fn contains_edges(syms: Seq<SymbolV>, n: int) -> Seq<EdgeV>
    decreases n,
{
    if n <= 0 {
        Seq::empty()
    } else {
        contains_edges(syms, n - 1) + match contains_edge(syms, syms[n - 1]) {
            Some(e) => seq![e],
            None => Seq::empty(),
        }
    }
}

/// All edges: contains edges, then one per call site, then one per heritage edge.
pub open spec fn resolve_spec(c: ResolveCtx, calls: Seq<RawCallV>, heritage: Seq<EdgeV>) -> Seq<EdgeV> {
    contains_edges(c.syms, c.syms.len() as int) + calls.map_values(|k: RawCallV| call_edge_spec(c, k))
        + heritage.map_values(|h: EdgeV| heritage_edge_spec(c, h))
}


// ------------------------------------------------------------------ exec ---

/// Which symbol predicate a scan tests.
pub enum SymPred {
    Named,
    InFile,
    InFileNamed,
    NonMethodInFileNamed,
    ClassInFileNamed,
    ExportedIn,
}

pub open spec fn pred_of(k: SymPred, file: Seq<char>, name: Seq<char>) -> spec_fn(SymbolV) -> bool {
    match k {
        SymPred::Named => named(name),
        SymPred::InFile => in_file(file),
        SymPred::InFileNamed => in_file_named(file, name),
        SymPred::NonMethodInFileNamed => nonmethod_in_file_named(file, name),
        SymPred::ClassInFileNamed => class_in_file_named(file, name),
        SymPred::ExportedIn => exported_in(file),
    }
}

fn test_sym(k: &SymPred, s: &Symbol, file: &[char], name: &[char]) -> (r: bool)
    ensures
        r == (pred_of(*k, file@, name@))(s@),
{
    match k {
        SymPred::Named => {
            let n = chars_of(s.name.as_str());
            seq_eq(&n, name)
        },
        SymPred::InFile => {
            let f = chars_of(s.file_path.as_str());
            seq_eq(&f, file)
        },
        SymPred::InFileNamed => {
            let f = chars_of(s.file_path.as_str());
            let n = chars_of(s.name.as_str());
            seq_eq(&f, file) && seq_eq(&n, name)
        },
        SymPred::NonMethodInFileNamed => {
            let f = chars_of(s.file_path.as_str());
            let n = chars_of(s.name.as_str());
            seq_eq(&f, file) && seq_eq(&n, name) && !text_is(s.kind.as_str(), "method")
        },
        SymPred::ClassInFileNamed => {
            let f = chars_of(s.file_path.as_str());
            let n = chars_of(s.name.as_str());
            seq_eq(&f, file) && seq_eq(&n, name) && text_is(s.kind.as_str(), "class")
        },
        SymPred::ExportedIn => {
            let f = chars_of(s.file_path.as_str());
            seq_eq(&f, file) && s.exported
        },
    }
}

/// How many symbols satisfy the predicate, and the index of the first.
pub(crate) fn scan(syms: &[Symbol], k: SymPred, file: &[char], name: &[char]) -> (r: (usize, Option<usize>))
    ensures
        r.0 == count_sat(sym_views(syms@), pred_of(k, file@, name@)),
        match r.1 {
            Some(i) => i < syms@.len() && first_sat(sym_views(syms@), pred_of(k, file@, name@))
                == Some(sym_views(syms@)[i as int]),
            None => first_sat(sym_views(syms@), pred_of(k, file@, name@)) is None,
        },
{
    let ghost sv = sym_views(syms@);
    let ghost p = pred_of(k, file@, name@);
    let mut count: usize = 0;
    let mut first: Option<usize> = None;
    let mut i: usize = 0;
    while i < syms.len()
        invariant
            i <= syms@.len(),
            sv == sym_views(syms@),
            p == pred_of(k, file@, name@),
            count <= i,
            count == count_sat(sv.take(i as int), p),
            match first {
                Some(j) => j < i && first_sat(sv.take(i as int), p) == Some(sv[j as int]),
                None => first_sat(sv.take(i as int), p) is None,
            },
        decreases syms.len() - i,
    {
        assert(sv.take(i + 1).drop_last() =~= sv.take(i as int));
        assert(sv.take(i + 1).last() == sv[i as int]);
        assert(sv[i as int] == syms@[i as int]@);
        if test_sym(&k, &syms[i], file, name) {
            count = count + 1;
            if first.is_none() {
                first = Some(i);
            }
        }
        i += 1;
    }
    assert(sv.take(syms@.len() as int) =~= sv);
    (count, first)
}

/// Index of the binding that names `local` in `file`.
fn binding_for_exec(bindings: &[ImportBinding], file: &[char], local: &[char]) -> (r: Option<usize>)
    ensures
        match r {
            Some(i) => i < bindings@.len() && binding_for(binding_views(bindings@), file@, local@)
                == Some(binding_views(bindings@)[i as int]),
            None => binding_for(binding_views(bindings@), file@, local@) is None,
        },
{
    let ghost bv = binding_views(bindings@);
    let ghost p = |b: ImportBindingV| b.file_path == file@ && b.local_name == local@;
    let mut last: Option<usize> = None;
    let mut i: usize = 0;
    while i < bindings.len()
        invariant
            i <= bindings@.len(),
            bv == binding_views(bindings@),
            p == (|b: ImportBindingV| b.file_path == file@ && b.local_name == local@),
            match last {
                Some(j) => j < i && last_sat(bv.take(i as int), p) == Some(bv[j as int]),
                None => last_sat(bv.take(i as int), p) is None,
            },
        decreases bindings.len() - i,
    {
        assert(sv_take_step(bv, i as int));
        assert(bv[i as int] == bindings@[i as int]@);
        let f = chars_of(bindings[i].file_path.as_str());
        let l = chars_of(bindings[i].local_name.as_str());
        if seq_eq(&f, file) && seq_eq(&l, local) {
            last = Some(i);
        }
        i += 1;
    }
    assert(bv.take(bindings@.len() as int) =~= bv);
    last
}

pub open spec fn sv_take_step<A>(s: Seq<A>, i: int) -> bool {
    &&& s.take(i + 1).drop_last() =~= s.take(i)
    &&& s.take(i + 1).last() == s[i]
}

/// Index of the symbol a module file exports under `want`.
fn pick_in_file_exec(syms: &[Symbol], file: &[char], want: Option<&[char]>) -> (r: Option<usize>)
    ensures
        match r {
            Some(i) => i < syms@.len() && pick_in_file_spec(
                sym_views(syms@),
                file@,
                match want {
                    Some(w) => Some(w@),
                    None => None::<Seq<char>>,
                },
            ) == Some(sym_views(syms@)[i as int]),
            None => pick_in_file_spec(
                sym_views(syms@),
                file@,
                match want {
                    Some(w) => Some(w@),
                    None => None::<Seq<char>>,
                },
            ) is None,
        },
{
    let empty: Vec<char> = Vec::new();
    let (n, _) = scan(syms, SymPred::InFile, file, &empty);
    if n == 0 {
        return None;
    }
    match want {
        Some(w) => {
            let (_, f) = scan(syms, SymPred::InFileNamed, file, w);
            f
        },
        None => {
            let (ne, fe) = scan(syms, SymPred::ExportedIn, file, &empty);
            if ne == 1 {
                fe
            } else {
                let d = chars_of("default");
                let (_, f) = scan(syms, SymPred::InFileNamed, file, &d);
                f
            }
        },
    }
}

/// Index of the symbol module `mf` exports under `name` (following re-exports).
fn resolve_export_exec(
    symbols: &[Symbol],
    bindings: &[ImportBinding],
    files: &Vec<String>,
    cfg: &ResolveConfig,
    mf: &[char],
    name: &[char],
    depth: usize,
) -> (r: Option<usize>)
    requires
        depth <= 7,
    ensures
        match r {
            Some(i) => i < symbols@.len() && resolve_export_spec(
                ctx_of(symbols@, bindings@, files@, cfg@),
                mf@,
                name@,
                depth as int,
            ) == Some(sym_views(symbols@)[i as int]),
            None => resolve_export_spec(
                ctx_of(symbols@, bindings@, files@, cfg@),
                mf@,
                name@,
                depth as int,
            ) is None,
        },
    decreases 7 - depth,
{
    let ghost c = ctx_of(symbols@, bindings@, files@, cfg@);
    if depth > 6 {
        return None;
    }
    let direct = if text_is(&string_of(name), "default") {
        pick_in_file_exec(symbols, file_of(mf), None)
    } else {
        pick_in_file_exec(symbols, file_of(mf), Some(name))
    };
    if direct.is_some() {
        return direct;
    }
    let ghost direct_none = (if name@ == "default"@ {
        pick_in_file_spec(c.syms, mf@, None)
    } else {
        pick_in_file_spec(c.syms, mf@, Some(name@))
    }) is None;
    assert(direct_none);
    let mut i: usize = 0;
    while i < bindings.len()
        invariant
            i <= bindings@.len(),
            depth <= 6,
            c == ctx_of(symbols@, bindings@, files@, cfg@),
            direct_none,
            direct_none == ((if name@ == "default"@ {
                pick_in_file_spec(c.syms, mf@, None)
            } else {
                pick_in_file_spec(c.syms, mf@, Some(name@))
            }) is None),
            named_reexport_hit(c, mf@, name@, depth as int, 0) == named_reexport_hit(
                c,
                mf@,
                name@,
                depth as int,
                i as int,
            ),
        decreases bindings.len() - i,
    {
        let b = &bindings[i];
        assert(c.binds[i as int] == b@);
        let f = chars_of(b.file_path.as_str());
        let l = chars_of(b.local_name.as_str());
        let im = chars_of(b.imported_name.as_str());
        if seq_eq(&f, mf) && text_is(b.kind.as_str(), "named-reexport") && (seq_eq(&l, name)
            || seq_eq(&im, name)) {
            let src = chars_of(b.source_module.as_str());
            match resolve_module_chars(mf, &src, files, cfg) {
                Some(t) => {
                    match resolve_export_exec(symbols, bindings, files, cfg, &t, &im, depth + 1) {
                        Some(s) => {
                            assert(named_reexport_hit(c, mf@, name@, depth as int, i as int) == Some(
                                sym_views(symbols@)[s as int],
                            ));
                            assert(named_reexport_hit(c, mf@, name@, depth as int, 0) is Some);
                            return Some(s);
                        },
                        None => {},
                    }
                },
                None => {},
            }
        }
        i += 1;
    }
    assert(named_reexport_hit(c, mf@, name@, depth as int, 0) is None);
    let mut j: usize = 0;
    while j < bindings.len()
        invariant
            j <= bindings@.len(),
            depth <= 6,
            c == ctx_of(symbols@, bindings@, files@, cfg@),
            direct_none,
            direct_none == ((if name@ == "default"@ {
                pick_in_file_spec(c.syms, mf@, None)
            } else {
                pick_in_file_spec(c.syms, mf@, Some(name@))
            }) is None),
            named_reexport_hit(c, mf@, name@, depth as int, 0) is None,
            star_reexport_hit(c, mf@, name@, depth as int, 0) == star_reexport_hit(
                c,
                mf@,
                name@,
                depth as int,
                j as int,
            ),
        decreases bindings.len() - j,
    {
        let b = &bindings[j];
        assert(c.binds[j as int] == b@);
        let f = chars_of(b.file_path.as_str());
        if seq_eq(&f, mf) && text_is(b.kind.as_str(), "star-reexport") {
            let src = chars_of(b.source_module.as_str());
            match resolve_module_chars(mf, &src, files, cfg) {
                Some(t) => {
                    match resolve_export_exec(symbols, bindings, files, cfg, &t, name, depth + 1) {
                        Some(s) => {
                            assert(star_reexport_hit(c, mf@, name@, depth as int, j as int) == Some(
                                sym_views(symbols@)[s as int],
                            ));
                            return Some(s);
                        },
                        None => {},
                    }
                },
                None => {},
            }
        }
        j += 1;
    }
    None
}

fn file_of(v: &[char]) -> (r: &[char])
    ensures
        r@ == v@,
{
    v
}

/// Point `e` at `dst` with the given confidence and reason.
fn bind_edge(e: &mut Edge, dst: String, conf: &str, reason: &str)
    ensures
        final(e)@ == bind_to(old(e)@, dst@, conf@, reason@),
{
    e.dst_id = Some(dst);
    e.resolved = true;
    e.conf = owned(conf);
    e.reason = owned(reason);
}

fn binding_step_exec(
    symbols: &[Symbol],
    bindings: &[ImportBinding],
    files: &Vec<String>,
    cfg: &ResolveConfig,
    b: &ImportBinding,
    e: &Edge,
    file: &[char],
) -> (r: Option<Edge>)
    ensures
        match r {
            Some(x) => binding_step(ctx_of(symbols@, bindings@, files@, cfg@), b@, e@, file@)
                == Some(x@),
            None => binding_step(ctx_of(symbols@, bindings@, files@, cfg@), b@, e@, file@) is None,
        },
{
    let src = chars_of(b.source_module.as_str());
    match resolve_module_chars(file, &src, files, cfg) {
        Some(t) => {
            let im = chars_of(b.imported_name.as_str());
            match resolve_export_exec(symbols, bindings, files, cfg, &t, &im, 0) {
                Some(d) => {
                    let mut x = e.duplicate();
                    bind_edge(&mut x, symbols[d].id.clone(), "strong", "import-binding");
                    assert(sym_views(symbols@)[d as int] == symbols@[d as int]@);
                    Some(x)
                },
                None => None,
            }
        },
        None => {
            if src.len() > 0 && src[0] == '.' {
                None
            } else {
                let mut x = e.duplicate();
                x.reason = owned("external-import");
                x.conf = owned("strong");
                Some(x)
            }
        },
    }
}

fn call_base_exec(call: &RawCall) -> (e: Edge)
    ensures
        e@ == call_base(call@),
{
    Edge {
        src_id: call.from_id.clone(),
        dst_id: None,
        kind: owned("calls"),
        raw_name: call.name.clone(),
        resolved: false,
        conf: owned("weak"),
        reason: owned("unresolved"),
        provenance: owned("ast"),
        file_path: call.file_path.clone(),
        line: call.line,
    }
}

fn call_edge_exec(
    symbols: &[Symbol],
    bindings: &[ImportBinding],
    files: &Vec<String>,
    cfg: &ResolveConfig,
    call: &RawCall,
) -> (r: Edge)
    ensures
        r@ == call_edge_spec(ctx_of(symbols@, bindings@, files@, cfg@), call@),
{
    let ghost c = ctx_of(symbols@, bindings@, files@, cfg@);
    let file = chars_of(call.file_path.as_str());
    let name = chars_of(call.name.as_str());
    let e = call_base_exec(call);
    if !call.member {
        match binding_for_exec(bindings, &file, &name) {
            Some(bi) => {
                match binding_step_exec(symbols, bindings, files, cfg, &bindings[bi], &e, &file) {
                    Some(x) => return x,
                    None => {},
                }
            },
            None => {},
        }
    }
    let mut e = e;
    let (nl, fl) = scan(symbols, SymPred::NonMethodInFileNamed, &file, &name);
    proof {
        lemma_count_first(sym_views(symbols@), pred_of(SymPred::NonMethodInFileNamed, file@, name@));
    }
    if nl == 1 {
        let i = fl.unwrap();
        assert(sym_views(symbols@)[i as int] == symbols@[i as int]@);
        bind_edge(&mut e, symbols[i].id.clone(), "strong", "same-file");
        return e;
    }
    let empty: Vec<char> = Vec::new();
    let (ng, fg) = scan(symbols, SymPred::Named, &empty, &name);
    proof {
        lemma_count_first(sym_views(symbols@), pred_of(SymPred::Named, empty@, name@));
    }
    if call.member {
        if ng == 1 {
            let i = fg.unwrap();
            assert(sym_views(symbols@)[i as int] == symbols@[i as int]@);
            bind_edge(&mut e, symbols[i].id.clone(), "weak", "receiver-unknown");
        } else {
            e.reason = owned("receiver-unknown");
        }
        return e;
    }
    if ng == 1 {
        let i = fg.unwrap();
        assert(sym_views(symbols@)[i as int] == symbols@[i as int]@);
        bind_edge(&mut e, symbols[i].id.clone(), "weak", "unique-global");
    }
    e
}

pub fn last_segment_exec(s: &[char]) -> (r: Vec<char>)
    ensures
        r@ == last_segment(s@),
{
    match rfind_char_exec(s, '.') {
        Some(i) => {
            proof {
                lemma_rfind_char_range(s@, '.', s@.len() as int);
            }
            assert(i < s.len());
            slice_of(s, i + 1, s.len())
        },
        None => {
            let r = slice_of(s, 0, s.len());
            assert(r@ =~= s@);
            r
        },
    }
}

fn heritage_edge_exec(
    symbols: &[Symbol],
    bindings: &[ImportBinding],
    files: &Vec<String>,
    cfg: &ResolveConfig,
    h: &Edge,
) -> (r: Edge)
    ensures
        r@ == heritage_edge_spec(ctx_of(symbols@, bindings@, files@, cfg@), h@),
{
    if !text_is(h.kind.as_str(), "extends") && !text_is(h.kind.as_str(), "implements") {
        return h.duplicate();
    }
    let file = chars_of(h.file_path.as_str());
    let raw = chars_of(h.raw_name.as_str());
    let simple = last_segment_exec(&raw);
    let b = match binding_for_exec(bindings, &file, &raw) {
        Some(i) => Some(i),
        None => binding_for_exec(bindings, &file, &simple),
    };
    match b {
        Some(bi) => {
            match binding_step_exec(symbols, bindings, files, cfg, &bindings[bi], h, &file) {
                Some(x) => return x,
                None => {},
            }
        },
        None => {},
    }
    let mut e = h.duplicate();
    let empty: Vec<char> = Vec::new();
    let (ng, fg) = scan(symbols, SymPred::Named, &empty, &simple);
    proof {
        lemma_count_first(sym_views(symbols@), pred_of(SymPred::Named, empty@, simple@));
    }
    if ng == 1 {
        let i = fg.unwrap();
        assert(sym_views(symbols@)[i as int] == symbols@[i as int]@);
        bind_edge(&mut e, symbols[i].id.clone(), "weak", "unique-global");
        return e;
    }
    let (_, fs) = scan(symbols, SymPred::InFileNamed, &file, &simple);
    match fs {
        Some(i) => {
            assert(sym_views(symbols@)[i as int] == symbols@[i as int]@);
            bind_edge(&mut e, symbols[i].id.clone(), "strong", "same-file");
        },
        None => {},
    }
    e
}

#[verifier::spinoff_prover]
fn contains_edge_exec(symbols: &[Symbol], s: &Symbol) -> (r: Option<Edge>)
    ensures
        match r {
            Some(x) => contains_edge(sym_views(symbols@), s@) == Some(x@),
            None => contains_edge(sym_views(symbols@), s@) is None,
        },
{
    if !text_is(s.kind.as_str(), "method") {
        return None;
    }
    let qn = chars_of(s.qualified_name.as_str());
    match find_char_exec(&qn, '.') {
        Some(i) => {
            proof {
                lemma_find_char_from_range(qn@, '.', 0);
            }
            let class_name = slice_of(&qn, 0, i);
            let file = chars_of(s.file_path.as_str());
            let (_, f) = scan(symbols, SymPred::ClassInFileNamed, &file, &class_name);
            match f {
                Some(ci) => {
                    assert(sym_views(symbols@)[ci as int] == symbols@[ci as int]@);
                    Some(
                        Edge {
                            src_id: symbols[ci].id.clone(),
                            dst_id: Some(s.id.clone()),
                            kind: owned("contains"),
                            raw_name: s.name.clone(),
                            resolved: true,
                            conf: owned("strong"),
                            reason: owned("same-file"),
                            provenance: owned("ast"),
                            file_path: s.file_path.clone(),
                            line: s.start_line,
                        },
                    )
                },
                None => None,
            }
        },
        None => None,
    }
}

/// Full entry: contains edges (class → method), one edge per call site, and
/// heritage edges (`extends` / `implements`) resolved with the same honesty
/// precedence as calls; other edges in `heritage` pass through unchanged.
pub fn resolve_with_heritage(
    symbols: &[Symbol],
    calls: &[RawCall],
    bindings: &[ImportBinding],
    heritage: &[Edge],
    files: &Vec<String>,
    cfg: &ResolveConfig,
) -> (r: Vec<Edge>)
    ensures
        edge_views(r@) == resolve_spec(
            ctx_of(symbols@, bindings@, files@, cfg@),
            call_views(calls@),
            edge_views(heritage@),
        ),
{
    let ghost c = ctx_of(symbols@, bindings@, files@, cfg@);
    let mut edges: Vec<Edge> = Vec::new();
    let mut i: usize = 0;
    while i < symbols.len()
        invariant
            i <= symbols@.len(),
            c == ctx_of(symbols@, bindings@, files@, cfg@),
            edge_views(edges@) == contains_edges(c.syms, i as int),
        decreases symbols.len() - i,
    {
        let ghost before = edge_views(edges@);
        assert(c.syms[i as int] == symbols@[i as int]@);
        match contains_edge_exec(symbols, &symbols[i]) {
            Some(e) => {
                edges.push(e);
                assert(edge_views(edges@) =~= contains_edges(c.syms, i + 1));
            },
            None => {
                assert(edge_views(edges@) =~= contains_edges(c.syms, i + 1));
            },
        }
        i += 1;
    }
    let ghost ce = edge_views(edges@);
    let ghost cv = call_views(calls@);
    let ghost n0 = ce.len();
    let mut k: usize = 0;
    while k < calls.len()
        invariant
            k <= calls@.len(),
            c == ctx_of(symbols@, bindings@, files@, cfg@),
            cv == call_views(calls@),
            ce == contains_edges(c.syms, c.syms.len() as int),
            n0 == ce.len(),
            edges@.len() == n0 + k,
            forall|j: int| 0 <= j < n0 ==> #[trigger] edges@[j]@ == ce[j],
            forall|j: int| 0 <= j < k ==> #[trigger] edges@[n0 + j]@ == call_edge_spec(c, cv[j]),
        decreases calls.len() - k,
    {
        let e = call_edge_exec(symbols, bindings, files, cfg, &calls[k]);
        assert(cv[k as int] == calls@[k as int]@);
        edges.push(e);
        assert(edges@[n0 + k]@ == call_edge_spec(c, cv[k as int]));
        k += 1;
    }
    let ghost hv = edge_views(heritage@);
    let ghost n1 = n0 + cv.len();
    let mut h: usize = 0;
    while h < heritage.len()
        invariant
            h <= heritage@.len(),
            c == ctx_of(symbols@, bindings@, files@, cfg@),
            hv == edge_views(heritage@),
            cv == call_views(calls@),
            ce == contains_edges(c.syms, c.syms.len() as int),
            n0 == ce.len(),
            n1 == n0 + cv.len(),
            edges@.len() == n1 + h,
            forall|j: int| 0 <= j < n0 ==> #[trigger] edges@[j]@ == ce[j],
            forall|j: int| 0 <= j < cv.len() ==> #[trigger] edges@[n0 + j]@ == call_edge_spec(c, cv[j]),
            forall|j: int| 0 <= j < h ==> #[trigger] edges@[n1 + j]@ == heritage_edge_spec(c, hv[j]),
        decreases heritage.len() - h,
    {
        let e = heritage_edge_exec(symbols, bindings, files, cfg, &heritage[h]);
        assert(hv[h as int] == heritage@[h as int]@);
        edges.push(e);
        assert(edges@[n1 + h]@ == heritage_edge_spec(c, hv[h as int]));
        h += 1;
    }
    let ghost want = resolve_spec(c, cv, hv);
    assert forall|j: int| 0 <= j < edges@.len() implies #[trigger] edge_views(edges@)[j] == want[j] by {
        if j < n0 {
        } else if j < n1 {
            assert(edges@[n0 + (j - n0)]@ == call_edge_spec(c, cv[j - n0]));
        } else {
            assert(edges@[n1 + (j - n1)]@ == heritage_edge_spec(c, hv[j - n1]));
        }
    }
    assert(edge_views(edges@) =~= want);
    edges
}

/// Resolve calls (no heritage) with module-resolution config.
pub fn resolve_with(
    symbols: &[Symbol],
    calls: &[RawCall],
    bindings: &[ImportBinding],
    files: &Vec<String>,
    cfg: &ResolveConfig,
) -> (r: Vec<Edge>)
    ensures
        edge_views(r@) == resolve_spec(
            ctx_of(symbols@, bindings@, files@, cfg@),
            call_views(calls@),
            Seq::empty(),
        ),
{
    let none: Vec<Edge> = Vec::new();
    let r = resolve_with_heritage(symbols, calls, bindings, none.as_slice(), files, cfg);
    r
}

/// Resolve with the default (empty) module-resolution config.
pub fn resolve(
    symbols: &[Symbol],
    calls: &[RawCall],
    bindings: &[ImportBinding],
    files: &Vec<String>,
) -> (r: Vec<Edge>)
    ensures
        edge_views(r@) == resolve_spec(
            ctx_of(symbols@, bindings@, files@, empty_config()),
            call_views(calls@),
            Seq::empty(),
        ),
{
    let cfg = ResolveConfig::default();
    resolve_with(symbols, calls, bindings, files, &cfg)
}


// ------------------------------------------------------------------ laws ---

/// A symbol found through an export chain is one of the known symbols.
proof fn lemma_export_is_known(c: ResolveCtx, mf: Seq<char>, name: Seq<char>, depth: int)
    ensures
        resolve_export_spec(c, mf, name, depth) matches Some(s) ==> c.syms.contains(s),
    decreases 7 - depth, 2int, 0int,
{
    if depth <= 6 {
        lemma_count_first(c.syms, in_file_named(mf, name));
        lemma_count_first(c.syms, exported_in(mf));
        lemma_count_first(c.syms, in_file_named(mf, "default"@));
        lemma_named_hit_is_known(c, mf, name, depth, 0);
        lemma_star_hit_is_known(c, mf, name, depth, 0);
    }
}

proof fn lemma_named_hit_is_known(c: ResolveCtx, mf: Seq<char>, name: Seq<char>, depth: int, i: int)
    ensures
        named_reexport_hit(c, mf, name, depth, i) matches Some(s) ==> c.syms.contains(s),
    decreases 7 - depth, 1int, c.binds.len() - i,
{
    if !(depth > 6 || i < 0 || i >= c.binds.len()) {
        let b = c.binds[i];
        lemma_named_hit_is_known(c, mf, name, depth, i + 1);
        lemma_export_is_known(c, resolve_module_spec(mf, b.source_module, c.files, c.cfg).unwrap_or(mf),
            b.imported_name, depth + 1);
    }
}

proof fn lemma_star_hit_is_known(c: ResolveCtx, mf: Seq<char>, name: Seq<char>, depth: int, i: int)
    ensures
        star_reexport_hit(c, mf, name, depth, i) matches Some(s) ==> c.syms.contains(s),
    decreases 7 - depth, 0int, c.binds.len() - i,
{
    if !(depth > 6 || i < 0 || i >= c.binds.len()) {
        let b = c.binds[i];
        lemma_star_hit_is_known(c, mf, name, depth, i + 1);
        lemma_export_is_known(c, resolve_module_spec(mf, b.source_module, c.files, c.cfg).unwrap_or(mf),
            name, depth + 1);
    }
}

/// The import-binding step never invents a target: it either binds to a
/// known symbol (strong `import-binding`), leaves the edge open as a strong
/// `external-import`, or gives no verdict.
proof fn lemma_binding_step_is_known(c: ResolveCtx, b: ImportBindingV, e: EdgeV, file: Seq<char>)
    ensures
        binding_step(c, b, e, file) matches Some(r) ==> {
            ||| (r.resolved && r.dst_id is Some && r.conf == "strong"@ && r.reason == "import-binding"@
                && exists|s: SymbolV| c.syms.contains(s) && r.dst_id == Some(s.id))
            ||| (r == EdgeV { reason: "external-import"@, conf: "strong"@, ..e })
        },
{
    match resolve_module_spec(file, b.source_module, c.files, c.cfg) {
        Some(t) => {
            lemma_export_is_known(c, t, b.imported_name, 0);
        },
        None => {},
    }
}

/// Resolution is honest about every call site: the edge keeps the call's
/// origin, name and place; it is resolved exactly when it has a target; a
/// target is always the id of a known symbol; an edge left open says why
/// (`unresolved`, `receiver-unknown` or `external-import`); and a
/// receiver-unknown edge is never strong.
pub proof fn lemma_call_edge_is_honest(c: ResolveCtx, call: RawCallV)
    ensures
        call_edge_spec(c, call).src_id == call.from_id,
        call_edge_spec(c, call).raw_name == call.name,
        call_edge_spec(c, call).file_path == call.file_path,
        call_edge_spec(c, call).line == call.line,
        call_edge_spec(c, call).kind == "calls"@,
        call_edge_spec(c, call).provenance == "ast"@,
        call_edge_spec(c, call).resolved <==> call_edge_spec(c, call).dst_id is Some,
        call_edge_spec(c, call).dst_id matches Some(d) ==> exists|s: SymbolV| c.syms.contains(s) && s.id == d,
        !call_edge_spec(c, call).resolved ==> (call_edge_spec(c, call).reason == "unresolved"@
            || call_edge_spec(c, call).reason == "receiver-unknown"@
            || call_edge_spec(c, call).reason == "external-import"@),
        call_edge_spec(c, call).reason == "receiver-unknown"@ ==> call_edge_spec(c, call).conf == "weak"@,
        call_edge_spec(c, call).reason == "unresolved"@ ==> !call_edge_spec(c, call).resolved
            && call_edge_spec(c, call).conf == "weak"@,
{
    reveal_strlit("unresolved");
    reveal_strlit("receiver-unknown");
    reveal_strlit("external-import");
    reveal_strlit("import-binding");
    reveal_strlit("same-file");
    reveal_strlit("unique-global");
    reveal_strlit("weak");
    reveal_strlit("strong");
    let local = nonmethod_in_file_named(call.file_path, call.name);
    let glob = named(call.name);
    lemma_count_first(c.syms, local);
    lemma_count_first(c.syms, glob);
    assert("unresolved"@.len() == 10);
    assert("receiver-unknown"@.len() == 16);
    assert("import-binding"@.len() == 14);
    assert("external-import"@.len() == 15);
    assert("same-file"@.len() == 9);
    assert("unique-global"@.len() == 13);
    assert("receiver-unknown"@ != "unresolved"@);
    assert("import-binding"@ != "unresolved"@);
    assert("import-binding"@ != "receiver-unknown"@);
    assert("external-import"@ != "receiver-unknown"@);
    assert("external-import"@ != "unresolved"@);
    assert("same-file"@ != "unresolved"@);
    assert("same-file"@ != "receiver-unknown"@);
    assert("unique-global"@ != "unresolved"@);
    assert("unique-global"@ != "receiver-unknown"@);
    if !call.member {
        match binding_for(c.binds, call.file_path, call.name) {
            Some(b) => lemma_binding_step_is_known(c, b, call_base(call), call.file_path),
            None => {},
        }
    }
    let e = call_edge_spec(c, call);
    if e.dst_id is Some {
        let d = e.dst_id.unwrap();
        assert(exists|s: SymbolV| c.syms.contains(s) && s.id == d);
    }
}

/// Resolution keeps every call site: after the contains edges comes exactly
/// one edge per call, in call order, then one per heritage clause.
pub proof fn lemma_one_edge_per_call(c: ResolveCtx, calls: Seq<RawCallV>, heritage: Seq<EdgeV>)
    ensures
        ({
            let n = contains_edges(c.syms, c.syms.len() as int).len();
            let r = resolve_spec(c, calls, heritage);
            &&& r.len() == n + calls.len() + heritage.len()
            &&& forall|i: int| 0 <= i < calls.len() ==> #[trigger] r[n + i] == call_edge_spec(c, calls[i])
            &&& forall|i: int| 0 <= i < heritage.len() ==> #[trigger] r[n + calls.len() + i]
                == heritage_edge_spec(c, heritage[i])
        }),
{
}

/// A heritage clause that arrives open is resolved exactly when it gets a
/// target, and that target is always a known symbol.
pub proof fn lemma_heritage_edge_is_honest(c: ResolveCtx, h: EdgeV)
    requires
        h.dst_id is None,
        !h.resolved,
    ensures
        ({
            let e = heritage_edge_spec(c, h);
            &&& e.src_id == h.src_id && e.raw_name == h.raw_name && e.kind == h.kind
            &&& e.file_path == h.file_path && e.line == h.line
            &&& (e.resolved <==> e.dst_id is Some)
            &&& (e.dst_id matches Some(d) ==> exists|s: SymbolV| c.syms.contains(s) && s.id == d)
        }),
{
    let simple = last_segment(h.raw_name);
    lemma_count_first(c.syms, named(simple));
    lemma_count_first(c.syms, in_file_named(h.file_path, simple));
    if h.kind == "extends"@ || h.kind == "implements"@ {
        let b = match binding_for(c.binds, h.file_path, h.raw_name) {
            Some(b) => Some(b),
            None => binding_for(c.binds, h.file_path, simple),
        };
        match b {
            Some(b) => lemma_binding_step_is_known(c, b, h, h.file_path),
            None => {},
        }
    }
    let e = heritage_edge_spec(c, h);
    if e.dst_id is Some {
        let d = e.dst_id.unwrap();
        assert(exists|s: SymbolV| c.syms.contains(s) && s.id == d);
    }
}

} // verus!
