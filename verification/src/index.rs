//! Scan → resolve → graph rows. One scanned file is its text, content hash
//! and extracted facts; the graph is every file's symbols and bindings, the
//! resolved edges plus heuristic ones, and the routes pointed at their
//! handler symbols. Whether a rebuild is due is decided from the stored
//! `mtime` + `size` of each file.

use vstd::prelude::*;
use crate::extract::{extract, extracted};
use crate::heuristics::{extra_edges, extra_edges_spec};
use crate::model::{
    lang_name, Edge, FileFacts, ImportBinding, ImportBindingV, Lang, RawCall, RawCallV, RouteFact,
    RouteFactV, Symbol, SymbolV, EdgeV,
};
use crate::module::{ResolveConfig, ResolveConfigV};
use crate::plugins::{collect, route_views};
use crate::plugins::express::express_routes;
use crate::plugins::next::next_routes;
use crate::resolve::{
    binding_views, call_views, edge_views, first_sat, lemma_count_first, resolve_spec, resolve_with_heritage,
    sym_views, ResolveCtx, ctx_of,
};
use crate::text::{chars_of, find_char, find_char_exec, lemma_find_char_from_range, owned, seq_eq, slice_of, str_views};
use crate::walk::Entry;

verus! {

// Hex text of the BLAKE3 hash of a text's UTF-8 bytes.
pub uninterp spec fn blake3_hex(text: Seq<char>) -> Seq<char>;

/// Calls `blake3::hash` on the UTF-8 bytes of `src` and `Hash::to_hex`: the
/// result is named `blake3_hex` of the text, and, as `to_hex` documents for
/// the 32-byte hash, is 64 hex digits long.
#[verifier::external_body]
fn content_hash(src: &str) -> (r: String)
    ensures
        r@ == blake3_hex(src@),
        r@.len() == 64,
{
    blake3::hash(src.as_bytes()).to_hex().to_string()
}

/// One walked file: where it is, its hash, stat and language, its text and
/// what was extracted from it.
pub struct Scanned {
    pub path: String,
    pub hash: String,
    pub mtime_ms: i64,
    pub size: i64,
    pub language: String,
    pub src: String,
    pub facts: FileFacts,
}

/// Hash and extract one file that was read from disk.
pub fn scan_file(rel: &str, src: String, mtime_ms: i64, size: i64, lang: Lang) -> (r: Scanned)
    ensures
        r.path@ == rel@,
        r.hash@ == blake3_hex(src@),
        r.mtime_ms == mtime_ms,
        r.size == size,
        r.language@ == lang_name(lang),
        r.src@ == src@,
        extracted(r.facts, rel@, src@),
{
    let hash = content_hash(src.as_str());
    let facts = extract(rel, src.as_str());
    Scanned { path: owned(rel), hash, mtime_ms, size, language: lang.as_str(), src, facts }
}

// ----------------------------------------------------------------- graph ---

pub open spec fn all_symbols(ss: Seq<Scanned>) -> Seq<SymbolV>
    decreases ss.len(),
{
    if ss.len() == 0 {
        Seq::empty()
    } else {
        all_symbols(ss.drop_last()) + sym_views(ss.last().facts.symbols@)
    }
}

pub open spec fn all_calls(ss: Seq<Scanned>) -> Seq<RawCallV>
    decreases ss.len(),
{
    if ss.len() == 0 {
        Seq::empty()
    } else {
        all_calls(ss.drop_last()) + call_views(ss.last().facts.calls@)
    }
}

pub open spec fn all_bindings(ss: Seq<Scanned>) -> Seq<ImportBindingV>
    decreases ss.len(),
{
    if ss.len() == 0 {
        Seq::empty()
    } else {
        all_bindings(ss.drop_last()) + binding_views(ss.last().facts.imports@)
    }
}

pub open spec fn all_heritage(ss: Seq<Scanned>) -> Seq<EdgeV>
    decreases ss.len(),
{
    if ss.len() == 0 {
        Seq::empty()
    } else {
        all_heritage(ss.drop_last()) + edge_views(ss.last().facts.heritage@)
    }
}

/// Heuristic edges of every file, recomputed from its text and facts.
pub open spec fn all_extra(ss: Seq<Scanned>) -> Seq<EdgeV>
    decreases ss.len(),
{
    if ss.len() == 0 {
        Seq::empty()
    } else {
        let s = ss.last();
        all_extra(ss.drop_last()) + extra_edges_spec(
            s.path@,
            s.src@,
            sym_views(s.facts.symbols@),
            call_views(s.facts.calls@),
        )
    }
}

/// Framework routes of every file.
pub open spec fn all_routes(ss: Seq<Scanned>) -> Seq<RouteFactV>
    decreases ss.len(),
{
    if ss.len() == 0 {
        Seq::empty()
    } else {
        let s = ss.last();
        all_routes(ss.drop_last()) + express_routes(s.path@, s.src@) + next_routes(s.path@, s.src@)
    }
}

pub open spec fn scanned_paths(ss: Seq<Scanned>) -> Seq<Seq<char>> {
    ss.map_values(|s: Scanned| s.path@)
}

/// `s` up to the first `c` (all of it without one).
pub open spec fn upto(s: Seq<char>, c: char) -> Seq<char> {
    match find_char(s, c) {
        Some(j) => s.take(j),
        None => s,
    }
}

/// The symbol name inside a handler id `file#name@line`: the piece after
/// the first `#` (up to a next `#`), up to its first `@`.
pub open spec fn handler_name(h: Seq<char>) -> Option<Seq<char>> {
    match find_char(h, '#') {
        None => None,
        Some(i) => Some(upto(upto(h.subrange(i + 1, h.len() as int), '#'), '@')),
    }
}

/// A route whose handler names a symbol of its file is pointed at that
/// symbol's id (the first such symbol).
pub open spec fn repoint(r: RouteFactV, syms: Seq<SymbolV>) -> RouteFactV {
    match handler_name(r.handler_id) {
        Some(n) => match first_sat(syms, |s: SymbolV| s.name == n && s.file_path == r.file_path) {
            Some(s) => RouteFactV { handler_id: s.id, ..r },
            None => r,
        },
        None => r,
    }
}

/// Every row the graph store gets from one scan.
pub struct Graph {
    pub symbols: Vec<Symbol>,
    pub bindings: Vec<ImportBinding>,
    pub edges: Vec<Edge>,
    pub routes: Vec<RouteFact>,
}

/// The resolution context of a scan: all symbols and bindings, the scanned
/// paths as the known files.
pub open spec fn scan_ctx(ss: Seq<Scanned>, cfg: ResolveConfigV) -> ResolveCtx {
    ResolveCtx { syms: all_symbols(ss), binds: all_bindings(ss), files: scanned_paths(ss), cfg: cfg }
}

fn copy_call(c: &RawCall) -> (r: RawCall)
    ensures
        r@ == c@,
{
    RawCall {
        from_id: c.from_id.clone(),
        name: c.name.clone(),
        member: c.member,
        line: c.line,
        file_path: c.file_path.clone(),
    }
}

fn copy_binding(b: &ImportBinding) -> (r: ImportBinding)
    ensures
        r@ == b@,
{
    ImportBinding {
        file_path: b.file_path.clone(),
        local_name: b.local_name.clone(),
        source_module: b.source_module.clone(),
        imported_name: b.imported_name.clone(),
        kind: b.kind.clone(),
    }
}

fn handler_name_exec(h: &str) -> (r: Option<Vec<char>>)
    ensures
        match r {
            Some(v) => handler_name(h@) == Some(v@),
            None => handler_name(h@) is None,
        },
{
    let v = chars_of(h);
    proof {
        lemma_find_char_from_range(v@, '#', 0);
    }
    let i = match find_char_exec(v.as_slice(), '#') {
        Some(i) => i,
        None => return None,
    };
    assert(i < v.len());
    let rest = slice_of(v.as_slice(), i + 1, v.len());
    let a = upto_exec(rest.as_slice(), '#');
    let b = upto_exec(a.as_slice(), '@');
    Some(b)
}

fn upto_exec(s: &[char], c: char) -> (r: Vec<char>)
    ensures
        r@ == upto(s@, c),
{
    proof {
        lemma_find_char_from_range(s@, c, 0);
    }
    match find_char_exec(s, c) {
        Some(j) => slice_of(s, 0, j),
        None => {
            let r = slice_of(s, 0, s.len());
            assert(r@ =~= s@);
            r
        },
    }
}

/// The graph rows of a scan: every file's symbols and bindings in scan
/// order; the resolved contains / call / heritage edges followed by every
/// file's heuristic edges; and every file's routes, each pointed at its
/// handler symbol when the handler id names one in the same file.
pub fn build_graph(scanned: &[Scanned], cfg: &ResolveConfig) -> (g: Graph)
    ensures
        sym_views(g.symbols@) == all_symbols(scanned@),
        binding_views(g.bindings@) == all_bindings(scanned@),
        edge_views(g.edges@) == resolve_spec(scan_ctx(scanned@, cfg@), all_calls(scanned@), all_heritage(scanned@))
            + all_extra(scanned@),
        route_views(g.routes@) == all_routes(scanned@).map_values(|r: RouteFactV| repoint(r, all_symbols(scanned@))),
{
    let ghost ss = scanned@;
    let mut symbols: Vec<Symbol> = Vec::new();
    let mut calls: Vec<RawCall> = Vec::new();
    let mut bindings: Vec<ImportBinding> = Vec::new();
    let mut heritage: Vec<Edge> = Vec::new();
    let mut files: Vec<String> = Vec::new();
    let mut i: usize = 0;
    while i < scanned.len()
        invariant
            ss == scanned@,
            i <= ss.len(),
            sym_views(symbols@) == all_symbols(ss.take(i as int)),
            call_views(calls@) == all_calls(ss.take(i as int)),
            binding_views(bindings@) == all_bindings(ss.take(i as int)),
            edge_views(heritage@) == all_heritage(ss.take(i as int)),
            str_views(files@) == scanned_paths(ss.take(i as int)),
        decreases scanned.len() - i,
    {
        let s = &scanned[i];
        assert(ss.take(i + 1).drop_last() =~= ss.take(i as int));
        assert(ss.take(i + 1).last() == ss[i as int]);
        let ghost sym0 = sym_views(symbols@);
        let mut j: usize = 0;
        while j < s.facts.symbols.len()
            invariant
                j <= s.facts.symbols@.len(),
                sym_views(symbols@) == sym0 + sym_views(s.facts.symbols@).take(j as int),
            decreases s.facts.symbols.len() - j,
        {
            let x = s.facts.symbols[j].duplicate();
            let ghost before = sym_views(symbols@);
            symbols.push(x);
            assert(sym_views(symbols@) =~= before.push(s.facts.symbols@[j as int]@));
            assert(sym_views(s.facts.symbols@).take(j + 1) =~= sym_views(s.facts.symbols@).take(j as int).push(s.facts.symbols@[j as int]@));
            j += 1;
        }
        assert(sym_views(s.facts.symbols@).take(j as int) =~= sym_views(s.facts.symbols@));
        let ghost call0 = call_views(calls@);
        let mut j: usize = 0;
        while j < s.facts.calls.len()
            invariant
                j <= s.facts.calls@.len(),
                call_views(calls@) == call0 + call_views(s.facts.calls@).take(j as int),
            decreases s.facts.calls.len() - j,
        {
            let x = copy_call(&s.facts.calls[j]);
            let ghost before = call_views(calls@);
            calls.push(x);
            assert(call_views(calls@) =~= before.push(s.facts.calls@[j as int]@));
            assert(call_views(s.facts.calls@).take(j + 1) =~= call_views(s.facts.calls@).take(j as int).push(s.facts.calls@[j as int]@));
            j += 1;
        }
        assert(call_views(s.facts.calls@).take(j as int) =~= call_views(s.facts.calls@));
        let ghost b0 = binding_views(bindings@);
        let mut j: usize = 0;
        while j < s.facts.imports.len()
            invariant
                j <= s.facts.imports@.len(),
                binding_views(bindings@) == b0 + binding_views(s.facts.imports@).take(j as int),
            decreases s.facts.imports.len() - j,
        {
            let x = copy_binding(&s.facts.imports[j]);
            let ghost before = binding_views(bindings@);
            bindings.push(x);
            assert(binding_views(bindings@) =~= before.push(s.facts.imports@[j as int]@));
            assert(binding_views(s.facts.imports@).take(j + 1) =~= binding_views(s.facts.imports@).take(j as int).push(s.facts.imports@[j as int]@));
            j += 1;
        }
        assert(binding_views(s.facts.imports@).take(j as int) =~= binding_views(s.facts.imports@));
        let ghost h0 = edge_views(heritage@);
        let mut j: usize = 0;
        while j < s.facts.heritage.len()
            invariant
                j <= s.facts.heritage@.len(),
                edge_views(heritage@) == h0 + edge_views(s.facts.heritage@).take(j as int),
            decreases s.facts.heritage.len() - j,
        {
            let x = s.facts.heritage[j].duplicate();
            let ghost before = edge_views(heritage@);
            heritage.push(x);
            assert(edge_views(heritage@) =~= before.push(s.facts.heritage@[j as int]@));
            assert(edge_views(s.facts.heritage@).take(j + 1) =~= edge_views(s.facts.heritage@).take(j as int).push(s.facts.heritage@[j as int]@));
            j += 1;
        }
        assert(edge_views(s.facts.heritage@).take(j as int) =~= edge_views(s.facts.heritage@));
        let ghost f0 = str_views(files@);
        files.push(s.path.clone());
        assert(str_views(files@) =~= f0.push(s.path@));
        assert(scanned_paths(ss.take(i + 1)) =~= scanned_paths(ss.take(i as int)).push(s.path@));
        i += 1;
    }
    assert(ss.take(scanned.len() as int) =~= ss);
    let mut edges = resolve_with_heritage(
        symbols.as_slice(),
        calls.as_slice(),
        bindings.as_slice(),
        heritage.as_slice(),
        &files,
        cfg,
    );
    assert(ctx_of(symbols@, bindings@, files@, cfg@) == scan_ctx(ss, cfg@));
    let ghost resolved = edge_views(edges@);
    let mut routes: Vec<RouteFact> = Vec::new();
    let mut i: usize = 0;
    while i < scanned.len()
        invariant
            ss == scanned@,
            i <= ss.len(),
            edge_views(edges@) == resolved + all_extra(ss.take(i as int)),
            route_views(routes@) == all_routes(ss.take(i as int)),
        decreases scanned.len() - i,
    {
        let s = &scanned[i];
        assert(ss.take(i + 1).drop_last() =~= ss.take(i as int));
        assert(ss.take(i + 1).last() == ss[i as int]);
        let mut extra = extra_edges(s.path.as_str(), s.src.as_str(), &s.facts);
        let ghost e0 = edge_views(edges@);
        let ghost ev = edge_views(extra@);
        edges.append(&mut extra);
        assert(edge_views(edges@) =~= e0 + ev);
        let mut rs = collect(s.path.as_str(), s.src.as_str());
        let ghost r0 = route_views(routes@);
        let ghost rv = route_views(rs@);
        routes.append(&mut rs);
        assert(route_views(routes@) =~= r0 + rv);
        i += 1;
    }
    assert(ss.take(scanned.len() as int) =~= ss);
    let ghost allsyms = sym_views(symbols@);
    let ghost raw = route_views(routes@);
    let mut out: Vec<RouteFact> = Vec::new();
    let mut k: usize = 0;
    while k < routes.len()
        invariant
            k <= routes@.len(),
            raw == route_views(routes@),
            allsyms == sym_views(symbols@),
            route_views(out@) == raw.take(k as int).map_values(|r: RouteFactV| repoint(r, allsyms)),
        decreases routes.len() - k,
    {
        let r = &routes[k];
        let mut handler = r.handler_id.clone();
        match handler_name_exec(r.handler_id.as_str()) {
            Some(n) => {
                let ghost p = |s: SymbolV| s.name == n@ && s.file_path == r.file_path@;
                proof {
                    lemma_count_first(allsyms, p);
                }
                let mut q: usize = 0;
                let mut found = false;
                assert(allsyms.skip(0) =~= allsyms);
                while q < symbols.len() && !found
                    invariant
                        q <= symbols@.len(),
                        allsyms == sym_views(symbols@),
                        p == (|s: SymbolV| s.name == n@ && s.file_path == r.file_path@),
                        !found ==> first_sat(allsyms, p) == first_sat(allsyms.skip(q as int), p),
                        found ==> (first_sat(allsyms, p) matches Some(x) && x.id == handler@),
                        !found ==> handler@ == r.handler_id@,
                    decreases symbols.len() - q + (if found { 0int } else { 1int }),
                {
                    let nm = chars_of(symbols[q].name.as_str());
                    let fp = chars_of(symbols[q].file_path.as_str());
                    let rf = chars_of(r.file_path.as_str());
                    proof {
                        lemma_first_sat_skip(allsyms, p, q as int);
                    }
                    if seq_eq(nm.as_slice(), n.as_slice()) && seq_eq(fp.as_slice(), rf.as_slice()) {
                        handler = symbols[q].id.clone();
                        found = true;
                    } else {
                        q += 1;
                    }
                }
                if !found {
                    assert(allsyms.skip(q as int) =~= Seq::<SymbolV>::empty());
                }
            },
            None => {},
        }
        let nr = RouteFact {
            method: r.method.clone(),
            path: r.path.clone(),
            handler_id: handler,
            file_path: r.file_path.clone(),
            line: r.line,
        };
        assert(raw[k as int] == routes@[k as int]@);
        assert(nr@ == repoint(raw[k as int], allsyms));
        let ghost o0 = route_views(out@);
        let ghost nv = nr@;
        out.push(nr);
        assert(route_views(out@) =~= o0.push(nv));
        assert(raw.take(k + 1) =~= raw.take(k as int).push(raw[k as int]));
        assert(route_views(out@) =~= raw.take(k + 1).map_values(|r: RouteFactV| repoint(r, allsyms)));
        k += 1;
    }
    assert(raw.take(routes.len() as int) =~= raw);
    Graph { symbols, bindings, edges, routes: out }
}

/// `first_sat` on a suffix: the head decides when it satisfies `p`,
/// otherwise the rest does.
proof fn lemma_first_sat_skip(s: Seq<SymbolV>, p: spec_fn(SymbolV) -> bool, q: int)
    requires
        0 <= q < s.len(),
    ensures
        first_sat(s.skip(q), p) == if p(s[q]) {
            Some(s[q])
        } else {
            first_sat(s.skip(q + 1), p)
        },
    decreases s.len(),
{
    lemma_first_sat_front(s.skip(q), p);
    assert(s.skip(q).drop_first() =~= s.skip(q + 1));
    assert(s.skip(q)[0] == s[q]);
}

/// `first_sat` by its first element.
proof fn lemma_first_sat_front(s: Seq<SymbolV>, p: spec_fn(SymbolV) -> bool)
    requires
        s.len() > 0,
    ensures
        first_sat(s, p) == if p(s[0]) {
            Some(s[0])
        } else {
            first_sat(s.drop_first(), p)
        },
    decreases s.len(),
{
    if s.len() > 1 {
        lemma_first_sat_front(s.drop_last(), p);
        assert(s.drop_last().drop_first() =~= s.drop_first().drop_last());
        assert(s.drop_last()[0] == s[0]);
        assert(s.drop_first().last() == s.last());
    } else {
        assert(s.drop_first() =~= Seq::<SymbolV>::empty());
        assert(s.drop_last() =~= Seq::<SymbolV>::empty());
    }
}

// ---------------------------------------------------------- route rows ---

/// The node id of a route: `{file}#route:{method}:{path}`.
pub fn route_node_id(r: &RouteFact) -> (id: String)
    ensures
        id@ == r.file_path@ + "#route:"@ + r.method@ + ":"@ + r.path@,
{
    let mut v = chars_of(r.file_path.as_str());
    let mut w = chars_of("#route:");
    v.append(&mut w);
    let mut w = chars_of(r.method.as_str());
    v.append(&mut w);
    v.push(':');
    let mut w = chars_of(r.path.as_str());
    v.append(&mut w);
    proof {
        reveal_strlit(":");
    }
    assert(v@ =~= r.file_path@ + "#route:"@ + r.method@ + ":"@ + r.path@);
    crate::text::string_of(v.as_slice())
}

/// The label of a route: `{method} {path}`.
pub fn route_label(r: &RouteFact) -> (s: String)
    ensures
        s@ == r.method@ + " "@ + r.path@,
{
    let mut v = chars_of(r.method.as_str());
    v.push(' ');
    let mut w = chars_of(r.path.as_str());
    v.append(&mut w);
    proof {
        reveal_strlit(" ");
    }
    assert(v@ =~= r.method@ + " "@ + r.path@);
    crate::text::string_of(v.as_slice())
}

// ------------------------------------------------------------ dirty gate ---

/// What the store holds for a path (a later row for the same path wins).
pub open spec fn stored(db: Seq<(String, i64, i64)>, p: Seq<char>) -> Option<(i64, i64)>
    decreases db.len(),
{
    if db.len() == 0 {
        None
    } else if db.last().0@ == p {
        Some((db.last().1, db.last().2))
    } else {
        stored(db.drop_last(), p)
    }
}

/// How many different paths the store holds.
pub open spec fn distinct_paths(db: Seq<(String, i64, i64)>) -> nat
    decreases db.len(),
{
    if db.len() == 0 {
        0
    } else {
        distinct_paths(db.drop_last()) + if stored(db.drop_last(), db.last().0@) is Some {
            0nat
        } else {
            1nat
        }
    }
}

/// A rebuild is due when some walked file is new or its `mtime` or `size`
/// differs from the stored one, or when a stored file is gone.
pub open spec fn is_dirty_spec(db: Seq<(String, i64, i64)>, ents: Seq<Entry>) -> bool {
    ||| exists|k: int| 0 <= k < ents.len() && stored(db, (#[trigger] ents[k]).rel@) != Some((ents[k].mtime_ms, ents[k].size))
    ||| ents.len() != distinct_paths(db)
}

fn stored_exec(db: &[(String, i64, i64)], upto: usize, p: &[char]) -> (r: Option<(i64, i64)>)
    requires
        upto <= db@.len(),
    ensures
        r == stored(db@.take(upto as int), p@),
{
    let mut n = upto;
    while n > 0
        invariant
            n <= upto <= db@.len(),
            stored(db@.take(upto as int), p@) == stored(db@.take(n as int), p@),
        decreases n,
    {
        assert(db@.take(n as int).drop_last() =~= db@.take(n - 1));
        assert(db@.take(n as int).last() == db@[n - 1]);
        assert(db@.take(upto as int).take(n as int) =~= db@.take(n as int));
        let k = chars_of(db[n - 1].0.as_str());
        if seq_eq(k.as_slice(), p) {
            return Some((db[n - 1].1, db[n - 1].2));
        }
        n -= 1;
    }
    None
}

/// Has anything changed on disk since the stored index (by `mtime` +
/// `size`, no file read)?
pub fn is_dirty(db: &[(String, i64, i64)], ents: &[Entry]) -> (r: bool)
    ensures
        r == is_dirty_spec(db@, ents@),
{
    assert(db@.take(db@.len() as int) =~= db@);
    let mut k: usize = 0;
    while k < ents.len()
        invariant
            k <= ents@.len(),
            db@.take(db@.len() as int) == db@,
            forall|j: int| 0 <= j < k ==> stored(db@, (#[trigger] ents@[j]).rel@) == Some((ents@[j].mtime_ms, ents@[j].size)),
        decreases ents.len() - k,
    {
        let p = chars_of(ents[k].rel.as_str());
        match stored_exec(db, db.len(), p.as_slice()) {
            Some((m, s)) => {
                if m != ents[k].mtime_ms || s != ents[k].size {
                    assert(stored(db@, ents@[k as int].rel@) != Some((ents@[k as int].mtime_ms, ents@[k as int].size)));
                    return true;
                }
            },
            None => {
                assert(stored(db@, ents@[k as int].rel@) != Some((ents@[k as int].mtime_ms, ents@[k as int].size)));
                return true;
            },
        }
        k += 1;
    }
    let mut count: usize = 0;
    let mut i: usize = 0;
    while i < db.len()
        invariant
            i <= db@.len(),
            count == distinct_paths(db@.take(i as int)),
            count <= i,
        decreases db.len() - i,
    {
        assert(db@.take(i + 1).drop_last() =~= db@.take(i as int));
        assert(db@.take(i + 1).last() == db@[i as int]);
        let p = chars_of(db[i].0.as_str());
        match stored_exec(db, i, p.as_slice()) {
            Some(_) => {},
            None => {
                count += 1;
            },
        }
        i += 1;
    }
    assert(db@.take(db@.len() as int) =~= db@);
    ents.len() != count
}

// ------------------------------------------------------------------ laws ---

/// The rows an index stores for walked entries.
pub open spec fn rows_of(ents: Seq<Entry>) -> Seq<(String, i64, i64)> {
    ents.map_values(|e: Entry| (e.rel, e.mtime_ms, e.size))
}

pub open spec fn distinct_rels(ents: Seq<Entry>) -> bool {
    forall|i: int, j: int| 0 <= i < j < ents.len() ==> (#[trigger] ents[i]).rel@ != (#[trigger] ents[j]).rel@
}

proof fn lemma_stored_absent(ents: Seq<Entry>, p: Seq<char>)
    requires
        forall|i: int| 0 <= i < ents.len() ==> (#[trigger] ents[i]).rel@ != p,
    ensures
        stored(rows_of(ents), p) is None,
    decreases ents.len(),
{
    if ents.len() > 0 {
        assert(rows_of(ents).drop_last() =~= rows_of(ents.drop_last()));
        lemma_stored_absent(ents.drop_last(), p);
    }
}

proof fn lemma_stored_found(ents: Seq<Entry>, k: int)
    requires
        distinct_rels(ents),
        0 <= k < ents.len(),
    ensures
        stored(rows_of(ents), ents[k].rel@) == Some((ents[k].mtime_ms, ents[k].size)),
    decreases ents.len(),
{
    let n = ents.len() - 1;
    assert(rows_of(ents).drop_last() =~= rows_of(ents.drop_last()));
    if k < n {
        assert(ents[k].rel@ != ents[n].rel@);
        lemma_stored_found(ents.drop_last(), k);
        assert(ents.drop_last()[k] == ents[k]);
    }
}

proof fn lemma_distinct_count(ents: Seq<Entry>)
    requires
        distinct_rels(ents),
    ensures
        distinct_paths(rows_of(ents)) == ents.len(),
    decreases ents.len(),
{
    if ents.len() > 0 {
        let init = ents.drop_last();
        assert(rows_of(ents).drop_last() =~= rows_of(init));
        lemma_distinct_count(init);
        assert forall|i: int| 0 <= i < init.len() implies (#[trigger] init[i]).rel@ != ents.last().rel@ by {
            assert(init[i] == ents[i]);
        }
        lemma_stored_absent(init, ents.last().rel@);
    }
}

/// Right after indexing, nothing is dirty: the rows stored for the walked
/// files (one per path) match a walk that finds the same files unchanged.
pub proof fn lemma_fresh_index_is_clean(ents: Seq<Entry>)
    requires
        distinct_rels(ents),
    ensures
        !is_dirty_spec(rows_of(ents), ents),
{
    assert forall|k: int| 0 <= k < ents.len() implies stored(rows_of(ents), (#[trigger] ents[k]).rel@)
        == Some((ents[k].mtime_ms, ents[k].size)) by {
        lemma_stored_found(ents, k);
    }
    lemma_distinct_count(ents);
}

/// A file whose stored `mtime` or `size` no longer matches makes the index
/// dirty, as does a file the store has never seen.
pub proof fn lemma_changed_file_is_dirty(db: Seq<(String, i64, i64)>, ents: Seq<Entry>, k: int)
    requires
        0 <= k < ents.len(),
        stored(db, ents[k].rel@) != Some((ents[k].mtime_ms, ents[k].size)),
    ensures
        is_dirty_spec(db, ents),
{
}

} // verus!
