//! Heuristic dispatch edges, guessed from already-extracted facts and the raw
//! source. They are never passed off as parser facts: provenance is
//! `heuristic`, confidence `weak`, and the reason names the pattern.

use vstd::prelude::*;
use crate::model::{
    module_symbol_id, provenance_name, Edge, EdgeV, FileFacts, Provenance, RawCall, RawCallV, Symbol,
    SymbolV,
};
use crate::plugins::express::is_quote;
use crate::resolve::{
    call_views, edge_views, first_sat, in_file_named, pred_of, scan, sym_views, SymPred,
};
use crate::text::{
    chars_of, find, find_char, occurs_at, find_char_exec, find_exec, has_prefix, lemma_find_char_from_range,
    lines, lines_exec, seq_eq, slice_of, starts_with, string_of, trim_start_exec, trim_start_ws,
    views,
};

verus! {

pub open spec fn heuristic_edge(
    src: Seq<char>,
    dst: Option<Seq<char>>,
    raw: Seq<char>,
    resolved: bool,
    reason: Seq<char>,
    file: Seq<char>,
    line: nat,
) -> EdgeV {
    EdgeV {
        src_id: src,
        dst_id: dst,
        kind: "dispatches"@,
        raw_name: raw,
        resolved: resolved,
        conf: "weak"@,
        reason: reason,
        provenance: provenance_name(Provenance::Heuristic),
        file_path: file,
        line: line,
    }
}

// ------------------------------------------------------- callback args ---

/// A plain call, in `file`, of a function defined in `file` by a different
/// symbol than that function itself.
pub open spec fn callback_edge(file: Seq<char>, syms: Seq<SymbolV>, c: RawCallV) -> Option<EdgeV> {
    if !c.member && c.file_path == file {
        match first_sat(syms, in_file_named(file, c.name)) {
            Some(callee) => if c.from_id == callee.id {
                None
            } else {
                Some(
                    heuristic_edge(
                        c.from_id,
                        Some(callee.id),
                        c.name,
                        true,
                        "callback-arg"@,
                        file,
                        c.line,
                    ),
                )
            },
            None => None,
        }
    } else {
        None
    }
}

pub open spec fn callback_edges(file: Seq<char>, syms: Seq<SymbolV>, calls: Seq<RawCallV>) -> Seq<EdgeV>
    decreases calls.len(),
{
    if calls.len() == 0 {
        Seq::empty()
    } else {
        callback_edges(file, syms, calls.drop_last()) + match callback_edge(
            file,
            syms,
            calls.last(),
        ) {
            Some(e) => seq![e],
            None => Seq::empty(),
        }
    }
}

// ------------------------------------------------------- event emitter ---

/// The quoted, non-empty first argument after `needle` on a line.
pub open spec fn event_arg(line: Seq<char>, needle: Seq<char>) -> Option<Seq<char>> {
    match find(line, needle) {
        None => None,
        Some(i) => {
            let rest = trim_start_ws(line.subrange(i + needle.len(), line.len() as int));
            if rest.len() == 0 || !is_quote(rest[0]) {
                None
            } else {
                let r2 = rest.subrange(1, rest.len() as int);
                match find_char(r2, rest[0]) {
                    None => None,
                    Some(e) => if e == 0 {
                        None
                    } else {
                        Some(r2.subrange(0, e))
                    },
                }
            }
        },
    }
}

pub open spec fn encloses(s: SymbolV, file: Seq<char>, line: nat) -> bool {
    s.file_path == file && s.start_line <= line && s.end_line >= line
}

/// Among the first `n` symbols, the enclosing one that starts last (the later
/// one on a tie).
pub open spec fn innermost(syms: Seq<SymbolV>, file: Seq<char>, line: nat, n: int) -> Option<SymbolV>
    decreases n,
{
    if n <= 0 {
        None
    } else {
        let best = innermost(syms, file, line, n - 1);
        let s = syms[n - 1];
        if encloses(s, file, line) && (best is None || s.start_line >= best->Some_0.start_line) {
            Some(s)
        } else {
            best
        }
    }
}

/// The id of the innermost symbol around `line`, else the module pseudo-node.
pub open spec fn enclosing_id(syms: Seq<SymbolV>, file: Seq<char>, line: nat) -> Seq<char> {
    match innermost(syms, file, line, syms.len() as int) {
        Some(s) => s.id,
        None => module_symbol_id(file),
    }
}

/// Listened-to events, and emits as (event, line, emitting symbol).
pub ghost struct EventScan {
    pub ons: Seq<Seq<char>>,
    pub emits: Seq<(Seq<char>, nat, Seq<char>)>,
}

pub open spec fn event_scan(file: Seq<char>, syms: Seq<SymbolV>, ls: Seq<Seq<char>>) -> EventScan
    decreases ls.len(),
{
    if ls.len() == 0 {
        EventScan { ons: Seq::empty(), emits: Seq::empty() }
    } else {
        let prev = event_scan(file, syms, ls.drop_last());
        let line = ls.last();
        let ln = ls.len();
        let ons1 = match event_arg(line, ".on("@) {
            Some(ev) => prev.ons.push(ev),
            None => prev.ons,
        };
        let emits1 = match event_arg(line, ".emit("@) {
            Some(ev) => prev.emits.push((ev, ln, enclosing_id(syms, file, ln))),
            None => prev.emits,
        };
        let ons2 = match event_arg(line, ".addEventListener("@) {
            Some(ev) => ons1.push(ev),
            None => ons1,
        };
        EventScan { ons: ons2, emits: emits1 }
    }
}

/// One edge per emit whose event something listens to, in emit order.
pub open spec fn emit_edges(
    file: Seq<char>,
    ons: Seq<Seq<char>>,
    emits: Seq<(Seq<char>, nat, Seq<char>)>,
) -> Seq<EdgeV>
    decreases emits.len(),
{
    if emits.len() == 0 {
        Seq::empty()
    } else {
        let e = emits.last();
        emit_edges(file, ons, emits.drop_last()) + if ons.contains(e.0) {
            seq![heuristic_edge(e.2, None, "emit:"@ + e.0, false, "event-emit-on"@, file, e.1)]
        } else {
            Seq::empty()
        }
    }
}

pub open spec fn event_edges(file: Seq<char>, src: Seq<char>, syms: Seq<SymbolV>) -> Seq<EdgeV> {
    let sc = event_scan(file, syms, lines(src));
    emit_edges(file, sc.ons, sc.emits)
}

// ---------------------------------------------------------- setState ---

pub open spec fn is_render(s: SymbolV) -> bool {
    s.name == "render"@ && s.kind == "method"@
}

pub open spec fn is_setter(name: Seq<char>) -> bool {
    name == "setState"@ || (has_prefix(name, "set"@) && name.len() > 3)
}

pub open spec fn setter_edges(file: Seq<char>, render_id: Seq<char>, calls: Seq<RawCallV>) -> Seq<
    EdgeV,
>
    decreases calls.len(),
{
    if calls.len() == 0 {
        Seq::empty()
    } else {
        let c = calls.last();
        setter_edges(file, render_id, calls.drop_last()) + if is_setter(c.name) {
            seq![
                heuristic_edge(
                    c.from_id,
                    Some(render_id),
                    c.name,
                    true,
                    "setState-render"@,
                    file,
                    c.line,
                ),
            ]
        } else {
            Seq::empty()
        }
    }
}

/// Setter calls point at the first `render` method, when there is one.
pub open spec fn render_edges(file: Seq<char>, syms: Seq<SymbolV>, calls: Seq<RawCallV>) -> Seq<EdgeV> {
    match first_sat(syms, |s: SymbolV| is_render(s)) {
        None => Seq::empty(),
        Some(r) => setter_edges(file, r.id, calls),
    }
}

/// All heuristic edges of one file: callback args, then emit/on pairs, then
/// setState → render.
pub open spec fn extra_edges_spec(
    file: Seq<char>,
    src: Seq<char>,
    syms: Seq<SymbolV>,
    calls: Seq<RawCallV>,
) -> Seq<EdgeV> {
    callback_edges(file, syms, calls) + event_edges(file, src, syms) + render_edges(
        file,
        syms,
        calls,
    )
}

// ------------------------------------------------------------------ exec ---

fn owned(s: &str) -> (r: String)
    ensures
        r@ == s@,
{
    let mut r = String::new();
    crate::text::append_str(&mut r, s);
    r
}

fn make_edge(
    src: String,
    dst: Option<String>,
    raw: String,
    resolved: bool,
    reason: &str,
    file: &str,
    line: usize,
) -> (e: Edge)
    ensures
        e@ == heuristic_edge(
            src@,
            match dst {
                Some(d) => Some(d@),
                None => None::<Seq<char>>,
            },
            raw@,
            resolved,
            reason@,
            file@,
            line as nat,
        ),
{
    Edge {
        src_id: src,
        dst_id: dst,
        kind: owned("dispatches"),
        raw_name: raw,
        resolved,
        conf: owned("weak"),
        reason: owned(reason),
        provenance: Provenance::Heuristic.as_str(),
        file_path: owned(file),
        line,
    }
}

fn callback_args(file: &str, facts: &FileFacts, out: &mut Vec<Edge>)
    ensures
        edge_views(final(out)@) == edge_views(old(out)@) + callback_edges(
            file@,
            sym_views(facts.symbols@),
            call_views(facts.calls@),
        ),
{
    let ghost start = edge_views(out@);
    let ghost cv = call_views(facts.calls@);
    let ghost sv = sym_views(facts.symbols@);
    let fv = chars_of(file);
    let mut i: usize = 0;
    while i < facts.calls.len()
        invariant
            i <= facts.calls@.len(),
            cv == call_views(facts.calls@),
            sv == sym_views(facts.symbols@),
            fv@ == file@,
            edge_views(out@) == start + callback_edges(file@, sv, cv.take(i as int)),
        decreases facts.calls.len() - i,
    {
        let c = &facts.calls[i];
        let ghost before = edge_views(out@);
        assert(cv.take(i + 1).drop_last() =~= cv.take(i as int));
        assert(cv.take(i + 1).last() == c@);
        if !c.member && seq_eq(&chars_of(c.file_path.as_str()), &fv) {
            let n = chars_of(c.name.as_str());
            let (_, first) = scan(&facts.symbols, SymPred::InFileNamed, &fv, &n);
            assert(pred_of(SymPred::InFileNamed, fv@, n@) == in_file_named(file@, c@.name));
            match first {
                Some(k) => {
                    let callee = &facts.symbols[k];
                    assert(sv[k as int] == callee@);
                    if !seq_eq(&chars_of(c.from_id.as_str()), &chars_of(callee.id.as_str())) {
                        let e = make_edge(
                            c.from_id.clone(),
                            Some(callee.id.clone()),
                            c.name.clone(),
                            true,
                            "callback-arg",
                            file,
                            c.line,
                        );
                        let ghost ev = e@;
                        out.push(e);
                        assert(edge_views(out@) =~= before.push(ev));
                    }
                },
                None => {},
            }
        }
        i += 1;
    }
    assert(cv.take(facts.calls.len() as int) =~= cv);
}

/// The quoted first argument after `needle` on a line, if non-empty.
pub fn extract_event_arg(line: &[char], needle: &str) -> (r: Option<Vec<char>>)
    ensures
        match r {
            Some(v) => event_arg(line@, needle@) == Some(v@),
            None => event_arg(line@, needle@) is None,
        },
{
    let nd = chars_of(needle);
    let found = find_exec(line, &nd);
    let i = match found {
        Some(i) => i,
        None => {
            return None;
        },
    };
    assert(occurs_at(line@, nd@, i as int));
    let ll = line.len();
    assert(i + nd@.len() <= ll);
    let end: usize = i + nd.len();
    let rest = trim_start_exec(&slice_of(line, end, line.len()));
    if rest.len() == 0 {
        return None;
    }
    let q = rest[0];
    if !(q == '\'' || q == '"' || q == '`') {
        return None;
    }
    let r2 = slice_of(&rest, 1, rest.len());
    proof {
        lemma_find_char_from_range(r2@, q, 0);
    }
    match find_char_exec(&r2, q) {
        None => None,
        Some(e) => {
            if e == 0 {
                None
            } else {
                Some(slice_of(&r2, 0, e))
            }
        },
    }
}

/// The id of the innermost symbol of `file` around `line`, else the module
/// pseudo-node.
pub fn enclosing_at(facts: &FileFacts, file: &str, line: usize) -> (r: String)
    ensures
        r@ == enclosing_id(sym_views(facts.symbols@), file@, line as nat),
{
    let ghost sv = sym_views(facts.symbols@);
    let fv = chars_of(file);
    let mut best: Option<usize> = None;
    let mut i: usize = 0;
    while i < facts.symbols.len()
        invariant
            i <= facts.symbols@.len(),
            sv == sym_views(facts.symbols@),
            fv@ == file@,
            match best {
                Some(b) => b < i && innermost(sv, file@, line as nat, i as int) == Some(sv[b as int]),
                None => innermost(sv, file@, line as nat, i as int) is None,
            },
        decreases facts.symbols.len() - i,
    {
        let s = &facts.symbols[i];
        assert(sv[i as int] == s@);
        if seq_eq(&chars_of(s.file_path.as_str()), &fv) && s.start_line <= line && s.end_line >= line {
            match best {
                None => {
                    best = Some(i);
                },
                Some(b) => {
                    if s.start_line >= facts.symbols[b].start_line {
                        best = Some(i);
                    }
                },
            }
        }
        i += 1;
    }
    match best {
        Some(b) => facts.symbols[b].id.clone(),
        None => Symbol::module_id(file),
    }
}

fn event_emitter(file: &str, src: &str, facts: &FileFacts, out: &mut Vec<Edge>)
    ensures
        edge_views(final(out)@) == edge_views(old(out)@) + event_edges(
            file@,
            src@,
            sym_views(facts.symbols@),
        ),
{
    let ghost sv = sym_views(facts.symbols@);
    let s = chars_of(src);
    let ls = lines_exec(&s);
    let mut ons: Vec<Vec<char>> = Vec::new();
    let mut emits: Vec<(Vec<char>, usize, String)> = Vec::new();
    let mut i: usize = 0;
    while i < ls.len()
        invariant
            i <= ls.len(),
            sv == sym_views(facts.symbols@),
            views(ls@) == lines(src@),
            views(ons@) == event_scan(file@, sv, views(ls@).take(i as int)).ons,
            emits@.map_values(|e: (Vec<char>, usize, String)| (e.0@, e.1 as nat, e.2@)) == event_scan(
                file@,
                sv,
                views(ls@).take(i as int),
            ).emits,
        decreases ls.len() - i,
    {
        let line = &ls[i];
        let ghost pre = views(ls@).take(i as int);
        assert(views(ls@).take(i + 1).drop_last() =~= pre);
        assert(views(ls@).take(i + 1).last() == line@);
        let ln = i + 1;
        let ghost ons0 = views(ons@);
        let ghost em0 = emits@.map_values(|e: (Vec<char>, usize, String)| (e.0@, e.1 as nat, e.2@));
        match extract_event_arg(line, ".on(") {
            Some(ev) => {
                let ghost evv = ev@;
                ons.push(ev);
                assert(views(ons@) =~= ons0.push(evv));
            },
            None => {},
        }
        let ghost ons1 = views(ons@);
        match extract_event_arg(line, ".emit(") {
            Some(ev) => {
                let from = enclosing_at(facts, file, ln);
                let ghost t = (ev@, ln as nat, from@);
                emits.push((ev, ln, from));
                assert(emits@.map_values(|e: (Vec<char>, usize, String)| (e.0@, e.1 as nat, e.2@))
                    =~= em0.push(t));
            },
            None => {},
        }
        match extract_event_arg(line, ".addEventListener(") {
            Some(ev) => {
                let ghost evv = ev@;
                ons.push(ev);
                assert(views(ons@) =~= ons1.push(evv));
            },
            None => {},
        }
        i += 1;
    }
    assert(views(ls@).take(ls.len() as int) =~= views(ls@));
    let ghost sc = event_scan(file@, sv, lines(src@));
    let ghost ev_all = emits@.map_values(|e: (Vec<char>, usize, String)| (e.0@, e.1 as nat, e.2@));
    let ghost start = edge_views(out@);
    let mut k: usize = 0;
    while k < emits.len()
        invariant
            k <= emits@.len(),
            views(ons@) == sc.ons,
            ev_all == emits@.map_values(|e: (Vec<char>, usize, String)| (e.0@, e.1 as nat, e.2@)),
            ev_all == sc.emits,
            edge_views(out@) == start + emit_edges(file@, sc.ons, ev_all.take(k as int)),
        decreases emits.len() - k,
    {
        let ghost before = edge_views(out@);
        assert(ev_all.take(k + 1).drop_last() =~= ev_all.take(k as int));
        assert(ev_all.take(k + 1).last() == ev_all[k as int]);
        assert(ev_all[k as int] == (emits@[k as int].0@, emits@[k as int].1 as nat, emits@[k as int].2@));
        let mut found = false;
        let mut j: usize = 0;
        while j < ons.len()
            invariant
                j <= ons@.len(),
                k < emits@.len(),
                found == exists|x: int| 0 <= x < j && views(ons@)[x] == emits@[k as int].0@,
            decreases ons.len() - j,
        {
            assert(views(ons@)[j as int] == ons@[j as int]@);
            if seq_eq(&ons[j], &emits[k].0) {
                found = true;
            }
            j += 1;
        }
        assert(found == views(ons@).contains(emits@[k as int].0@));
        if found {
            let mut raw: Vec<char> = chars_of("emit:");
            crate::text::push_all(&mut raw, &emits[k].0);
            let e = make_edge(
                emits[k].2.clone(),
                None,
                string_of(&raw),
                false,
                "event-emit-on",
                file,
                emits[k].1,
            );
            let ghost ev = e@;
            out.push(e);
            assert(edge_views(out@) =~= before.push(ev));
        }
        k += 1;
    }
    assert(ev_all.take(emits.len() as int) =~= ev_all);
}

fn set_state_to_render(file: &str, facts: &FileFacts, out: &mut Vec<Edge>)
    ensures
        edge_views(final(out)@) == edge_views(old(out)@) + render_edges(
            file@,
            sym_views(facts.symbols@),
            call_views(facts.calls@),
        ),
{
    let ghost sv = sym_views(facts.symbols@);
    let ghost rp = |s: SymbolV| is_render(s);
    let mut r: Option<usize> = None;
    let mut i: usize = 0;
    while i < facts.symbols.len() && r.is_none()
        invariant
            i <= facts.symbols@.len(),
            sv == sym_views(facts.symbols@),
            rp == (|s: SymbolV| is_render(s)),
            match r {
                Some(k) => k < sv.len() && first_sat(sv, rp) == Some(sv[k as int]),
                None => first_sat(sv.take(i as int), rp) is None,
            },
        decreases facts.symbols.len() - i,
    {
        let s = &facts.symbols[i];
        assert(sv[i as int] == s@);
        assert(sv.take(i + 1).drop_last() =~= sv.take(i as int));
        if crate::text::text_is(s.name.as_str(), "render") && crate::text::text_is(
            s.kind.as_str(),
            "method",
        ) {
            proof {
                lemma_first_sat_prefix(sv, rp, i as int);
            }
            r = Some(i);
        }
        i += 1;
    }
    let k = match r {
        Some(k) => k,
        None => {
            assert(sv.take(facts.symbols.len() as int) =~= sv);
            return;
        },
    };
    let render_id = &facts.symbols[k].id;
    let ghost cv = call_views(facts.calls@);
    let ghost start = edge_views(out@);
    let mut j: usize = 0;
    while j < facts.calls.len()
        invariant
            j <= facts.calls@.len(),
            cv == call_views(facts.calls@),
            render_id@ == first_sat(sv, rp)->Some_0.id,
            edge_views(out@) == start + setter_edges(file@, render_id@, cv.take(j as int)),
        decreases facts.calls.len() - j,
    {
        let c = &facts.calls[j];
        let ghost before = edge_views(out@);
        assert(cv.take(j + 1).drop_last() =~= cv.take(j as int));
        assert(cv.take(j + 1).last() == c@);
        let n = chars_of(c.name.as_str());
        let set = chars_of("set");
        if crate::text::text_is(c.name.as_str(), "setState") || (starts_with(&n, &set) && n.len()
            > 3) {
            let e = make_edge(
                c.from_id.clone(),
                Some(render_id.clone()),
                c.name.clone(),
                true,
                "setState-render",
                file,
                c.line,
            );
            let ghost ev = e@;
            out.push(e);
            assert(edge_views(out@) =~= before.push(ev));
        }
        j += 1;
    }
    assert(cv.take(facts.calls.len() as int) =~= cv);
}

proof fn lemma_first_sat_prefix(s: Seq<SymbolV>, p: spec_fn(SymbolV) -> bool, i: int)
    requires
        0 <= i < s.len(),
        first_sat(s.take(i), p) is None,
        p(s[i]),
    ensures
        first_sat(s, p) == Some(s[i]),
    decreases s.len(),
{
    if i == s.len() - 1 {
        assert(s.drop_last() =~= s.take(i));
    } else {
        assert(s.drop_last().take(i) =~= s.take(i));
        lemma_first_sat_prefix(s.drop_last(), p, i);
    }
}

/// Pattern-guessed edges for one file, from its facts and raw source. No
/// destination is invented: emit/on edges stay open for the resolver.
pub fn extra_edges(path_rel: &str, src: &str, facts: &FileFacts) -> (r: Vec<Edge>)
    ensures
        edge_views(r@) == extra_edges_spec(
            path_rel@,
            src@,
            sym_views(facts.symbols@),
            call_views(facts.calls@),
        ),
{
    let mut out: Vec<Edge> = Vec::new();
    callback_args(path_rel, facts, &mut out);
    event_emitter(path_rel, src, facts, &mut out);
    set_state_to_render(path_rel, facts, &mut out);
    assert(edge_views(out@) =~= extra_edges_spec(
        path_rel@,
        src@,
        sym_views(facts.symbols@),
        call_views(facts.calls@),
    ));
    out
}


// ------------------------------------------------------------------ laws ---

/// An edge found by heuristics, marked as such: a weak `dispatches` edge with
/// heuristic provenance.
pub open spec fn marked_heuristic(e: EdgeV) -> bool {
    &&& e.kind == "dispatches"@
    &&& e.conf == "weak"@
    &&& e.provenance == provenance_name(Provenance::Heuristic)
}

pub open spec fn all_marked(es: Seq<EdgeV>) -> bool {
    forall|i: int| 0 <= i < es.len() ==> #[trigger] marked_heuristic(es[i])
}

proof fn lemma_concat_marked(a: Seq<EdgeV>, b: Seq<EdgeV>)
    requires
        all_marked(a),
        all_marked(b),
    ensures
        all_marked(a + b),
{
    assert forall|i: int| 0 <= i < (a + b).len() implies #[trigger] marked_heuristic((a + b)[i]) by {
        if i < a.len() {
            assert((a + b)[i] == a[i]);
        } else {
            assert((a + b)[i] == b[i - a.len()]);
        }
    }
}

proof fn lemma_callback_edges_marked(file: Seq<char>, syms: Seq<SymbolV>, calls: Seq<RawCallV>)
    ensures
        all_marked(callback_edges(file, syms, calls)),
    decreases calls.len(),
{
    if calls.len() > 0 {
        lemma_callback_edges_marked(file, syms, calls.drop_last());
        let tail = match callback_edge(file, syms, calls.last()) {
            Some(e) => seq![e],
            None => Seq::<EdgeV>::empty(),
        };
        assert(all_marked(tail));
        lemma_concat_marked(callback_edges(file, syms, calls.drop_last()), tail);
    }
}

proof fn lemma_emit_edges_marked(
    file: Seq<char>,
    ons: Seq<Seq<char>>,
    emits: Seq<(Seq<char>, nat, Seq<char>)>,
)
    ensures
        all_marked(emit_edges(file, ons, emits)),
    decreases emits.len(),
{
    if emits.len() > 0 {
        lemma_emit_edges_marked(file, ons, emits.drop_last());
        let e = emits.last();
        let tail = if ons.contains(e.0) {
            seq![heuristic_edge(e.2, None, "emit:"@ + e.0, false, "event-emit-on"@, file, e.1)]
        } else {
            Seq::<EdgeV>::empty()
        };
        assert(all_marked(tail));
        lemma_concat_marked(emit_edges(file, ons, emits.drop_last()), tail);
    }
}

proof fn lemma_setter_edges_marked(file: Seq<char>, render_id: Seq<char>, calls: Seq<RawCallV>)
    ensures
        all_marked(setter_edges(file, render_id, calls)),
    decreases calls.len(),
{
    if calls.len() > 0 {
        lemma_setter_edges_marked(file, render_id, calls.drop_last());
        let c = calls.last();
        let tail = if is_setter(c.name) {
            seq![heuristic_edge(c.from_id, Some(render_id), c.name, true, "setState-render"@, file, c.line)]
        } else {
            Seq::<EdgeV>::empty()
        };
        assert(all_marked(tail));
        lemma_concat_marked(setter_edges(file, render_id, calls.drop_last()), tail);
    }
}

/// Heuristic edges are never passed off as syntax: every edge the heuristics
/// add to a file is a weak `dispatches` edge with `heuristic` provenance.
pub proof fn lemma_heuristic_edges_are_marked(
    file: Seq<char>,
    src: Seq<char>,
    syms: Seq<SymbolV>,
    calls: Seq<RawCallV>,
)
    ensures
        forall|i: int| 0 <= i < extra_edges_spec(file, src, syms, calls).len()
            ==> #[trigger] marked_heuristic(extra_edges_spec(file, src, syms, calls)[i]),
{
    lemma_callback_edges_marked(file, syms, calls);
    let sc = event_scan(file, syms, lines(src));
    lemma_emit_edges_marked(file, sc.ons, sc.emits);
    match first_sat(syms, |s: SymbolV| is_render(s)) {
        None => {},
        Some(r) => lemma_setter_edges_marked(file, r.id, calls),
    }
    assert(all_marked(render_edges(file, syms, calls)));
    lemma_concat_marked(callback_edges(file, syms, calls), event_edges(file, src, syms));
    lemma_concat_marked(
        callback_edges(file, syms, calls) + event_edges(file, src, syms),
        render_edges(file, syms, calls),
    );
}

} // verus!
