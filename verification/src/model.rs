//! Core value types shared across extract → resolve → store → query, each with
//! a view over plain sequences so contracts can speak of its contents.

use vstd::prelude::*;
use crate::text::{
    ascii_lower, ascii_lower_exec, chars_of, decimal, ends_with, has_suffix, push_all, push_decimal,
    string_of,
};

verus! {

/// A named symbol (function / class / method / arrow-const).
#[derive(Debug, Clone)]
pub struct Symbol {
    /// Stable within a file version: `{file}#{name}@{start_line}`.
    pub id: String,
    /// function | class | method
    pub kind: String,
    pub name: String,
    /// `Class.method`, else the name.
    pub qualified_name: String,
    pub file_path: String,
    pub start_line: usize,
    pub end_line: usize,
    pub exported: bool,
    pub signature: String,
}

pub ghost struct SymbolV {
    pub id: Seq<char>,
    pub kind: Seq<char>,
    pub name: Seq<char>,
    pub qualified_name: Seq<char>,
    pub file_path: Seq<char>,
    pub start_line: nat,
    pub end_line: nat,
    pub exported: bool,
    pub signature: Seq<char>,
}

impl View for Symbol {
    type V = SymbolV;

    open spec fn view(&self) -> SymbolV {
        SymbolV {
            id: self.id@,
            kind: self.kind@,
            name: self.name@,
            qualified_name: self.qualified_name@,
            file_path: self.file_path@,
            start_line: self.start_line as nat,
            end_line: self.end_line as nat,
            exported: self.exported,
            signature: self.signature@,
        }
    }
}

/// `{file}#{name}@{line}`.
pub open spec fn symbol_id(file: Seq<char>, name: Seq<char>, line: nat) -> Seq<char> {
    file + seq!['#'] + name + seq!['@'] + decimal(line)
}

/// `{file}#<module>`.
pub open spec fn module_symbol_id(file: Seq<char>) -> Seq<char> {
    file + seq!['#', '<', 'm', 'o', 'd', 'u', 'l', 'e', '>']
}

impl Symbol {
    pub fn make_id(file: &str, name: &str, start_line: usize) -> (r: String)
        ensures
            r@ == symbol_id(file@, name@, start_line as nat),
    {
        let mut v = chars_of(file);
        v.push('#');
        let n = chars_of(name);
        push_all(&mut v, &n);
        v.push('@');
        push_decimal(&mut v, start_line as u64);
        let r = string_of(&v);
        assert(r@ =~= symbol_id(file@, name@, start_line as nat));
        r
    }

    /// Pseudo-node for module-scope call sites (no enclosing symbol).
    pub fn module_id(file: &str) -> (r: String)
        ensures
            r@ == module_symbol_id(file@),
    {
        let mut v = chars_of(file);
        v.push('#');
        v.push('<');
        v.push('m');
        v.push('o');
        v.push('d');
        v.push('u');
        v.push('l');
        v.push('e');
        v.push('>');
        let r = string_of(&v);
        assert(r@ =~= module_symbol_id(file@));
        r
    }

    /// A field-for-field copy.
    pub fn duplicate(&self) -> (r: Symbol)
        ensures
            r@ == self@,
    {
        Symbol {
            id: self.id.clone(),
            kind: self.kind.clone(),
            name: self.name.clone(),
            qualified_name: self.qualified_name.clone(),
            file_path: self.file_path.clone(),
            start_line: self.start_line,
            end_line: self.end_line,
            exported: self.exported,
            signature: self.signature.clone(),
        }
    }
}

/// A node as query/changes read it from the graph store.
#[derive(Debug, Clone)]
pub struct NodeRow {
    pub id: String,
    pub kind: String,
    pub name: String,
    pub qualified_name: String,
    pub file_path: String,
    pub start_line: i64,
    pub end_line: i64,
    pub exported: bool,
    pub signature: String,
}

pub ghost struct NodeRowV {
    pub id: Seq<char>,
    pub kind: Seq<char>,
    pub name: Seq<char>,
    pub qualified_name: Seq<char>,
    pub file_path: Seq<char>,
    pub start_line: int,
    pub end_line: int,
    pub exported: bool,
    pub signature: Seq<char>,
}

impl View for NodeRow {
    type V = NodeRowV;

    open spec fn view(&self) -> NodeRowV {
        NodeRowV {
            id: self.id@,
            kind: self.kind@,
            name: self.name@,
            qualified_name: self.qualified_name@,
            file_path: self.file_path@,
            start_line: self.start_line as int,
            end_line: self.end_line as int,
            exported: self.exported,
            signature: self.signature@,
        }
    }
}

impl NodeRow {
    /// A field-for-field copy.
    pub fn duplicate(&self) -> (r: NodeRow)
        ensures
            r@ == self@,
    {
        NodeRow {
            id: self.id.clone(),
            kind: self.kind.clone(),
            name: self.name.clone(),
            qualified_name: self.qualified_name.clone(),
            file_path: self.file_path.clone(),
            start_line: self.start_line,
            end_line: self.end_line,
            exported: self.exported,
            signature: self.signature.clone(),
        }
    }
}

/// An unresolved call site, captured at extract time.
#[derive(Debug, Clone)]
pub struct RawCall {
    /// Enclosing symbol id, or the module pseudo-id.
    pub from_id: String,
    /// Callee identifier or member property.
    pub name: String,
    /// True for `recv.name(...)`.
    pub member: bool,
    pub line: usize,
    pub file_path: String,
}

pub ghost struct RawCallV {
    pub from_id: Seq<char>,
    pub name: Seq<char>,
    pub member: bool,
    pub line: nat,
    pub file_path: Seq<char>,
}

impl View for RawCall {
    type V = RawCallV;

    open spec fn view(&self) -> RawCallV {
        RawCallV {
            from_id: self.from_id@,
            name: self.name@,
            member: self.member,
            line: self.line as nat,
            file_path: self.file_path@,
        }
    }
}

/// One import binding row — the substrate for `import-binding` resolution.
#[derive(Debug, Clone)]
pub struct ImportBinding {
    pub file_path: String,
    /// Name in scope.
    pub local_name: String,
    /// Raw specifier, e.g. "./foo" or "react".
    pub source_module: String,
    /// "default" | "*" | original export name.
    pub imported_name: String,
    /// named | default | namespace | named-reexport | star-reexport | ...
    pub kind: String,
}

pub ghost struct ImportBindingV {
    pub file_path: Seq<char>,
    pub local_name: Seq<char>,
    pub source_module: Seq<char>,
    pub imported_name: Seq<char>,
    pub kind: Seq<char>,
}

impl View for ImportBinding {
    type V = ImportBindingV;

    open spec fn view(&self) -> ImportBindingV {
        ImportBindingV {
            file_path: self.file_path@,
            local_name: self.local_name@,
            source_module: self.source_module@,
            imported_name: self.imported_name@,
            kind: self.kind@,
        }
    }
}

/// A resolved (or deliberately unresolved) graph edge. `reason` + `conf`
/// say how the destination was found; they are never upgraded.
#[derive(Debug, Clone)]
pub struct Edge {
    pub src_id: String,
    pub dst_id: Option<String>,
    /// calls | imports | contains | extends | implements | dispatches | ...
    pub kind: String,
    pub raw_name: String,
    pub resolved: bool,
    /// strong | weak
    pub conf: String,
    /// same-file | import-binding | unique-global | receiver-unknown | ...
    pub reason: String,
    /// ast | heuristic
    pub provenance: String,
    pub file_path: String,
    pub line: usize,
}

pub ghost struct EdgeV {
    pub src_id: Seq<char>,
    pub dst_id: Option<Seq<char>>,
    pub kind: Seq<char>,
    pub raw_name: Seq<char>,
    pub resolved: bool,
    pub conf: Seq<char>,
    pub reason: Seq<char>,
    pub provenance: Seq<char>,
    pub file_path: Seq<char>,
    pub line: nat,
}

pub open spec fn opt_view(o: Option<String>) -> Option<Seq<char>> {
    match o {
        Some(s) => Some(s@),
        None => None,
    }
}

impl View for Edge {
    type V = EdgeV;

    open spec fn view(&self) -> EdgeV {
        EdgeV {
            src_id: self.src_id@,
            dst_id: opt_view(self.dst_id),
            kind: self.kind@,
            raw_name: self.raw_name@,
            resolved: self.resolved,
            conf: self.conf@,
            reason: self.reason@,
            provenance: self.provenance@,
            file_path: self.file_path@,
            line: self.line as nat,
        }
    }
}

pub fn copy_opt(o: &Option<String>) -> (r: Option<String>)
    ensures
        opt_view(r) == opt_view(*o),
{
    match o {
        Some(s) => Some(s.clone()),
        None => None,
    }
}

impl Edge {
    /// A field-for-field copy.
    pub fn duplicate(&self) -> (r: Edge)
        ensures
            r@ == self@,
    {
        Edge {
            src_id: self.src_id.clone(),
            dst_id: copy_opt(&self.dst_id),
            kind: self.kind.clone(),
            raw_name: self.raw_name.clone(),
            resolved: self.resolved,
            conf: self.conf.clone(),
            reason: self.reason.clone(),
            provenance: self.provenance.clone(),
            file_path: self.file_path.clone(),
            line: self.line,
        }
    }
}

/// A framework route materialized at index time.
#[derive(Debug, Clone)]
pub struct RouteFact {
    /// GET | POST | ... | ANY
    pub method: String,
    /// "/users/:id"
    pub path: String,
    /// Node id of the handler symbol.
    pub handler_id: String,
    pub file_path: String,
    pub line: usize,
}

pub ghost struct RouteFactV {
    pub method: Seq<char>,
    pub path: Seq<char>,
    pub handler_id: Seq<char>,
    pub file_path: Seq<char>,
    pub line: nat,
}

impl View for RouteFact {
    type V = RouteFactV;

    open spec fn view(&self) -> RouteFactV {
        RouteFactV {
            method: self.method@,
            path: self.path@,
            handler_id: self.handler_id@,
            file_path: self.file_path@,
            line: self.line as nat,
        }
    }
}

/// What one file yields when extracted.
#[derive(Debug)]
pub struct FileFacts {
    pub symbols: Vec<Symbol>,
    pub calls: Vec<RawCall>,
    pub imports: Vec<ImportBinding>,
    pub heritage: Vec<Edge>,
    pub extra: Vec<Edge>,
    pub routes: Vec<RouteFact>,
}

impl Default for FileFacts {
    fn default() -> (r: FileFacts)
        ensures
            r.symbols@.len() == 0,
            r.calls@.len() == 0,
            r.imports@.len() == 0,
            r.heritage@.len() == 0,
            r.extra@.len() == 0,
            r.routes@.len() == 0,
    {
        FileFacts {
            symbols: Vec::new(),
            calls: Vec::new(),
            imports: Vec::new(),
            heritage: Vec::new(),
            extra: Vec::new(),
            routes: Vec::new(),
        }
    }
}

/// Source language of a tracked file.
#[derive(Debug, Clone, Copy, PartialEq, Eq, Structural)]
pub enum Lang {
    Ts,
    Tsx,
    Js,
    Py,
}

pub open spec fn lang_name(l: Lang) -> Seq<char> {
    match l {
        Lang::Ts => seq!['t', 's'],
        Lang::Tsx => seq!['t', 's', 'x'],
        Lang::Js => seq!['j', 's'],
        Lang::Py => seq!['p', 'y'],
    }
}

/// Language by (case-insensitive) extension.
pub open spec fn lang_of_path(path: Seq<char>) -> Option<Lang> {
    let p = ascii_lower(path);
    if has_suffix(p, seq!['.', 't', 's']) || has_suffix(p, seq!['.', 'm', 't', 's'])
        || has_suffix(p, seq!['.', 'c', 't', 's']) {
        Some(Lang::Ts)
    } else if has_suffix(p, seq!['.', 't', 's', 'x']) {
        Some(Lang::Tsx)
    } else if has_suffix(p, seq!['.', 'j', 's']) || has_suffix(p, seq!['.', 'j', 's', 'x'])
        || has_suffix(p, seq!['.', 'm', 'j', 's']) || has_suffix(p, seq!['.', 'c', 'j', 's']) {
        Some(Lang::Js)
    } else if has_suffix(p, seq!['.', 'p', 'y']) {
        Some(Lang::Py)
    } else {
        None
    }
}

impl Lang {
    pub fn as_str(self) -> (r: String)
        ensures
            r@ == lang_name(self),
    {
        let mut v: Vec<char> = Vec::new();
        match self {
            Lang::Ts => {
                v.push('t');
                v.push('s');
            },
            Lang::Tsx => {
                v.push('t');
                v.push('s');
                v.push('x');
            },
            Lang::Js => {
                v.push('j');
                v.push('s');
            },
            Lang::Py => {
                v.push('p');
                v.push('y');
            },
        }
        let r = string_of(&v);
        assert(r@ =~= lang_name(self));
        r
    }

    pub fn from_path(path: &str) -> (r: Option<Lang>)
        ensures
            r == lang_of_path(path@),
    {
        let raw = chars_of(path);
        let p = ascii_lower_exec(&raw);
        let ts = vec!['.', 't', 's'];
        let mts = vec!['.', 'm', 't', 's'];
        let cts = vec!['.', 'c', 't', 's'];
        let tsx = vec!['.', 't', 's', 'x'];
        let js = vec!['.', 'j', 's'];
        let jsx = vec!['.', 'j', 's', 'x'];
        let mjs = vec!['.', 'm', 'j', 's'];
        let cjs = vec!['.', 'c', 'j', 's'];
        let py = vec!['.', 'p', 'y'];
        assert(ts@ =~= seq!['.', 't', 's']);
        assert(mts@ =~= seq!['.', 'm', 't', 's']);
        assert(cts@ =~= seq!['.', 'c', 't', 's']);
        assert(tsx@ =~= seq!['.', 't', 's', 'x']);
        assert(js@ =~= seq!['.', 'j', 's']);
        assert(jsx@ =~= seq!['.', 'j', 's', 'x']);
        assert(mjs@ =~= seq!['.', 'm', 'j', 's']);
        assert(cjs@ =~= seq!['.', 'c', 'j', 's']);
        assert(py@ =~= seq!['.', 'p', 'y']);
        if ends_with(&p, &ts) || ends_with(&p, &mts) || ends_with(&p, &cts) {
            Some(Lang::Ts)
        } else if ends_with(&p, &tsx) {
            Some(Lang::Tsx)
        } else if ends_with(&p, &js) || ends_with(&p, &jsx) || ends_with(&p, &mjs) || ends_with(
            &p,
            &cjs,
        ) {
            Some(Lang::Js)
        } else if ends_with(&p, &py) {
            Some(Lang::Py)
        } else {
            None
        }
    }
}

/// Edge/label provenance. `ast` = parser fact; `heuristic` = pattern guess.
#[derive(Debug, Clone, Copy, PartialEq, Eq, Structural)]
pub enum Provenance {
    Ast,
    Heuristic,
}

pub open spec fn provenance_name(p: Provenance) -> Seq<char> {
    match p {
        Provenance::Ast => seq!['a', 's', 't'],
        Provenance::Heuristic => seq!['h', 'e', 'u', 'r', 'i', 's', 't', 'i', 'c'],
    }
}

impl Provenance {
    pub fn as_str(self) -> (r: String)
        ensures
            r@ == provenance_name(self),
    {
        let v = match self {
            Provenance::Ast => vec!['a', 's', 't'],
            Provenance::Heuristic => vec!['h', 'e', 'u', 'r', 'i', 's', 't', 'i', 'c'],
        };
        let r = string_of(&v);
        assert(r@ =~= provenance_name(self));
        r
    }
}

/// A precomputed call chain entrypoint→leaf.
#[derive(Debug, Clone)]
pub struct ProcessFact {
    pub name: String,
    /// Ordered node ids.
    pub steps: Vec<String>,
}

/// A graph community.
#[derive(Debug, Clone)]
pub struct Community {
    pub id: String,
    pub label: String,
    /// Node ids.
    pub members: Vec<String>,
}


/// A file named `f.` plus a language's extension is read as that language.
pub proof fn lemma_extension_round_trip(l: Lang)
    ensures
        lang_of_path(seq!['f', '.'] + lang_name(l)) == Some(l),
{
    let path = seq!['f', '.'] + lang_name(l);
    let p = crate::text::ascii_lower(path);
    assert forall|k: int| 0 <= k < path.len() implies #[trigger] p[k] == path[k] by {
        assert(crate::text::ascii_lower_char(path[k]) == path[k]);
    }
    assert(p =~= path);
    match l {
        Lang::Ts => {
            assert(p.subrange(p.len() - 3, p.len() as int) =~= seq!['.', 't', 's']);
        },
        Lang::Tsx => {
            assert(p.subrange(p.len() - 4, p.len() as int) =~= seq!['.', 't', 's', 'x']);
            assert(p.subrange(p.len() - 3, p.len() as int) != seq!['.', 't', 's']) by {
                assert(p.subrange(p.len() - 3, p.len() as int)[0] == 't');
            }
            assert(p.subrange(p.len() - 4, p.len() as int) != seq!['.', 'm', 't', 's']) by {
                assert(p.subrange(p.len() - 4, p.len() as int)[3] == 'x');
            }
            assert(p.subrange(p.len() - 4, p.len() as int) != seq!['.', 'c', 't', 's']) by {
                assert(p.subrange(p.len() - 4, p.len() as int)[3] == 'x');
            }
        },
        Lang::Js => {
            assert(p.subrange(p.len() - 3, p.len() as int) =~= seq!['.', 'j', 's']);
            assert(p.subrange(p.len() - 3, p.len() as int) != seq!['.', 't', 's']) by {
                assert(p.subrange(p.len() - 3, p.len() as int)[1] == 'j');
            }
            assert(p.subrange(p.len() - 4, p.len() as int) != seq!['.', 'm', 't', 's']) by {
                assert(p.subrange(p.len() - 4, p.len() as int)[3] == 's');
                assert(p.subrange(p.len() - 4, p.len() as int)[2] == 'j');
            }
            assert(p.subrange(p.len() - 4, p.len() as int) != seq!['.', 'c', 't', 's']) by {
                assert(p.subrange(p.len() - 4, p.len() as int)[2] == 'j');
            }
            assert(p.subrange(p.len() - 4, p.len() as int) != seq!['.', 't', 's', 'x']) by {
                assert(p.subrange(p.len() - 4, p.len() as int)[3] == 's');
            }
        },
        Lang::Py => {
            assert(p.subrange(p.len() - 3, p.len() as int) =~= seq!['.', 'p', 'y']);
            assert(p.subrange(p.len() - 3, p.len() as int) != seq!['.', 't', 's']) by {
                assert(p.subrange(p.len() - 3, p.len() as int)[1] == 'p');
            }
            assert(p.subrange(p.len() - 3, p.len() as int) != seq!['.', 'j', 's']) by {
                assert(p.subrange(p.len() - 3, p.len() as int)[1] == 'p');
            }
            assert(p.subrange(p.len() - 4, p.len() as int) != seq!['.', 'm', 't', 's']) by {
                assert(p.subrange(p.len() - 4, p.len() as int)[3] == 'y');
            }
            assert(p.subrange(p.len() - 4, p.len() as int) != seq!['.', 'c', 't', 's']) by {
                assert(p.subrange(p.len() - 4, p.len() as int)[3] == 'y');
            }
            assert(p.subrange(p.len() - 4, p.len() as int) != seq!['.', 't', 's', 'x']) by {
                assert(p.subrange(p.len() - 4, p.len() as int)[3] == 'y');
            }
            assert(p.subrange(p.len() - 4, p.len() as int) != seq!['.', 'j', 's', 'x']) by {
                assert(p.subrange(p.len() - 4, p.len() as int)[3] == 'y');
            }
            assert(p.subrange(p.len() - 4, p.len() as int) != seq!['.', 'm', 'j', 's']) by {
                assert(p.subrange(p.len() - 4, p.len() as int)[3] == 'y');
            }
            assert(p.subrange(p.len() - 4, p.len() as int) != seq!['.', 'c', 'j', 's']) by {
                assert(p.subrange(p.len() - 4, p.len() as int)[3] == 'y');
            }
        },
    }
}

} // verus!
