//! A parsed file as plain values: every node's kind, field name, rows, text,
//! parent and children, in preorder. Extraction reads only this.

use vstd::prelude::*;
use crate::explore::{fitting, utf8_len_exec};
use crate::text::{
    chars_of, find_char, is_ws_exec, lemma_find_char_from_range, slice_of, text_is, trim_exec, trim_ws,
};

verus! {

/// One syntax node.
pub struct SyntaxNode {
    /// Grammar kind, e.g. `function_declaration`.
    pub kind: String,
    /// Named (not punctuation / keyword) node.
    pub named: bool,
    /// The field of its parent this node fills, if any.
    pub field: Option<String>,
    /// 0-based first row.
    pub start_row: usize,
    /// 0-based last row.
    pub end_row: usize,
    /// The node's source text.
    pub text: String,
    /// Index of the parent node.
    pub parent: Option<usize>,
    /// Indices of the children, in source order.
    pub children: Vec<usize>,
}

/// A parsed file; `nodes[0]` is the root.
pub struct SyntaxTree {
    pub nodes: Vec<SyntaxNode>,
}

/// Parents come before their children, and every child index is a node.
pub open spec fn tree_wf(t: Seq<SyntaxNode>) -> bool {
    forall|i: int|
        0 <= i < t.len() ==> {
            &&& (#[trigger] t[i]).start_row < usize::MAX
            &&& t[i].end_row < usize::MAX
            &&& (t[i].parent matches Some(p) ==> p < i)
            &&& forall|k: int| 0 <= k < t[i].children@.len() ==> i < #[trigger] t[i].children@[k] < t.len()
        }
}

impl SyntaxTree {
    pub open spec fn wf(&self) -> bool {
        tree_wf(self.nodes@)
    }
}

// ----------------------------------------------------------- node queries ---

pub open spec fn kind_of(t: Seq<SyntaxNode>, i: int) -> Seq<char> {
    t[i].kind@
}

pub open spec fn text_of(t: Seq<SyntaxNode>, i: int) -> Seq<char> {
    t[i].text@
}

/// 1-based first line of a node.
pub open spec fn line_of(t: Seq<SyntaxNode>, i: int) -> nat {
    (t[i].start_row + 1) as nat
}

pub open spec fn kids(t: Seq<SyntaxNode>, i: int) -> Seq<usize> {
    t[i].children@
}

/// The first child (from the `k`-th on) filling field `f`.
pub open spec fn field_child_from(t: Seq<SyntaxNode>, i: int, f: Seq<char>, k: int) -> Option<int>
    decreases kids(t, i).len() - k,
{
    if k < 0 || k >= kids(t, i).len() {
        None
    } else {
        let c = kids(t, i)[k] as int;
        if c < t.len() && (t[c].field matches Some(g) && g@ == f) {
            Some(c)
        } else {
            field_child_from(t, i, f, k + 1)
        }
    }
}

/// `child_by_field_name`: the first child filling field `f`.
pub open spec fn field_child(t: Seq<SyntaxNode>, i: int, f: Seq<char>) -> Option<int> {
    field_child_from(t, i, f, 0)
}

/// The first named child from the `k`-th child on.
pub open spec fn named_child_from(t: Seq<SyntaxNode>, i: int, k: int) -> Option<int>
    decreases kids(t, i).len() - k,
{
    if k < 0 || k >= kids(t, i).len() {
        None
    } else {
        let c = kids(t, i)[k] as int;
        if c < t.len() && t[c].named {
            Some(c)
        } else {
            named_child_from(t, i, k + 1)
        }
    }
}

/// `named_child(0)`.
pub open spec fn first_named(t: Seq<SyntaxNode>, i: int) -> Option<int> {
    named_child_from(t, i, 0)
}

/// The first named child of kind `kd`, from the `k`-th child on.
pub open spec fn named_of_kind_from(t: Seq<SyntaxNode>, i: int, kd: Seq<char>, k: int) -> Option<int>
    decreases kids(t, i).len() - k,
{
    if k < 0 || k >= kids(t, i).len() {
        None
    } else {
        let c = kids(t, i)[k] as int;
        if c < t.len() && t[c].named && t[c].kind@ == kd {
            Some(c)
        } else {
            named_of_kind_from(t, i, kd, k + 1)
        }
    }
}

/// The node sits directly under an `export_statement`.
pub open spec fn is_exported(t: Seq<SyntaxNode>, i: int) -> bool {
    match t[i].parent {
        Some(p) => (p as int) < t.len() && t[p as int].kind@ == "export_statement"@,
        None => false,
    }
}

/// A quote character `trim_matches` strips from module specifiers.
pub open spec fn is_quote(c: char) -> bool {
    c == '"' || c == '\'' || c == '`'
}

pub open spec fn strip_quotes_start(s: Seq<char>) -> Seq<char>
    decreases s.len(),
{
    if s.len() > 0 && is_quote(s[0]) {
        strip_quotes_start(s.subrange(1, s.len() as int))
    } else {
        s
    }
}

pub open spec fn strip_quotes_end(s: Seq<char>) -> Seq<char>
    decreases s.len(),
{
    if s.len() > 0 && is_quote(s.last()) {
        strip_quotes_end(s.drop_last())
    } else {
        s
    }
}

/// A module specifier with its surrounding quotes removed.
pub open spec fn unquote(s: Seq<char>) -> Seq<char> {
    strip_quotes_end(strip_quotes_start(s))
}

/// First index holding `stop` or a newline.
pub open spec fn sig_end_from(s: Seq<char>, stop: char, i: int) -> int
    decreases s.len() - i,
{
    if i < 0 || i >= s.len() {
        s.len() as int
    } else if s[i] == stop || s[i] == '\n' {
        i
    } else {
        sig_end_from(s, stop, i + 1)
    }
}

/// A symbol's signature: its text up to the first `stop` (`{` for TS/JS,
/// `:` for Python) or line break, trimmed, cut to at most 200 UTF-8 bytes on
/// a character boundary.
pub open spec fn signature_spec(full: Seq<char>, stop: char) -> Seq<char> {
    let s = trim_ws(full.take(sig_end_from(full, stop, 0)));
    s.take(fitting(s, 200, 0, 0))
}

// ------------------------------------------------------------------ exec ---

pub fn kind_is(t: &SyntaxTree, i: usize, lit: &str) -> (r: bool)
    requires
        i < t.nodes@.len(),
    ensures
        r == (t.nodes@[i as int].kind@ == lit@),
{
    text_is(t.nodes[i].kind.as_str(), lit)
}

pub fn field_child_exec(t: &SyntaxTree, i: usize, f: &str) -> (r: Option<usize>)
    requires
        i < t.nodes@.len(),
    ensures
        (r is None) == (field_child(t.nodes@, i as int, f@) is None),
        r matches Some(c) ==> field_child(t.nodes@, i as int, f@) == Some(c as int) && c < t.nodes@.len(),
{
    let ghost ts = t.nodes@;
    let n = t.nodes[i].children.len();
    let mut k: usize = 0;
    while k < n
        invariant
            ts == t.nodes@,
            i < ts.len(),
            n == kids(ts, i as int).len(),
            k <= n,
            field_child(ts, i as int, f@) == field_child_from(ts, i as int, f@, k as int),
        decreases n - k,
    {
        let c = t.nodes[i].children[k];
        if c < t.nodes.len() {
            match &t.nodes[c].field {
                Some(g) => {
                    if text_is(g.as_str(), f) {
                        return Some(c);
                    }
                },
                None => {},
            }
        }
        k += 1;
    }
    None
}

pub fn first_named_exec(t: &SyntaxTree, i: usize) -> (r: Option<usize>)
    requires
        i < t.nodes@.len(),
    ensures
        (r is None) == (first_named(t.nodes@, i as int) is None),
        r matches Some(c) ==> first_named(t.nodes@, i as int) == Some(c as int) && c < t.nodes@.len(),
{
    let ghost ts = t.nodes@;
    let n = t.nodes[i].children.len();
    let mut k: usize = 0;
    while k < n
        invariant
            ts == t.nodes@,
            i < ts.len(),
            n == kids(ts, i as int).len(),
            k <= n,
            first_named(ts, i as int) == named_child_from(ts, i as int, k as int),
        decreases n - k,
    {
        let c = t.nodes[i].children[k];
        if c < t.nodes.len() && t.nodes[c].named {
            return Some(c);
        }
        k += 1;
    }
    None
}

pub fn named_of_kind_exec(t: &SyntaxTree, i: usize, kd: &str) -> (r: Option<usize>)
    requires
        i < t.nodes@.len(),
    ensures
        (r is None) == (named_of_kind_from(t.nodes@, i as int, kd@, 0) is None),
        r matches Some(c) ==> named_of_kind_from(t.nodes@, i as int, kd@, 0) == Some(c as int) && c < t.nodes@.len(),
{
    let ghost ts = t.nodes@;
    let n = t.nodes[i].children.len();
    let mut k: usize = 0;
    while k < n
        invariant
            ts == t.nodes@,
            i < ts.len(),
            n == kids(ts, i as int).len(),
            k <= n,
            named_of_kind_from(ts, i as int, kd@, 0) == named_of_kind_from(ts, i as int, kd@, k as int),
        decreases n - k,
    {
        let c = t.nodes[i].children[k];
        if c < t.nodes.len() && t.nodes[c].named && kind_is(t, c, kd) {
            return Some(c);
        }
        k += 1;
    }
    None
}

pub fn is_exported_exec(t: &SyntaxTree, i: usize) -> (r: bool)
    requires
        i < t.nodes@.len(),
    ensures
        r == is_exported(t.nodes@, i as int),
{
    match t.nodes[i].parent {
        Some(p) => p < t.nodes.len() && kind_is(t, p, "export_statement"),
        None => false,
    }
}

fn is_quote_exec(c: char) -> (r: bool)
    ensures
        r == is_quote(c),
{
    c == '"' || c == '\'' || c == '`'
}

/// `trim_matches(['"', '\'', '`'])`.
pub fn unquote_exec(s: &str) -> (r: String)
    ensures
        r@ == unquote(s@),
{
    let v = chars_of(s);
    let mut lo: usize = 0;
    assert(v@.subrange(0, v@.len() as int) =~= v@);
    while lo < v.len() && is_quote_exec(v[lo])
        invariant
            lo <= v@.len(),
            v@ == s@,
            strip_quotes_start(v@) == strip_quotes_start(v@.subrange(lo as int, v@.len() as int)),
        decreases v.len() - lo,
    {
        assert(v@.subrange(lo as int, v@.len() as int).subrange(1, v@.len() - lo) =~= v@.subrange(
            lo + 1,
            v@.len() as int,
        ));
        lo += 1;
    }
    let mut hi: usize = v.len();
    let ghost mid = v@.subrange(lo as int, v@.len() as int);
    assert(strip_quotes_start(v@) == mid);
    while hi > lo && is_quote_exec(v[hi - 1])
        invariant
            lo <= hi <= v@.len(),
            mid == v@.subrange(lo as int, v@.len() as int),
            strip_quotes_end(mid) == strip_quotes_end(v@.subrange(lo as int, hi as int)),
        decreases hi,
    {
        assert(v@.subrange(lo as int, hi as int).drop_last() =~= v@.subrange(lo as int, hi - 1));
        hi -= 1;
    }
    let r = slice_of(v.as_slice(), lo, hi);
    crate::text::string_of(r.as_slice())
}

/// The signature of a definition from its source text.
pub fn signature_exec(full: &str, stop: char) -> (r: String)
    ensures
        r@ == signature_spec(full@, stop),
{
    let v = chars_of(full);
    let mut e: usize = 0;
    while e < v.len() && v[e] != stop && v[e] != '\n'
        invariant
            e <= v@.len(),
            v@ == full@,
            sig_end_from(v@, stop, 0) == sig_end_from(v@, stop, e as int),
        decreases v.len() - e,
    {
        e += 1;
    }
    let head = slice_of(v.as_slice(), 0, e);
    assert(head@ =~= v@.take(e as int));
    let s = trim_exec(head.as_slice());
    let mut k: usize = 0;
    let mut used: u128 = 0;
    while k < s.len() && used + utf8_len_exec(s[k]) <= 200
        invariant
            k <= s@.len(),
            used <= 200,
            fitting(s@, 200, 0, 0) == fitting(s@, 200, k as int, used as nat),
        decreases s.len() - k,
    {
        used = used + utf8_len_exec(s[k]);
        k += 1;
    }
    let cut = slice_of(s.as_slice(), 0, k);
    assert(cut@ =~= s@.take(k as int));
    crate::text::string_of(cut.as_slice())
}

} // verus!
