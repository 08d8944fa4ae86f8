//! Parsing with tree-sitter and copying the tree into a [`SyntaxTree`].
//! Grammar work is tree-sitter's: what a parse gives for a text is named
//! (`parsed`), read node by node in tree-sitter's descendant order, and kept
//! as plain values whose shape is stated against that name.

use vstd::prelude::*;
use crate::extract::syntax::{tree_wf, SyntaxNode, SyntaxTree};
use crate::text::str_views;
use crate::model::Lang;

verus! {

#[verifier::external_type_specification]
#[verifier::external_body]
pub struct ExTree(tree_sitter::Tree);

#[verifier::external_type_specification]
#[verifier::external_body]
pub struct ExLanguage(tree_sitter::Language);

/// The `tree_sitter_typescript::LANGUAGE_TYPESCRIPT` grammar.
#[verifier::external_body]
fn typescript_grammar() -> (r: tree_sitter::Language) {
    tree_sitter_typescript::LANGUAGE_TYPESCRIPT.into()
}

/// The `tree_sitter_typescript::LANGUAGE_TSX` grammar.
#[verifier::external_body]
fn tsx_grammar() -> (r: tree_sitter::Language) {
    tree_sitter_typescript::LANGUAGE_TSX.into()
}

/// The `tree_sitter_javascript::LANGUAGE` grammar.
#[verifier::external_body]
fn javascript_grammar() -> (r: tree_sitter::Language) {
    tree_sitter_javascript::LANGUAGE.into()
}

/// The `tree_sitter_python::LANGUAGE` grammar.
#[verifier::external_body]
pub(crate) fn python_grammar() -> (r: tree_sitter::Language) {
    tree_sitter_python::LANGUAGE.into()
}

/// The grammar of a language (Python is read by its own walk too). Nothing
/// is stated of the result: a tree-sitter `Language` is opaque here, and no
/// plain value of it can be named.
pub fn grammar(lang: Lang) -> tree_sitter::Language {
    match lang {
        Lang::Ts => typescript_grammar(),
        Lang::Tsx => tsx_grammar(),
        Lang::Js => javascript_grammar(),
        Lang::Py => python_grammar(),
    }
}

/// One node of a parse as tree-sitter reports it: its kind, whether it is
/// named, the field of its parent it fills, its first and last rows, its
/// text, and the descendant index of its parent (none for the root).
pub ghost struct ParsedNode {
    pub kind: Seq<char>,
    pub named: bool,
    pub field: Option<Seq<char>>,
    pub start_row: usize,
    pub end_row: usize,
    pub text: Seq<char>,
    pub parent: Option<usize>,
}

/// One node read from a tree.
pub struct NodeData {
    pub kind: String,
    pub named: bool,
    pub field: Option<String>,
    pub start_row: usize,
    pub end_row: usize,
    pub text: String,
    pub parent: Option<usize>,
}

impl View for NodeData {
    type V = ParsedNode;

    open spec fn view(&self) -> ParsedNode {
        ParsedNode {
            kind: self.kind@,
            named: self.named,
            field: match self.field {
                Some(f) => Some(f@),
                None => None,
            },
            start_row: self.start_row,
            end_row: self.end_row,
            text: self.text@,
            parent: self.parent,
        }
    }
}

// The nodes a tree holds, in tree-sitter's descendant order (index 0 is
// the root).
pub uninterp spec fn tree_nodes(t: tree_sitter::Tree) -> Seq<ParsedNode>;

// The text a tree was parsed from.
pub uninterp spec fn tree_text(t: tree_sitter::Tree) -> Seq<char>;

// What tree-sitter's `Parser::parse` gives for a text in the grammar of a
// language: the nodes of the tree, or none when no tree comes back.
pub uninterp spec fn parsed(lang: Lang, src: Seq<char>) -> Option<Seq<ParsedNode>>;

/// Calls `Parser::new`, `Parser::set_language` with the
/// `tree_sitter_typescript::LANGUAGE_TYPESCRIPT` grammar and `Parser::parse`
/// (no timeout, no cancellation): the tree is the named parse of `src`, made
/// from `src`; none when the grammar is refused or no tree comes back.
#[verifier::external_body]
fn parse_typescript(src: &str) -> (r: Option<tree_sitter::Tree>)
    ensures
        match r {
            Some(t) => parsed(Lang::Ts, src@) == Some(tree_nodes(t)) && tree_text(t) == src@,
            None => parsed(Lang::Ts, src@) is None,
        },
{
    let mut parser = tree_sitter::Parser::new();
    if parser.set_language(&tree_sitter_typescript::LANGUAGE_TYPESCRIPT.into()).is_err() {
        return None;
    }
    parser.parse(src, None)
}

/// As [`parse_typescript`], with the `tree_sitter_typescript::LANGUAGE_TSX`
/// grammar.
#[verifier::external_body]
fn parse_tsx(src: &str) -> (r: Option<tree_sitter::Tree>)
    ensures
        match r {
            Some(t) => parsed(Lang::Tsx, src@) == Some(tree_nodes(t)) && tree_text(t) == src@,
            None => parsed(Lang::Tsx, src@) is None,
        },
{
    let mut parser = tree_sitter::Parser::new();
    if parser.set_language(&tree_sitter_typescript::LANGUAGE_TSX.into()).is_err() {
        return None;
    }
    parser.parse(src, None)
}

/// As [`parse_typescript`], with the `tree_sitter_javascript::LANGUAGE`
/// grammar.
#[verifier::external_body]
fn parse_javascript(src: &str) -> (r: Option<tree_sitter::Tree>)
    ensures
        match r {
            Some(t) => parsed(Lang::Js, src@) == Some(tree_nodes(t)) && tree_text(t) == src@,
            None => parsed(Lang::Js, src@) is None,
        },
{
    let mut parser = tree_sitter::Parser::new();
    if parser.set_language(&tree_sitter_javascript::LANGUAGE.into()).is_err() {
        return None;
    }
    parser.parse(src, None)
}

/// As [`parse_typescript`], with the `tree_sitter_python::LANGUAGE` grammar.
#[verifier::external_body]
fn parse_python(src: &str) -> (r: Option<tree_sitter::Tree>)
    ensures
        match r {
            Some(t) => parsed(Lang::Py, src@) == Some(tree_nodes(t)) && tree_text(t) == src@,
            None => parsed(Lang::Py, src@) is None,
        },
{
    let mut parser = tree_sitter::Parser::new();
    if parser.set_language(&tree_sitter_python::LANGUAGE.into()).is_err() {
        return None;
    }
    parser.parse(src, None)
}

/// Calls `Tree::root_node` and `Node::descendant_count`: how many nodes the
/// tree holds (the root counts itself).
#[verifier::external_body]
fn node_count(t: &tree_sitter::Tree) -> (r: usize)
    ensures
        r == tree_nodes(*t).len(),
{
    t.root_node().descendant_count()
}

/// Calls `Tree::walk` and `TreeCursor::goto_descendant` to reach node `i`,
/// then reads its `Node::kind`, `Node::is_named`, `TreeCursor::field_name`,
/// the rows of `Node::start_position` and `Node::end_position`, its
/// `Node::utf8_text` in the text the tree was parsed from (empty when not
/// UTF-8), and, after `TreeCursor::goto_parent`, the parent's
/// `TreeCursor::descendant_index`: node `i` of the tree.
#[verifier::external_body]
fn node_at(t: &tree_sitter::Tree, src: &str, i: usize) -> (r: NodeData)
    requires
        i < tree_nodes(*t).len(),
        src@ == tree_text(*t),
    ensures
        r@ == tree_nodes(*t)[i as int],
{
    let mut c = t.walk();
    c.goto_descendant(i);
    let n = c.node();
    let field = c.field_name().map(|f| f.to_string());
    let text = n.utf8_text(src.as_bytes()).unwrap_or("").to_string();
    let parent = if c.goto_parent() { Some(c.descendant_index()) } else { None };
    NodeData {
        kind: n.kind().to_string(),
        named: n.is_named(),
        field,
        start_row: n.start_position().row,
        end_row: n.end_position().row,
        text,
        parent,
    }
}

// ------------------------------------------------------- the plain tree ---

/// A syntax node as plain values.
pub ghost struct SyntaxNodeV {
    pub kind: Seq<char>,
    pub named: bool,
    pub field: Option<Seq<char>>,
    pub start_row: usize,
    pub end_row: usize,
    pub text: Seq<char>,
    pub parent: Option<usize>,
    pub children: Seq<usize>,
}

pub open spec fn syntax_view(n: SyntaxNode) -> SyntaxNodeV {
    SyntaxNodeV {
        kind: n.kind@,
        named: n.named,
        field: match n.field {
            Some(f) => Some(f@),
            None => None,
        },
        start_row: n.start_row,
        end_row: n.end_row,
        text: n.text@,
        parent: n.parent,
        children: n.children@,
    }
}

pub open spec fn syntax_views(t: Seq<SyntaxNode>) -> Seq<SyntaxNodeV> {
    t.map_values(|n: SyntaxNode| syntax_view(n))
}

/// A row as kept: below `usize::MAX`.
pub open spec fn clamp_row(r: usize) -> usize {
    if r < usize::MAX {
        r
    } else {
        (usize::MAX - 1) as usize
    }
}

/// The parent of node `j`, kept only when it comes before `j`.
pub open spec fn parent_in(p: Seq<ParsedNode>, j: int) -> Option<usize> {
    match p[j].parent {
        Some(q) => if q < j {
            Some(q)
        } else {
            None
        },
        None => None,
    }
}

/// The nodes below index `m` whose parent is `j`, in order.
pub open spec fn kids_upto(p: Seq<ParsedNode>, j: int, m: int) -> Seq<usize>
    decreases m,
{
    if m <= 0 {
        Seq::empty()
    } else {
        kids_upto(p, j, m - 1) + if parent_in(p, m - 1) == Some(j as usize) {
            seq![(m - 1) as usize]
        } else {
            Seq::<usize>::empty()
        }
    }
}

/// One parsed node with its parent and children as kept.
pub open spec fn shaped(q: ParsedNode, parent: Option<usize>, children: Seq<usize>) -> SyntaxNodeV {
    SyntaxNodeV {
        kind: q.kind,
        named: q.named,
        field: q.field,
        start_row: clamp_row(q.start_row),
        end_row: clamp_row(q.end_row),
        text: q.text,
        parent: parent,
        children: children,
    }
}

/// The plain tree of a parse: node for node in descendant order, each with
/// its data, its parent, and as children every later node naming it as
/// parent, in order.
pub open spec fn shape(p: Seq<ParsedNode>) -> Seq<SyntaxNodeV> {
    Seq::new(p.len(), |j: int| shaped(p[j], parent_in(p, j), kids_upto(p, j, p.len() as int)))
}

/// The plain tree of `src` in the grammar of `lang`: the shape of its parse,
/// or no nodes when there is none.
pub open spec fn parse_shape(lang: Lang, src: Seq<char>) -> Seq<SyntaxNodeV> {
    match parsed(lang, src) {
        Some(p) => shape(p),
        None => Seq::empty(),
    }
}

proof fn lemma_kids_bounds(p: Seq<ParsedNode>, j: int, m: int)
    requires
        0 <= j < p.len(),
        m <= p.len(),
        p.len() <= usize::MAX,
    ensures
        forall|x: int| 0 <= x < kids_upto(p, j, m).len() ==> j < #[trigger] kids_upto(p, j, m)[x] < m,
    decreases m,
{
    if m > 0 {
        lemma_kids_bounds(p, j, m - 1);
        let a = kids_upto(p, j, m - 1);
        if parent_in(p, m - 1) == Some(j as usize) {
            let q = p[m - 1].parent->Some_0;
            assert(q < m - 1);
            assert(q as int == j);
        }
        assert forall|x: int| 0 <= x < kids_upto(p, j, m).len() implies j < #[trigger] kids_upto(p, j, m)[x] < m by {
            if x < a.len() {
                assert(kids_upto(p, j, m)[x] == a[x]);
            }
        }
    }
}

/// Read every node of a tree, then link each to its parent.
fn copy_tree(t: &tree_sitter::Tree, src: &str) -> (r: SyntaxTree)
    requires
        src@ == tree_text(*t),
    ensures
        r.wf(),
        syntax_views(r.nodes@) == shape(tree_nodes(*t)),
{
    let ghost p = tree_nodes(*t);
    let n = node_count(t);
    let mut nodes: Vec<SyntaxNode> = Vec::new();
    let mut parents: Vec<Option<usize>> = Vec::new();
    let mut i: usize = 0;
    while i < n
        invariant
            i <= n,
            n == p.len(),
            p == tree_nodes(*t),
            src@ == tree_text(*t),
            nodes@.len() == i,
            parents@.len() == i,
            forall|j: int| 0 <= j < i ==> #[trigger] syntax_view(nodes@[j]) == shaped(p[j], parent_in(p, j), Seq::empty()),
            forall|j: int| 0 <= j < i ==> #[trigger] parents@[j] == parent_in(p, j),
        decreases n - i,
    {
        let d = node_at(t, src, i);
        let par = match d.parent {
            Some(q) => if q < i {
                Some(q)
            } else {
                None
            },
            None => None,
        };
        let node = SyntaxNode {
            kind: d.kind,
            named: d.named,
            field: d.field,
            start_row: if d.start_row < usize::MAX {
                d.start_row
            } else {
                usize::MAX - 1
            },
            end_row: if d.end_row < usize::MAX {
                d.end_row
            } else {
                usize::MAX - 1
            },
            text: d.text,
            parent: par,
            children: Vec::new(),
        };
        assert(syntax_view(node).children =~= Seq::<usize>::empty());
        nodes.push(node);
        parents.push(par);
        i += 1;
    }
    let mut k: usize = 0;
    while k < n
        invariant
            k <= n,
            n == p.len(),
            nodes@.len() == n,
            parents@.len() == n,
            forall|j: int| 0 <= j < n ==> #[trigger] parents@[j] == parent_in(p, j),
            forall|j: int|
                0 <= j < n ==> #[trigger] syntax_view(nodes@[j]) == shaped(p[j], parent_in(p, j), kids_upto(p, j, k as int)),
        decreases n - k,
    {
        let ghost before = nodes@;
        match parents[k] {
            Some(q) => {
                assert(parent_in(p, k as int) == Some(q));
                nodes[q].children.push(k);
            },
            None => {},
        }
        assert forall|j: int| 0 <= j < n implies #[trigger] syntax_view(nodes@[j]) == shaped(
            p[j],
            parent_in(p, j),
            kids_upto(p, j, k + 1),
        ) by {
            assert(syntax_view(before[j]) == shaped(p[j], parent_in(p, j), kids_upto(p, j, k as int)));
            if parent_in(p, k as int) == Some(j as usize) {
                assert(nodes@[j].children@ =~= kids_upto(p, j, k as int).push(k));
                assert(kids_upto(p, j, k + 1) =~= kids_upto(p, j, k as int).push(k));
            } else {
                assert(nodes@[j] == before[j]);
                assert(kids_upto(p, j, k + 1) =~= kids_upto(p, j, k as int));
            }
        }
        k += 1;
    }
    let r = SyntaxTree { nodes };
    assert(syntax_views(r.nodes@) =~= shape(p));
    assert forall|i: int| 0 <= i < r.nodes@.len() implies {
        &&& (#[trigger] r.nodes@[i]).start_row < usize::MAX
        &&& r.nodes@[i].end_row < usize::MAX
        &&& (r.nodes@[i].parent matches Some(q) ==> q < i)
        &&& forall|m: int| 0 <= m < r.nodes@[i].children@.len() ==> i < #[trigger] r.nodes@[i].children@[m] < r.nodes@.len()
    } by {
        assert(syntax_view(r.nodes@[i]) == shaped(p[i], parent_in(p, i), kids_upto(p, i, n as int)));
        lemma_kids_bounds(p, i, n as int);
    }
    r
}

/// The plain tree of `src` in the grammar of `lang`: exactly the shape of
/// tree-sitter's parse, or none when tree-sitter gives no tree.
pub fn parse_syntax(lang: Lang, src: &str) -> (r: Option<SyntaxTree>)
    ensures
        match r {
            Some(t) => t.wf() && parsed(lang, src@) is Some && syntax_views(t.nodes@) == parse_shape(lang, src@),
            None => parsed(lang, src@) is None,
        },
{
    let tree = match lang {
        Lang::Ts => parse_typescript(src),
        Lang::Tsx => parse_tsx(src),
        Lang::Js => parse_javascript(src),
        Lang::Py => parse_python(src),
    };
    match tree {
        Some(t) => Some(copy_tree(&t, src)),
        None => None,
    }
}

} // verus!
