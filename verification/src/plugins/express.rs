//! Express-style routes: `app.get('/path', handler)`, `router.post("/x", fn)`.

use vstd::prelude::*;
use crate::model::{symbol_id, RouteFact, RouteFactV, Symbol};
use crate::plugins::{route_views, RoutePlugin};
use crate::resolve::{last_segment, last_segment_exec};
use crate::text::{
    ascii_upper, ascii_upper_exec, chars_of, find, find_char, find_char_exec, find_exec,
    has_prefix, is_ascii_alnum, occurs_at, is_ascii_alnum_exec, lemma_find_char_from_range,
    lemma_find_from_range, lines, lines_exec, slice_of, starts_with, string_of,
    trim_start_exec, trim_start_ws, views,
};

verus! {

pub struct ExpressPlugin;

/// The route methods, in the order they are tried.
pub open spec fn method_name(k: int) -> Seq<char> {
    if k == 0 {
        "get"@
    } else if k == 1 {
        "post"@
    } else if k == 2 {
        "put"@
    } else if k == 3 {
        "patch"@
    } else if k == 4 {
        "delete"@
    } else if k == 5 {
        "options"@
    } else if k == 6 {
        "head"@
    } else if k == 7 {
        "all"@
    } else {
        "use"@
    }
}

pub const METHOD_COUNT: usize = 9;

fn method_at(k: usize) -> (r: &'static str)
    requires
        k < METHOD_COUNT,
    ensures
        r@ == method_name(k as int),
{
    if k == 0 {
        "get"
    } else if k == 1 {
        "post"
    } else if k == 2 {
        "put"
    } else if k == 3 {
        "patch"
    } else if k == 4 {
        "delete"
    } else if k == 5 {
        "options"
    } else if k == 6 {
        "head"
    } else if k == 7 {
        "all"
    } else {
        "use"
    }
}

pub open spec fn needle(k: int) -> Seq<char> {
    "."@ + method_name(k) + "("@
}

/// A receiver ends in an identifier character or a closing parenthesis.
pub open spec fn receiver_char(c: char) -> bool {
    is_ascii_alnum(c) || c == '_' || c == ')'
}

/// The first method (from `k` on) whose `.method(` first occurs right after a
/// receiver, with the text after the `(`.
pub open spec fn receiver_method(t: Seq<char>, k: int) -> Option<(int, Seq<char>)>
    decreases METHOD_COUNT - k,
{
    if k < 0 || k >= METHOD_COUNT {
        None
    } else {
        match find(t, needle(k)) {
            Some(i) => if i > 0 && receiver_char(t[i - 1]) {
                Some((k, t.subrange(i + needle(k).len(), t.len() as int)))
            } else {
                receiver_method(t, k + 1)
            },
            None => receiver_method(t, k + 1),
        }
    }
}

pub open spec fn is_quote(c: char) -> bool {
    c == '\'' || c == '"' || c == '`'
}

pub open spec fn ident_char(c: char) -> bool {
    is_ascii_alnum(c) || c == '_' || c == '.'
}

/// Length of the identifier run at the start of `s` (from `i`).
pub open spec fn ident_end(s: Seq<char>, i: int) -> int
    decreases s.len() - i,
{
    if i < 0 || i >= s.len() || !ident_char(s[i]) {
        if i < 0 {
            0
        } else {
            i
        }
    } else {
        ident_end(s, i + 1)
    }
}

/// The handler's name: `<anon>` for an inline function, else the last
/// segment of the leading dotted identifier.
pub open spec fn handler_name_spec(s: Seq<char>) -> Seq<char> {
    let t = trim_start_ws(s);
    if has_prefix(t, "async "@) || has_prefix(t, "function"@) || has_prefix(t, "("@) {
        "<anon>"@
    } else {
        let ident = t.take(ident_end(t, 0));
        if ident.len() == 0 {
            "<anon>"@
        } else {
            last_segment(ident)
        }
    }
}

/// A quoted route path, then (after an optional comma) the handler.
pub open spec fn path_and_handler(after: Seq<char>) -> Option<(Seq<char>, Seq<char>)> {
    let a = trim_start_ws(after);
    if a.len() == 0 || !is_quote(a[0]) {
        None
    } else {
        let rest = a.subrange(1, a.len() as int);
        match find_char(rest, a[0]) {
            None => None,
            Some(e) => {
                let ap = trim_start_ws(rest.subrange(e + 1, rest.len() as int));
                let ap2 = if ap.len() > 0 && ap[0] == ',' {
                    ap.subrange(1, ap.len() as int)
                } else {
                    ap
                };
                Some((rest.subrange(0, e), handler_name_spec(ap2)))
            },
        }
    }
}

/// The route on one line (numbered `ln`), if it declares one.
#[verifier::opaque]
pub open spec fn line_route(path: Seq<char>, line: Seq<char>, ln: nat) -> Option<RouteFactV> {
    match receiver_method(trim_start_ws(line), 0) {
        None => None,
        Some((k, after)) => match path_and_handler(after) {
            None => None,
            Some((route, handler)) => Some(
                RouteFactV {
                    method: ascii_upper(method_name(k)),
                    path: route,
                    handler_id: symbol_id(path, handler, ln),
                    file_path: path,
                    line: ln,
                },
            ),
        },
    }
}

pub open spec fn routes_of_lines(path: Seq<char>, ls: Seq<Seq<char>>) -> Seq<RouteFactV>
    decreases ls.len(),
{
    if ls.len() == 0 {
        Seq::empty()
    } else {
        routes_of_lines(path, ls.drop_last()) + match line_route(path, ls.last(), ls.len()) {
            Some(r) => seq![r],
            None => Seq::empty(),
        }
    }
}

/// The Express routes of a file, in line order.
pub open spec fn express_routes(path: Seq<char>, src: Seq<char>) -> Seq<RouteFactV> {
    routes_of_lines(path, lines(src))
}

fn receiver_method_exec(t: &[char]) -> (r: Option<(usize, Vec<char>)>)
    ensures
        match r {
            Some((k, after)) => k < METHOD_COUNT && receiver_method(t@, 0) == Some(
                (k as int, after@),
            ),
            None => receiver_method(t@, 0) is None,
        },
{
    let mut k: usize = 0;
    while k < METHOD_COUNT
        invariant
            k <= METHOD_COUNT,
            receiver_method(t@, 0) == receiver_method(t@, k as int),
        decreases METHOD_COUNT - k,
    {
        let mut nd: Vec<char> = Vec::new();
        nd.push('.');
        let m = chars_of(method_at(k));
        crate::text::push_all(&mut nd, &m);
        nd.push('(');
        proof {
            reveal_strlit(".");
            reveal_strlit("(");
        }
        assert(nd@ =~= needle(k as int));
        proof {
            lemma_find_from_range(t@, nd@, 0);
        }
        match find_exec(t, &nd) {
            Some(i) => {
                if i > 0 && (is_ascii_alnum_exec(t[i - 1]) || t[i - 1] == '_' || t[i - 1] == ')') {
                    let after = slice_of(t, i + nd.len(), t.len());
                    return Some((k, after));
                }
                assert(!(i > 0 && receiver_char(t@[i - 1])));
                assert(find(t@, nd@) == Some(i as int));
                assert(nd@ == needle(k as int));
                assert(find(t@, needle(k as int)) == Some(i as int));
                assert(receiver_method(t@, k as int) == receiver_method(t@, k + 1));
            },
            None => {
                assert(receiver_method(t@, k as int) == receiver_method(t@, k + 1));
            },
        }
        k += 1;
    }
    None
}

fn handler_name(s: &[char]) -> (r: Vec<char>)
    ensures
        r@ == handler_name_spec(s@),
{
    let t = trim_start_exec(s);
    let anon = chars_of("<anon>");
    if starts_with(&t, &chars_of("async ")) || starts_with(&t, &chars_of("function")) || starts_with(
        &t,
        &chars_of("("),
    ) {
        return anon;
    }
    let mut i: usize = 0;
    while i < t.len() && (is_ascii_alnum_exec(t[i]) || t[i] == '_' || t[i] == '.')
        invariant
            i <= t.len(),
            ident_end(t@, 0) == ident_end(t@, i as int),
        decreases t.len() - i,
    {
        i += 1;
    }
    let ident = slice_of(&t, 0, i);
    assert(ident@ =~= t@.take(ident_end(t@, 0)));
    if ident.len() == 0 {
        anon
    } else {
        last_segment_exec(&ident)
    }
}

fn path_and_handler_exec(after: &[char]) -> (r: Option<(Vec<char>, Vec<char>)>)
    ensures
        match r {
            Some((p, h)) => path_and_handler(after@) == Some((p@, h@)),
            None => path_and_handler(after@) is None,
        },
{
    let a = trim_start_exec(after);
    if a.len() == 0 {
        return None;
    }
    let q = a[0];
    if !(q == '\'' || q == '"' || q == '`') {
        return None;
    }
    let rest = slice_of(&a, 1, a.len());
    proof {
        lemma_find_char_from_range(rest@, q, 0);
    }
    let e = match find_char_exec(&rest, q) {
        Some(e) => e,
        None => {
            return None;
        },
    };
    let route = slice_of(&rest, 0, e);
    let ap = trim_start_exec(&slice_of(&rest, e + 1, rest.len()));
    let ap2 = if ap.len() > 0 && ap[0] == ',' {
        slice_of(&ap, 1, ap.len())
    } else {
        ap
    };
    let h = handler_name(&ap2);
    Some((route, h))
}

/// The route one line declares, if any.
fn line_route_exec(path: &str, line: &[char], ln: usize) -> (r: Option<RouteFact>)
    ensures
        match r {
            Some(x) => line_route(path@, line@, ln as nat) == Some(x@),
            None => line_route(path@, line@, ln as nat) is None,
        },
{
    reveal(line_route);
    let t = trim_start_exec(line);
    let (k, after) = match receiver_method_exec(&t) {
        Some(p) => p,
        None => {
            return None;
        },
    };
    let (route, handler) = match path_and_handler_exec(&after) {
        Some(p) => p,
        None => {
            return None;
        },
    };
    let hs = string_of(&handler);
    let handler_id = Symbol::make_id(path, hs.as_str(), ln);
    let m = chars_of(method_at(k));
    let up = ascii_upper_exec(&m);
    let mut file = String::new();
    crate::text::append_str(&mut file, path);
    Some(RouteFact { method: string_of(&up), path: string_of(&route), handler_id, file_path: file, line: ln })
}

impl RoutePlugin for ExpressPlugin {
    fn routes(&self, path: &str, src: &str) -> (r: Vec<RouteFact>)
        ensures
            route_views(r@) == express_routes(path@, src@),
    {
        let s = chars_of(src);
        let ls = lines_exec(&s);
        let mut out: Vec<RouteFact> = Vec::new();
        let mut i: usize = 0;
        while i < ls.len()
            invariant
                i <= ls.len(),
                views(ls@) == lines(src@),
                route_views(out@) == routes_of_lines(path@, views(ls@).take(i as int)),
            decreases ls.len() - i,
        {
            let ghost before = route_views(out@);
            assert(views(ls@).take(i + 1).drop_last() =~= views(ls@).take(i as int));
            assert(views(ls@).take(i + 1).last() == ls@[i as int]@);
            assert(i + 1 <= usize::MAX);
            match line_route_exec(path, &ls[i], i + 1) {
                Some(rf) => {
                    out.push(rf);
                    assert(route_views(out@) =~= before.push(out@[out@.len() - 1]@));
                },
                None => {},
            }
            assert(route_views(out@) =~= routes_of_lines(path@, views(ls@).take(i + 1)));
            i += 1;
        }
        assert(views(ls@).take(ls.len() as int) =~= views(ls@));
        out
    }
}

} // verus!
