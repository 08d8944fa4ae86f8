//! Next.js app-router routes by file convention: `app/**/page.tsx` is a GET of
//! that path; `app/**/route.ts` declares one route per exported HTTP verb.

use vstd::prelude::*;
use crate::model::{module_symbol_id, symbol_id, RouteFact, RouteFactV, Symbol};
use crate::paths::join_slash;
use crate::plugins::{route_views, RoutePlugin};
use crate::text::{
    chars_of, contains_exec, contains_seq, find, find_exec, has_prefix, has_suffix, join,
    join_exec, lemma_find_from_range, lemma_rfind_char_range, lines, lines_exec, rfind_char,
    rfind_char_exec, slice_of, split_char, split_char_exec, starts_with, ends_with, string_of,
    trim_start_exec, trim_start_ws, views,
};

verus! {

pub struct NextPlugin;

pub open spec fn slashes(s: Seq<char>) -> Seq<char> {
    s.map_values(|c: char| if c == '\\' { '/' } else { c })
}

/// A directory piece that is not part of the URL: empty, `app`, a route
/// group `(x)` or a parallel route `@x`.
pub open spec fn skipped_segment(s: Seq<char>) -> bool {
    s.len() == 0 || s == "app"@ || (has_prefix(s, "("@) && has_suffix(s, ")"@)) || has_prefix(
        s,
        "@"@,
    )
}

/// `[id]` → `:id`, `[...rest]` → `:rest*`, anything else as is.
pub open spec fn segment_text(s: Seq<char>) -> Seq<char> {
    if has_prefix(s, "["@) && has_suffix(s, "]"@) && s.len() >= 2 {
        let inner = s.subrange(1, s.len() - 1);
        if has_prefix(inner, "..."@) {
            ":"@ + inner.subrange(3, inner.len() as int) + "*"@
        } else {
            ":"@ + inner
        }
    } else {
        s
    }
}

/// The URL path of an app-router `page.*` or `route.*` file.
pub open spec fn file_to_route_spec(path: Seq<char>) -> Option<Seq<char>> {
    let p = slashes(path);
    let marker = match find(p, "/app/"@) {
        Some(i) => Some(i + 5),
        None => if has_prefix(p, "app/"@) {
            Some(4int)
        } else {
            None
        },
    };
    match marker {
        None => None,
        Some(m) => {
            let rest = p.subrange(m, p.len() as int);
            let file = match rfind_char(rest, '/') {
                Some(j) => rest.subrange(j + 1, rest.len() as int),
                None => rest,
            };
            if !has_prefix(file, "page."@) && !has_prefix(file, "route."@) {
                None
            } else {
                let dir = match rfind_char(rest, '/') {
                    Some(j) => rest.subrange(0, j),
                    None => Seq::empty(),
                };
                let segs = split_char(dir, '/').filter(|s: Seq<char>| !skipped_segment(s));
                Some("/"@ + join_slash(segs.map_values(|s: Seq<char>| segment_text(s))))
            }
        },
    }
}

pub open spec fn verb_name(k: int) -> Seq<char> {
    if k == 0 {
        "GET"@
    } else if k == 1 {
        "POST"@
    } else if k == 2 {
        "PUT"@
    } else if k == 3 {
        "PATCH"@
    } else if k == 4 {
        "DELETE"@
    } else if k == 5 {
        "HEAD"@
    } else {
        "OPTIONS"@
    }
}

pub const VERB_COUNT: usize = 7;

fn verb_at(k: usize) -> (r: &'static str)
    requires
        k < VERB_COUNT,
    ensures
        r@ == verb_name(k as int),
{
    if k == 0 {
        "GET"
    } else if k == 1 {
        "POST"
    } else if k == 2 {
        "PUT"
    } else if k == 3 {
        "PATCH"
    } else if k == 4 {
        "DELETE"
    } else if k == 5 {
        "HEAD"
    } else {
        "OPTIONS"
    }
}

pub open spec fn exports_verb(t: Seq<char>, v: Seq<char>) -> bool {
    contains_seq(t, "export async function "@ + v) || contains_seq(t, "export function "@ + v)
        || contains_seq(t, "export const "@ + v)
}

/// The verbs (from `k` on) one line exports, as routes.
pub open spec fn line_verbs(path: Seq<char>, rp: Seq<char>, t: Seq<char>, ln: nat, k: int) -> Seq<
    RouteFactV,
>
    decreases VERB_COUNT - k,
{
    if k < 0 || k >= VERB_COUNT {
        Seq::empty()
    } else {
        let here = if exports_verb(t, verb_name(k)) {
            seq![
                RouteFactV {
                    method: verb_name(k),
                    path: rp,
                    handler_id: symbol_id(path, verb_name(k), ln),
                    file_path: path,
                    line: ln,
                },
            ]
        } else {
            Seq::empty()
        };
        here + line_verbs(path, rp, t, ln, k + 1)
    }
}

pub open spec fn http_exports_spec(path: Seq<char>, rp: Seq<char>, ls: Seq<Seq<char>>) -> Seq<
    RouteFactV,
>
    decreases ls.len(),
{
    if ls.len() == 0 {
        Seq::empty()
    } else {
        http_exports_spec(path, rp, ls.drop_last()) + line_verbs(
            path,
            rp,
            trim_start_ws(ls.last()),
            ls.len(),
            0,
        )
    }
}

pub open spec fn handler_candidate(k: int) -> Seq<char> {
    if k == 0 {
        "default"@
    } else if k == 1 {
        "Page"@
    } else if k == 2 {
        "GET"@
    } else {
        "POST"@
    }
}

fn candidate_at(k: usize) -> (r: &'static str)
    requires
        k < 4,
    ensures
        r@ == handler_candidate(k as int),
{
    if k == 0 {
        "default"
    } else if k == 1 {
        "Page"
    } else if k == 2 {
        "GET"
    } else {
        "POST"
    }
}

/// The first candidate name (from `k` on) a line defines, or any name when
/// the line has a default export.
pub open spec fn line_handler(t: Seq<char>, k: int) -> Option<Seq<char>>
    decreases 4 - k,
{
    if k < 0 || k >= 4 {
        None
    } else if contains_seq(t, "function "@ + handler_candidate(k)) || contains_seq(
        t,
        "const "@ + handler_candidate(k),
    ) || contains_seq(t, "export default"@) {
        Some(handler_candidate(k))
    } else {
        line_handler(t, k + 1)
    }
}

/// The page's handler: the first line (from `i`) that names one, else the
/// module pseudo-node.
pub open spec fn handler_from(path: Seq<char>, ls: Seq<Seq<char>>, i: int) -> Seq<char>
    decreases ls.len() - i,
{
    if i < 0 || i >= ls.len() {
        module_symbol_id(path)
    } else {
        match line_handler(trim_start_ws(ls[i]), 0) {
            Some(name) => symbol_id(path, name, (i + 1) as nat),
            None => handler_from(path, ls, i + 1),
        }
    }
}

/// The Next routes of a file.
pub open spec fn next_routes(path: Seq<char>, src: Seq<char>) -> Seq<RouteFactV> {
    match file_to_route_spec(path) {
        None => Seq::empty(),
        Some(rp) => if contains_seq(path, "/route."@) {
            http_exports_spec(path, rp, lines(src))
        } else {
            seq![
                RouteFactV {
                    method: "GET"@,
                    path: rp,
                    handler_id: handler_from(path, lines(src), 0),
                    file_path: path,
                    line: 1,
                },
            ]
        },
    }
}

fn lit(s: &str) -> (r: Vec<char>)
    ensures
        r@ == s@,
{
    chars_of(s)
}

fn cat(a: &str, b: &str) -> (r: Vec<char>)
    ensures
        r@ == a@ + b@,
{
    let mut v = chars_of(a);
    let w = chars_of(b);
    crate::text::push_all(&mut v, &w);
    v
}

/// The URL path of an app-router file, if it is one.
pub fn file_to_route(path: &str) -> (r: Option<String>)
    ensures
        match r {
            Some(s) => file_to_route_spec(path@) == Some(s@),
            None => file_to_route_spec(path@) is None,
        },
{
    let raw = chars_of(path);
    let mut p: Vec<char> = Vec::new();
    let mut i: usize = 0;
    while i < raw.len()
        invariant
            i <= raw.len(),
            p@ == slashes(raw@.take(i as int)),
        decreases raw.len() - i,
    {
        p.push(if raw[i] == '\\' {
            '/'
        } else {
            raw[i]
        });
        assert(slashes(raw@.take(i + 1)) =~= slashes(raw@.take(i as int)).push(
            if raw@[i as int] == '\\' {
                '/'
            } else {
                raw@[i as int]
            },
        ));
        i += 1;
    }
    assert(raw@.take(raw.len() as int) =~= raw@);
    let app = lit("/app/");
    proof {
        lemma_find_from_range(p@, app@, 0);
        reveal_strlit("/app/");
        reveal_strlit("app/");
    }
    let m: usize = match find_exec(&p, &app) {
        Some(i) => i + 5,
        None => {
            if starts_with(&p, &lit("app/")) {
                4
            } else {
                return None;
            }
        },
    };
    assert(m <= p.len());
    let rest = slice_of(&p, m, p.len());
    proof {
        lemma_rfind_char_range(rest@, '/', rest@.len() as int);
    }
    let slash = rfind_char_exec(&rest, '/');
    let file = match slash {
        Some(j) => slice_of(&rest, j + 1, rest.len()),
        None => slice_of(&rest, 0, rest.len()),
    };
    assert(slash is None ==> file@ =~= rest@);
    if !starts_with(&file, &lit("page.")) && !starts_with(&file, &lit("route.")) {
        return None;
    }
    let dir = match slash {
        Some(j) => slice_of(&rest, 0, j),
        None => Vec::new(),
    };
    assert(slash is None ==> dir@ =~= Seq::<char>::empty());
    let parts = split_char_exec(&dir, '/');
    let ghost keep = |s: Seq<char>| !skipped_segment(s);
    let mut texts: Vec<Vec<char>> = Vec::new();
    let mut k: usize = 0;
    while k < parts.len()
        invariant
            k <= parts.len(),
            views(parts@) == split_char(dir@, '/'),
            keep == (|s: Seq<char>| !skipped_segment(s)),
            views(texts@) == views(parts@).take(k as int).filter(keep).map_values(
                |s: Seq<char>| segment_text(s),
            ),
        decreases parts.len() - k,
    {
        let s = &parts[k];
        let ghost vs = views(parts@);
        let ghost before = views(texts@);
        assert(vs.take(k + 1).drop_last() =~= vs.take(k as int));
        assert(vs[k as int] == s@);
        proof {
            reveal(Seq::filter);
            reveal_strlit("...");
            reveal_strlit(":");
            reveal_strlit("*");
            reveal_strlit("(");
            reveal_strlit(")");
            reveal_strlit("@");
            reveal_strlit("[");
            reveal_strlit("]");
            reveal_strlit("...");
            reveal_strlit(":");
            reveal_strlit("*");
        }
        let skip = s.len() == 0 || crate::text::seq_eq(s, &lit("app")) || (starts_with(s, &lit("("))
            && ends_with(s, &lit(")"))) || starts_with(s, &lit("@"));
        if !skip {
            let t = if starts_with(s, &lit("[")) && ends_with(s, &lit("]")) && s.len() >= 2 {
                let inner = slice_of(s, 1, s.len() - 1);
                if starts_with(&inner, &lit("...")) {
                    let mut v = lit(":");
                    let tail = slice_of(&inner, 3, inner.len());
                    crate::text::push_all(&mut v, &tail);
                    v.push('*');
                    v
                } else {
                    let mut v = lit(":");
                    crate::text::push_all(&mut v, &inner);
                    v
                }
            } else {
                slice_of(s, 0, s.len())
            };
            assert(t@ =~= segment_text(s@));
            texts.push(t);
            assert(views(texts@) =~= before.push(segment_text(s@)));
        }
        assert(vs.take(k + 1).filter(keep).map_values(|s: Seq<char>| segment_text(s)) =~= (if keep(
            s@,
        ) {
            vs.take(k as int).filter(keep).push(s@)
        } else {
            vs.take(k as int).filter(keep)
        }).map_values(|s: Seq<char>| segment_text(s)));
        k += 1;
    }
    assert(views(parts@).take(parts.len() as int) =~= views(parts@));
    let sep = lit("/");
    proof {
        reveal_strlit("/");
    }
    let joined = join_slash_exec(&texts);
    let mut out = lit("/");
    crate::text::push_all(&mut out, &joined);
    Some(string_of(&out))
}

fn join_slash_exec(parts: &Vec<Vec<char>>) -> (r: Vec<char>)
    ensures
        r@ == join_slash(views(parts@)),
{
    let mut out: Vec<char> = Vec::new();
    let mut i: usize = 0;
    while i < parts.len()
        invariant
            i <= parts.len(),
            out@ == join_slash(views(parts@).take(i as int)),
        decreases parts.len() - i,
    {
        let ghost vs = views(parts@);
        assert(vs.take(i + 1).drop_last() =~= vs.take(i as int));
        assert(vs[i as int] == parts@[i as int]@);
        if i > 0 {
            out.push('/');
        }
        let ghost mid = out@;
        crate::text::push_all(&mut out, &parts[i]);
        proof {
            if i == 0 {
                assert(vs.take(1) =~= seq![vs[0]]);
                assert(out@ =~= join_slash(vs.take(1)));
            } else {
                assert(out@ =~= join_slash(vs.take(i as int)) + seq!['/'] + vs[i as int]);
            }
        }
        i += 1;
    }
    assert(views(parts@).take(parts.len() as int) =~= views(parts@));
    out
}

fn line_verbs_exec(path: &str, rp: &str, t: &[char], ln: usize, out: &mut Vec<RouteFact>)
    ensures
        route_views(final(out)@) == route_views(old(out)@) + line_verbs(path@, rp@, t@, ln as nat, 0),
{
    let ghost start = route_views(out@);
    let mut k: usize = 0;
    while k < VERB_COUNT
        invariant
            k <= VERB_COUNT,
            route_views(out@) + line_verbs(path@, rp@, t@, ln as nat, k as int) == start
                + line_verbs(path@, rp@, t@, ln as nat, 0),
        decreases VERB_COUNT - k,
    {
        let v = verb_at(k);
        let hit = contains_exec(t, &cat("export async function ", v)) || contains_exec(
            t,
            &cat("export function ", v),
        ) || contains_exec(t, &cat("export const ", v));
        let ghost before = route_views(out@);
        if hit {
            let mut m = String::new();
            crate::text::append_str(&mut m, v);
            let mut rps = String::new();
            crate::text::append_str(&mut rps, rp);
            let mut file = String::new();
            crate::text::append_str(&mut file, path);
            let rf = RouteFact {
                method: m,
                path: rps,
                handler_id: Symbol::make_id(path, v, ln),
                file_path: file,
                line: ln,
            };
            let ghost rv = rf@;
            out.push(rf);
            assert(route_views(out@) =~= before.push(rv));
            assert(line_verbs(path@, rp@, t@, ln as nat, k as int) =~= seq![rv] + line_verbs(
                path@,
                rp@,
                t@,
                ln as nat,
                k + 1,
            ));
        } else {
            assert(line_verbs(path@, rp@, t@, ln as nat, k as int) =~= line_verbs(
                path@,
                rp@,
                t@,
                ln as nat,
                k + 1,
            ));
        }
        k += 1;
    }
    assert(line_verbs(path@, rp@, t@, ln as nat, VERB_COUNT as int) =~= Seq::<RouteFactV>::empty());
}

fn http_exports(path: &str, src: &str, rp: &str) -> (r: Vec<RouteFact>)
    ensures
        route_views(r@) == http_exports_spec(path@, rp@, lines(src@)),
{
    let s = chars_of(src);
    let ls = lines_exec(&s);
    let mut out: Vec<RouteFact> = Vec::new();
    let mut i: usize = 0;
    while i < ls.len()
        invariant
            i <= ls.len(),
            views(ls@) == lines(src@),
            route_views(out@) == http_exports_spec(path@, rp@, views(ls@).take(i as int)),
        decreases ls.len() - i,
    {
        assert(views(ls@).take(i + 1).drop_last() =~= views(ls@).take(i as int));
        assert(views(ls@).take(i + 1).last() == ls@[i as int]@);
        let t = trim_start_exec(&ls[i]);
        line_verbs_exec(path, rp, &t, i + 1, &mut out);
        i += 1;
    }
    assert(views(ls@).take(ls.len() as int) =~= views(ls@));
    out
}

fn line_handler_exec(t: &[char]) -> (r: Option<&'static str>)
    ensures
        match r {
            Some(n) => line_handler(t@, 0) == Some(n@),
            None => line_handler(t@, 0) is None,
        },
{
    let mut k: usize = 0;
    while k < 4
        invariant
            k <= 4,
            line_handler(t@, 0) == line_handler(t@, k as int),
        decreases 4 - k,
    {
        let n = candidate_at(k);
        if contains_exec(t, &cat("function ", n)) || contains_exec(t, &cat("const ", n))
            || contains_exec(t, &lit("export default")) {
            return Some(n);
        }
        k += 1;
    }
    None
}

fn handler_from_src(path: &str, src: &str) -> (r: String)
    ensures
        r@ == handler_from(path@, lines(src@), 0),
{
    let s = chars_of(src);
    let ls = lines_exec(&s);
    let mut i: usize = 0;
    while i < ls.len()
        invariant
            i <= ls.len(),
            views(ls@) == lines(src@),
            handler_from(path@, lines(src@), 0) == handler_from(path@, lines(src@), i as int),
        decreases ls.len() - i,
    {
        assert(views(ls@)[i as int] == ls@[i as int]@);
        let t = trim_start_exec(&ls[i]);
        match line_handler_exec(&t) {
            Some(n) => {
                return Symbol::make_id(path, n, i + 1);
            },
            None => {},
        }
        i += 1;
    }
    Symbol::module_id(path)
}

impl RoutePlugin for NextPlugin {
    fn routes(&self, path: &str, src: &str) -> (r: Vec<RouteFact>)
        ensures
            route_views(r@) == next_routes(path@, src@),
    {
        let rp = match file_to_route(path) {
            Some(rp) => rp,
            None => {
                let v: Vec<RouteFact> = Vec::new();
                assert(route_views(v@) =~= Seq::<RouteFactV>::empty());
                return v;
            },
        };
        if contains_exec(&chars_of(path), &lit("/route.")) {
            return http_exports(path, src, rp.as_str());
        }
        let handler = handler_from_src(path, src);
        let mut file = String::new();
        crate::text::append_str(&mut file, path);
        let mut m = String::new();
        crate::text::append_str(&mut m, "GET");
        let rf = RouteFact { method: m, path: rp, handler_id: handler, file_path: file, line: 1 };
        let ghost rv = rf@;
        let mut v: Vec<RouteFact> = Vec::new();
        v.push(rf);
        assert(route_views(v@) =~= seq![rv]);
        v
    }
}

} // verus!
