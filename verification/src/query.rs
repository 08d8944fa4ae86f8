//! Read-side payloads: search hit lists, the explore answer (found or
//! missing with nearby suggestions), each led by the trust banner. Absence
//! is reported as absence, never as proof.

use vstd::prelude::*;
use crate::explore::{render_spec, render_view, ExploreView};
use crate::model::{NodeRow, NodeRowV};
use crate::text::{
    chars_of, decimal, has_prefix, lines, lines_exec, push_all, push_decimal, signed_decimal, starts_with,
    str_views, string_of, views,
};

verus! {

/// One repo's answer to an explore: found with its view, or missing with
/// search suggestions. Found-vs-missing is decided only here.
pub enum Explored {
    Found(ExploreView),
    Missing { suggestions: Vec<String> },
}

fn push_str(v: &mut Vec<char>, s: &str)
    ensures
        final(v)@ == old(v)@ + s@,
{
    let w = chars_of(s);
    push_all(v, &w);
}

/// One search hit: `{prefix}{★ or space} {kind} {qualified name}  {file}:{line}`.
pub open spec fn hit_line(prefix: Seq<char>, n: NodeRowV) -> Seq<char> {
    prefix + (if n.exported {
        "★"@
    } else {
        " "@
    }) + " "@ + n.kind + " "@ + n.qualified_name + "  "@ + n.file_path + ":"@ + signed_decimal(n.start_line)
        + "\n"@
}

pub open spec fn hit_lines(prefix: Seq<char>, hits: Seq<Option<NodeRowV>>) -> Seq<char>
    decreases hits.len(),
{
    if hits.len() == 0 {
        Seq::empty()
    } else {
        hit_lines(prefix, hits.drop_last()) + match hits.last() {
            Some(n) => hit_line(prefix, n),
            None => Seq::empty(),
        }
    }
}

pub open spec fn opt_rows(v: Seq<Option<NodeRow>>) -> Seq<Option<NodeRowV>> {
    v.map_values(|o: Option<NodeRow>| match o {
        Some(n) => Some(n@),
        None => None,
    })
}

/// The hit list for a search: one line per hit whose node is still in the
/// graph (prefixed `[label] ` in a group), or a no-match line when the search
/// found no ids at all.
pub open spec fn search_body_spec(q: Seq<char>, label: Option<Seq<char>>, hits: Seq<Option<NodeRowV>>) -> Seq<char> {
    if hits.len() == 0 {
        match label {
            Some(l) => "["@ + l + "] no symbol matching `"@ + q + "`.\n"@,
            None => "no symbol matching `"@ + q + "`."@,
        }
    } else {
        hit_lines(
            match label {
                Some(l) => "["@ + l + "] "@,
                None => Seq::empty(),
            },
            hits,
        )
    }
}

/// The hit list of a search, from the node (if still present) of each id
/// the ranking returned, best first.
pub fn search_body(q: &str, label: Option<&str>, hits: &[Option<NodeRow>]) -> (r: String)
    ensures
        r@ == search_body_spec(q@, match label {
            Some(l) => Some(l@),
            None => None,
        }, opt_rows(hits@)),
{
    let mut out: Vec<char> = Vec::new();
    if hits.len() == 0 {
        match label {
            Some(l) => {
                push_str(&mut out, "[");
                push_str(&mut out, l);
                push_str(&mut out, "] no symbol matching `");
                push_str(&mut out, q);
                push_str(&mut out, "`.\n");
            },
            None => {
                push_str(&mut out, "no symbol matching `");
                push_str(&mut out, q);
                push_str(&mut out, "`.");
            },
        }
        return string_of(&out);
    }
    let mut prefix: Vec<char> = Vec::new();
    match label {
        Some(l) => {
            push_str(&mut prefix, "[");
            push_str(&mut prefix, l);
            push_str(&mut prefix, "] ");
        },
        None => {},
    }
    let ghost pv = prefix@;
    let ghost hv = opt_rows(hits@);
    let mut i: usize = 0;
    while i < hits.len()
        invariant
            i <= hits@.len(),
            pv == prefix@,
            hv == opt_rows(hits@),
            out@ == hit_lines(pv, hv.take(i as int)),
        decreases hits.len() - i,
    {
        assert(hv.take(i + 1).drop_last() =~= hv.take(i as int));
        assert(hv.take(i + 1).last() == hv[i as int]);
        match &hits[i] {
            Some(n) => {
                let ghost o0 = out@;
                push_all(&mut out, &prefix);
                if n.exported {
                    push_str(&mut out, "★");
                } else {
                    push_str(&mut out, " ");
                }
                push_str(&mut out, " ");
                push_str(&mut out, n.kind.as_str());
                push_str(&mut out, " ");
                push_str(&mut out, n.qualified_name.as_str());
                push_str(&mut out, "  ");
                push_str(&mut out, n.file_path.as_str());
                push_str(&mut out, ":");
                crate::text::push_signed(&mut out, n.start_line);
                push_str(&mut out, "\n");
                assert(out@ =~= o0 + hit_line(pv, n@));
            },
            None => {},
        }
        i += 1;
    }
    assert(hv.take(hits.len() as int) =~= hv);
    string_of(&out)
}

/// A single repo's search answer: the banner, a blank line, the hits.
pub fn search_text(banner: &str, body: &str) -> (r: String)
    ensures
        r@ == banner@ + "\n\n"@ + body@,
{
    let mut out = chars_of(banner);
    push_str(&mut out, "\n\n");
    push_str(&mut out, body);
    string_of(&out)
}

/// Up to eight non-empty hit lines of a search body, skipping a no-match
/// line.
pub open spec fn suggestion_lines(ls: Seq<Seq<char>>) -> Seq<Seq<char>> {
    ls.filter(|l: Seq<char>| l.len() > 0 && !has_prefix(l, "no symbol matching"@))
}

pub open spec fn suggestions_spec(body: Seq<char>) -> Seq<Seq<char>> {
    let s = suggestion_lines(lines(body));
    if s.len() > 8 {
        s.take(8)
    } else {
        s
    }
}

/// The nearby names offered when a symbol is missing.
pub fn suggestions(body: &str) -> (r: Vec<String>)
    ensures
        str_views(r@) == suggestions_spec(body@),
{
    let v = chars_of(body);
    let ls = lines_exec(&v);
    let ghost lv = views(ls@);
    let ghost p = |l: Seq<char>| l.len() > 0 && !has_prefix(l, "no symbol matching"@);
    let stop = chars_of("no symbol matching");
    let mut out: Vec<String> = Vec::new();
    let mut i: usize = 0;
    while i < ls.len() && out.len() < 8
        invariant
            i <= ls@.len(),
            lv == views(ls@),
            lv == lines(body@),
            stop@ == "no symbol matching"@,
            p == (|l: Seq<char>| l.len() > 0 && !has_prefix(l, "no symbol matching"@)),
            str_views(out@) == lv.take(i as int).filter(p),
            out@.len() <= 8,
        decreases ls.len() - i,
    {
        assert(lv.take(i + 1).drop_last() =~= lv.take(i as int));
        assert(lv.take(i + 1).last() == ls@[i as int]@);
        reveal(Seq::filter);
        if ls[i].len() > 0 && !starts_with(ls[i].as_slice(), stop.as_slice()) {
            let ghost o0 = str_views(out@);
            out.push(string_of(ls[i].as_slice()));
            assert(str_views(out@) =~= o0.push(ls@[i as int]@));
        }
        assert(str_views(out@) =~= lv.take(i + 1).filter(p));
        i += 1;
    }
    proof {
        lemma_filter_prefix_grows(lv, p, i as int);
        if out@.len() < 8 {
            assert(i == ls@.len());
            assert(lv.take(i as int) =~= lv);
        }
    }
    out
}

/// Filtering a longer prefix keeps the shorter prefix's result as a prefix.
proof fn lemma_filter_prefix_grows(s: Seq<Seq<char>>, p: spec_fn(Seq<char>) -> bool, i: int)
    requires
        0 <= i <= s.len(),
    ensures
        s.take(i).filter(p).len() <= s.filter(p).len(),
        s.filter(p).take(s.take(i).filter(p).len() as int) == s.take(i).filter(p),
        s.take(i).filter(p).len() >= 8 ==> s.filter(p).take(8) == s.take(i).filter(p).take(8),
    decreases s.len() - i,
{
    if i == s.len() {
        assert(s.take(i) =~= s);
        assert(s.filter(p).take(s.filter(p).len() as int) =~= s.filter(p));
    } else {
        lemma_filter_prefix_grows(s, p, i + 1);
        reveal(Seq::filter);
        assert(s.take(i + 1).drop_last() =~= s.take(i));
        let a = s.take(i).filter(p);
        let b = s.take(i + 1).filter(p);
        let f = s.filter(p);
        assert(b.take(a.len() as int) =~= a);
        assert(f.take(a.len() as int) =~= f.take(b.len() as int).take(a.len() as int));
        if a.len() >= 8 {
            assert(f.take(8) =~= f.take(b.len() as int).take(8));
            assert(b.take(8) =~= b.take(a.len() as int).take(8));
        }
    }
}

/// The explore answer of one repo: the banner, then the rendered view, or
/// a missing note with its nearby suggestions.
pub open spec fn explore_text_spec(banner: Seq<char>, symbol: Seq<char>, e: Explored) -> Seq<char> {
    match e {
        Explored::Found(v) => banner + "\n\n"@ + render_spec(v),
        Explored::Missing { suggestions } => {
            let head = banner + "\n\nno symbol named `"@ + symbol + "`. try `search "@ + symbol + "` for fuzzy matches."@;
            if suggestions@.len() == 0 {
                head
            } else {
                head + "\n\n**nearby**\n"@ + crate::explore::bullets(str_views(suggestions@))
            }
        },
    }
}

pub fn explore_text(banner: &str, symbol: &str, e: &Explored) -> (r: String)
    ensures
        r@ == explore_text_spec(banner@, symbol@, *e),
{
    let mut out = chars_of(banner);
    match e {
        Explored::Found(v) => {
            push_str(&mut out, "\n\n");
            let body = render_view(v);
            push_str(&mut out, body.as_str());
        },
        Explored::Missing { suggestions } => {
            push_str(&mut out, "\n\nno symbol named `");
            push_str(&mut out, symbol);
            push_str(&mut out, "`. try `search ");
            push_str(&mut out, symbol);
            push_str(&mut out, "` for fuzzy matches.");
            if suggestions.len() > 0 {
                push_str(&mut out, "\n\n**nearby**\n");
                let ghost o0 = out@;
                let mut i: usize = 0;
                while i < suggestions.len()
                    invariant
                        i <= suggestions@.len(),
                        out@ == o0 + crate::explore::bullets(str_views(suggestions@).take(i as int)),
                    decreases suggestions.len() - i,
                {
                    assert(str_views(suggestions@).take(i + 1).drop_last() =~= str_views(suggestions@).take(i as int));
                    assert(str_views(suggestions@).take(i + 1).last() == suggestions@[i as int]@);
                    push_str(&mut out, "- ");
                    push_str(&mut out, suggestions[i].as_str());
                    push_str(&mut out, "\n");
                    i += 1;
                }
                assert(str_views(suggestions@).take(i as int) =~= str_views(suggestions@));
            }
        },
    }
    string_of(&out)
}

} // verus!
