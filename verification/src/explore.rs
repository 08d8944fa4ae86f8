//! The explore payload: a typed view of one symbol (snippet, call-path spine,
//! members, heritage, blast radius by depth, callees, routes) and its
//! markdown rendering in a frozen section order.

use vstd::prelude::*;
use crate::blast::{blast_spec, from_ids, hop_views, node_views, row_views, CallRow, CallRowV, HopV};
use crate::model::{NodeRow, NodeRowV};
use crate::text::{
    chars_of, decimal, join, join_exec, lines, lines_exec, push_all, push_decimal, push_signed,
    signed_decimal, str_views, string_of, views,
};

verus! {

/// Bytes of source shown in a snippet.
pub const SNIPPET_BUDGET: usize = 1600;

/// The typed explore payload; markdown is an adapter over it.
#[derive(Debug, Clone)]
pub struct ExploreView {
    pub node: NodeRow,
    pub snippet: Option<String>,
    pub spine: Vec<String>,
    pub members: Vec<NodeRow>,
    pub heritage: Vec<String>,
    pub blast: Vec<(usize, Vec<String>)>,
    pub callees: Vec<String>,
    pub routes: Vec<String>,
}

// ---------------------------------------------------------------- render ---

pub open spec fn bullets(xs: Seq<Seq<char>>) -> Seq<char>
    decreases xs.len(),
{
    if xs.len() == 0 {
        Seq::empty()
    } else {
        bullets(xs.drop_last()) + "- "@ + xs.last() + "\n"@
    }
}

pub open spec fn header_line(n: NodeRowV) -> Seq<char> {
    "## "@ + n.kind + " `"@ + n.qualified_name + "`  ("@ + n.file_path + ":"@ + signed_decimal(
        n.start_line,
    ) + "-"@ + signed_decimal(n.end_line) + ")"@ + (if n.exported {
        "  [exported]"@
    } else {
        Seq::empty()
    }) + "\n"@
}

pub open spec fn member_lines(ms: Seq<NodeRowV>) -> Seq<char>
    decreases ms.len(),
{
    if ms.len() == 0 {
        Seq::empty()
    } else {
        member_lines(ms.drop_last()) + "- "@ + ms.last().kind + " `"@ + ms.last().name + "`  :"@
            + signed_decimal(ms.last().start_line) + "\n"@
    }
}

pub open spec fn depth_blocks(bs: Seq<(nat, Seq<Seq<char>>)>) -> Seq<char>
    decreases bs.len(),
{
    if bs.len() == 0 {
        Seq::empty()
    } else {
        depth_blocks(bs.drop_last()) + "depth "@ + decimal(bs.last().0) + ":\n"@ + bullets(
            bs.last().1,
        )
    }
}

pub open spec fn no_callers_text() -> Seq<char> {
    "- (no resolved callers — absence ≠ proof; weak/dynamic calls may be missed)\n"@
}

pub open spec fn blast_views(b: Seq<(usize, Vec<String>)>) -> Seq<(nat, Seq<Seq<char>>)> {
    b.map_values(|x: (usize, Vec<String>)| (x.0 as nat, str_views(x.1@)))
}

pub open spec fn member_views(m: Seq<NodeRow>) -> Seq<NodeRowV> {
    m.map_values(|n: NodeRow| n@)
}

pub open spec fn head_spec(v: ExploreView) -> Seq<char> {
    let n = v.node@;
    header_line(n) + (if n.signature.len() == 0 {
        Seq::empty()
    } else {
        "`"@ + n.signature + "`\n"@
    }) + (match v.snippet {
        Some(code) => "\n```\n"@ + code@ + "\n```\n"@,
        None => Seq::empty(),
    })
}

pub open spec fn spine_section(v: ExploreView) -> Seq<char> {
    "\n**call-path spine**\n"@ + (if v.spine@.len() == 0 {
        "- (leaf — no named callees)\n"@
    } else {
        bullets(str_views(v.spine@))
    })
}

pub open spec fn members_section(v: ExploreView) -> Seq<char> {
    if v.members@.len() == 0 {
        Seq::empty()
    } else {
        "\n**members**\n"@ + member_lines(member_views(v.members@))
    }
}

pub open spec fn heritage_section(v: ExploreView) -> Seq<char> {
    if v.heritage@.len() == 0 {
        Seq::empty()
    } else {
        "\n**heritage**\n"@ + bullets(str_views(v.heritage@))
    }
}

pub open spec fn blast_section(v: ExploreView) -> Seq<char> {
    "\n**callers ← (blast radius)**\n"@ + (if v.blast@.len() == 0 {
        no_callers_text()
    } else {
        depth_blocks(blast_views(v.blast@))
    })
}

pub open spec fn calls_section(v: ExploreView) -> Seq<char> {
    "\n**calls →**\n"@ + (if v.callees@.len() == 0 {
        "- (none captured)\n"@
    } else {
        Seq::empty()
    }) + bullets(str_views(v.callees@))
}

pub open spec fn routes_section(v: ExploreView) -> Seq<char> {
    "\n**routes / processes**\n"@ + (if v.routes@.len() == 0 {
        "- (none)\n"@
    } else {
        bullets(str_views(v.routes@))
    })
}

/// The markdown of an explore view: header, signature, snippet, then the
/// spine, members, heritage, blast, calls and routes sections, in that order.
pub open spec fn render_spec(v: ExploreView) -> Seq<char> {
    head_spec(v) + spine_section(v) + members_section(v) + heritage_section(v) + blast_section(v)
        + calls_section(v) + routes_section(v)
}

fn push_str(v: &mut Vec<char>, s: &str)
    ensures
        final(v)@ == old(v)@ + s@,
{
    let c = chars_of(s);
    push_all(v, &c);
}

fn push_bullets(out: &mut Vec<char>, xs: &Vec<String>)
    ensures
        final(out)@ == old(out)@ + bullets(str_views(xs@)),
{
    let ghost start = out@;
    let mut i: usize = 0;
    while i < xs.len()
        invariant
            i <= xs@.len(),
            out@ == start + bullets(str_views(xs@).take(i as int)),
        decreases xs.len() - i,
    {
        assert(str_views(xs@).take(i + 1).drop_last() =~= str_views(xs@).take(i as int));
        assert(str_views(xs@).take(i + 1).last() == xs@[i as int]@);
        push_str(out, "- ");
        push_str(out, xs[i].as_str());
        push_str(out, "\n");
        i += 1;
    }
    assert(str_views(xs@).take(xs.len() as int) =~= str_views(xs@));
}

fn push_header(n: &NodeRow, out: &mut Vec<char>)
    ensures
        final(out)@ == old(out)@ + header_line(n@),
{
    let ghost start = out@;
    push_str(out, "## ");
    push_str(out, n.kind.as_str());
    push_str(out, " `");
    push_str(out, n.qualified_name.as_str());
    push_str(out, "`  (");
    push_str(out, n.file_path.as_str());
    push_str(out, ":");
    push_signed(out, n.start_line);
    push_str(out, "-");
    push_signed(out, n.end_line);
    push_str(out, ")");
    let ghost mid = out@;
    assert(mid =~= start + ("## "@ + n.kind@ + " `"@ + n.qualified_name@ + "`  ("@ + n.file_path@
        + ":"@ + signed_decimal(n.start_line as int) + "-"@ + signed_decimal(n.end_line as int)
        + ")"@));
    if n.exported {
        push_str(out, "  [exported]");
    }
    push_str(out, "\n");
    assert(out@ =~= start + header_line(n@));
}

#[verifier::rlimit(30)]
fn render_head(v: &ExploreView, out: &mut Vec<char>)
    ensures
        final(out)@ == old(out)@ + head_spec(*v),
{
    let ghost start = out@;
    let n = &v.node;
    push_header(n, out);
    let ghost a = out@;
    if chars_of(n.signature.as_str()).len() > 0 {
        push_str(out, "`");
        push_str(out, n.signature.as_str());
        push_str(out, "`\n");
        assert(out@ =~= a + ("`"@ + n.signature@ + "`\n"@));
    }
    let ghost b = out@;
    match &v.snippet {
        Some(code) => {
            push_str(out, "\n```\n");
            push_str(out, code.as_str());
            push_str(out, "\n```\n");
            assert(out@ =~= b + ("\n```\n"@ + code@ + "\n```\n"@));
        },
        None => {},
    }
    assert(out@ =~= start + head_spec(*v));
}

fn render_spine(v: &ExploreView, out: &mut Vec<char>)
    ensures
        final(out)@ == old(out)@ + spine_section(*v),
{
    push_str(out, "\n**call-path spine**\n");
    if v.spine.len() == 0 {
        push_str(out, "- (leaf — no named callees)\n");
    } else {
        push_bullets(out, &v.spine);
    }
}

fn render_members(v: &ExploreView, out: &mut Vec<char>)
    ensures
        final(out)@ == old(out)@ + members_section(*v),
{
    if v.members.len() > 0 {
        push_str(out, "\n**members**\n");
        let ghost start = out@;
        let ghost mv = member_views(v.members@);
        let mut i: usize = 0;
        while i < v.members.len()
            invariant
                i <= v.members@.len(),
                mv == member_views(v.members@),
                out@ == start + member_lines(mv.take(i as int)),
            decreases v.members.len() - i,
        {
            assert(mv.take(i + 1).drop_last() =~= mv.take(i as int));
            assert(mv.take(i + 1).last() == v.members@[i as int]@);
            let m = &v.members[i];
            push_str(out, "- ");
            push_str(out, m.kind.as_str());
            push_str(out, " `");
            push_str(out, m.name.as_str());
            push_str(out, "`  :");
            push_signed(out, m.start_line);
            push_str(out, "\n");
            i += 1;
        }
        assert(mv.take(v.members.len() as int) =~= mv);
    }
}

fn render_blast(v: &ExploreView, out: &mut Vec<char>)
    ensures
        final(out)@ == old(out)@ + blast_section(*v),
{
    push_str(out, "\n**callers ← (blast radius)**\n");
    if v.blast.len() == 0 {
        push_str(out, "- (no resolved callers — absence ≠ proof; weak/dynamic calls may be missed)\n");
    } else {
        let ghost start = out@;
        let ghost bv = blast_views(v.blast@);
        let mut i: usize = 0;
        while i < v.blast.len()
            invariant
                i <= v.blast@.len(),
                bv == blast_views(v.blast@),
                out@ == start + depth_blocks(bv.take(i as int)),
            decreases v.blast.len() - i,
        {
            assert(bv.take(i + 1).drop_last() =~= bv.take(i as int));
            assert(bv.take(i + 1).last() == bv[i as int]);
            let (d, rows) = &v.blast[i];
            push_str(out, "depth ");
            push_decimal(out, *d as u64);
            push_str(out, ":\n");
            push_bullets(out, rows);
            i += 1;
        }
        assert(bv.take(v.blast.len() as int) =~= bv);
    }
}

/// Markdown adapter over an explore view, in the frozen section order.
#[verifier::rlimit(60)]
#[verifier::spinoff_prover]
pub fn render_view(v: &ExploreView) -> (r: String)
    ensures
        r@ == render_spec(*v),
{
    let mut out: Vec<char> = Vec::new();
    render_head(v, &mut out);
    render_spine(v, &mut out);
    render_members(v, &mut out);
    let ghost a = out@;
    if v.heritage.len() > 0 {
        push_str(&mut out, "\n**heritage**\n");
        push_bullets(&mut out, &v.heritage);
    }
    assert(out@ =~= a + heritage_section(*v));
    render_blast(v, &mut out);
    let ghost b = out@;
    push_str(&mut out, "\n**calls →**\n");
    if v.callees.len() == 0 {
        push_str(&mut out, "- (none captured)\n");
    }
    push_bullets(&mut out, &v.callees);
    assert(out@ =~= b + calls_section(*v));
    let ghost c = out@;
    push_str(&mut out, "\n**routes / processes**\n");
    if v.routes.len() == 0 {
        push_str(&mut out, "- (none)\n");
    } else {
        push_bullets(&mut out, &v.routes);
    }
    assert(out@ =~= c + routes_section(*v));
    assert(out@ =~= render_spec(*v));
    string_of(&out)
}

// ---------------------------------------------------------------- budget ---

/// Bytes of a character in UTF-8.
pub open spec fn utf8_len(c: char) -> nat {
    if (c as u32) < 0x80 {
        1
    } else if (c as u32) < 0x800 {
        2
    } else if (c as u32) < 0x10000 {
        3
    } else {
        4
    }
}

/// Bytes of a text in UTF-8.
pub open spec fn byte_len(s: Seq<char>) -> nat
    decreases s.len(),
{
    if s.len() == 0 {
        0
    } else {
        byte_len(s.drop_last()) + utf8_len(s.last())
    }
}

/// How many characters from `k` on still fit in `max` bytes, `used` being
/// spent already: the cut lands on a character boundary.
pub open spec fn fitting(s: Seq<char>, max: nat, k: int, used: nat) -> int
    decreases s.len() - k,
{
    if k < 0 || k >= s.len() || used + utf8_len(s[k]) > max {
        k
    } else {
        fitting(s, max, k + 1, used + utf8_len(s[k]))
    }
}

/// `s` when it fits in `max` bytes, else its longest prefix that does plus a
/// truncation note.
pub open spec fn budget_spec(s: Seq<char>, max: nat) -> Seq<char> {
    if byte_len(s) <= max {
        s
    } else {
        s.take(fitting(s, max, 0, 0)) + "\n… [truncated to "@ + decimal(max) + " bytes]"@
    }
}

pub(crate) fn utf8_len_exec(c: char) -> (r: u128)
    ensures
        r == utf8_len(c),
{
    let v = c as u32;
    if v < 0x80 {
        1
    } else if v < 0x800 {
        2
    } else if v < 0x10000 {
        3
    } else {
        4
    }
}

proof fn lemma_byte_len_take(s: Seq<char>, k: int)
    requires
        0 <= k < s.len(),
    ensures
        byte_len(s.take(k + 1)) == byte_len(s.take(k)) + utf8_len(s[k]),
{
    assert(s.take(k + 1).drop_last() =~= s.take(k));
}

/// Cut `s` to at most `max` UTF-8 bytes on a character boundary, noting the
/// truncation.
pub fn budget(s: &str, max: usize) -> (r: String)
    ensures
        r@ == budget_spec(s@, max as nat),
{
    let v = chars_of(s);
    // total bytes, capped just above max
    let mut total: u128 = 0;
    let mut i: usize = 0;
    let mut over = false;
    while i < v.len() && !over
        invariant
            i <= v@.len(),
            v@ == s@,
            !over ==> total == byte_len(v@.take(i as int)) && total <= max,
            over ==> byte_len(v@) > max,
        decreases v.len() - i + (if over {
            0int
        } else {
            1int
        }),
    {
        proof {
            lemma_byte_len_take(v@, i as int);
        }
        let c = utf8_len_exec(v[i]);
        if total + c > max as u128 {
            proof {
                lemma_byte_len_mono(v@, i + 1);
            }
            over = true;
        } else {
            total = total + c;
            i += 1;
        }
    }
    if !over {
        assert(v@.take(v.len() as int) =~= v@);
        return string_of(&v);
    }
    // longest prefix that fits
    let mut k: usize = 0;
    let mut used: u128 = 0;
    while k < v.len() && used + utf8_len_exec(v[k]) <= max as u128
        invariant
            k <= v@.len(),
            v@ == s@,
            used <= max,
            fitting(v@, max as nat, 0, 0) == fitting(v@, max as nat, k as int, used as nat),
        decreases v.len() - k,
    {
        used = used + utf8_len_exec(v[k]);
        k += 1;
    }
    let mut out = crate::text::slice_of(&v, 0, k);
    push_str(&mut out, "\n… [truncated to ");
    push_decimal(&mut out, max as u64);
    push_str(&mut out, " bytes]");
    string_of(&out)
}

proof fn lemma_byte_len_mono(s: Seq<char>, k: int)
    requires
        0 <= k <= s.len(),
    ensures
        byte_len(s.take(k)) <= byte_len(s),
    decreases s.len() - k,
{
    if k < s.len() {
        lemma_byte_len_take(s, k);
        lemma_byte_len_mono(s, k + 1);
    } else {
        assert(s.take(k) =~= s);
    }
}

// ---------------------------------------------------------- line window ---

/// Lines `start..=end` (1-based) of a source text, joined with newlines; a
/// negative end reaches the last line.
pub open spec fn line_window_spec(src: Seq<char>, start: int, end: int) -> Seq<char> {
    let ls = lines(src);
    let s = (if start > 1 {
        start
    } else {
        1
    }) - 1;
    let m = if end > start {
        end
    } else {
        start
    };
    let rest = if s < ls.len() {
        ls.skip(s)
    } else {
        Seq::empty()
    };
    let taken = if m < 0 {
        rest
    } else if m - s <= 0 {
        Seq::empty()
    } else if m - s < rest.len() {
        rest.take(m - s)
    } else {
        rest
    };
    join(taken, "\n"@)
}

/// The snippet lines of a symbol, from the file's text.
pub fn line_window(src: &str, start: i64, end: i64) -> (r: String)
    ensures
        r@ == line_window_spec(src@, start as int, end as int),
{
    let v = chars_of(src);
    let ls = lines_exec(&v);
    let s: i64 = (if start > 1 {
        start
    } else {
        1
    }) - 1;
    let m: i64 = if end > start {
        end
    } else {
        start
    };
    let mut taken: Vec<Vec<char>> = Vec::new();
    let mut i: usize = if (s as i128) < (ls.len() as i128) {
        s as usize
    } else {
        ls.len()
    };
    let first = i;
    let limit: usize = if m < 0 {
        ls.len()
    } else if (m as i128) - (s as i128) <= 0 {
        first
    } else if ((m as i128) - (s as i128)) < ((ls.len() - first) as i128) {
        first + ((m - s) as usize)
    } else {
        ls.len()
    };
    let ghost rest = if (s as int) < ls@.len() {
        views(ls@).skip(s as int)
    } else {
        Seq::empty()
    };
    assert(rest =~= views(ls@).skip(first as int));
    while i < limit
        invariant
            first <= i <= limit <= ls@.len(),
            views(taken@) == views(ls@).subrange(first as int, i as int),
        decreases limit - i,
    {
        let ghost t0 = views(taken@);
        let c = crate::text::slice_of(&ls[i], 0, ls[i].len());
        assert(c@ =~= ls@[i as int]@);
        taken.push(c);
        assert(views(taken@) =~= t0.push(ls@[i as int]@));
        assert(views(ls@).subrange(first as int, i + 1) =~= views(ls@).subrange(first as int, i as int).push(
            ls@[i as int]@,
        ));
        i += 1;
    }
    let nl = chars_of("\n");
    proof {
        let want = line_window_spec(src@, start as int, end as int);
        assert(views(taken@) =~= (if (m as int) < 0 {
            rest
        } else if (m as int) - (s as int) <= 0 {
            Seq::empty()
        } else if (m as int) - (s as int) < rest.len() {
            rest.take((m as int) - (s as int))
        } else {
            rest
        }));
    }
    let j = join_exec(&taken, &nl);
    string_of(&j)
}

// ----------------------------------------------------------- blast rows ---

pub open spec fn weak_mark(conf: Seq<char>) -> Seq<char> {
    if conf == "weak"@ {
        "  ⟨weak⟩"@
    } else {
        Seq::empty()
    }
}

/// One caller row: who calls, where, and why (weak calls marked).
pub open spec fn hop_line(h: HopV) -> Seq<char> {
    let who = match h.node {
        Some(n) => n.qualified_name,
        None => "<module>"@,
    };
    who + "  "@ + h.file_path + ":"@ + signed_decimal(h.line) + "  ["@ + h.reason + "]"@ + weak_mark(
        h.conf,
    )
}

/// Caller rows grouped by depth, each depth at its first appearance.
pub open spec fn depth_buckets(hs: Seq<HopV>) -> Seq<(nat, Seq<Seq<char>>)>
    decreases hs.len(),
{
    if hs.len() == 0 {
        Seq::empty()
    } else {
        let bs = depth_buckets(hs.drop_last());
        let h = hs.last();
        if exists|k: int| 0 <= k < bs.len() && #[trigger] bs[k].0 == h.depth {
            let k = choose|k: int| 0 <= k < bs.len() && #[trigger] bs[k].0 == h.depth;
            bs.update(k, (h.depth, bs[k].1.push(hop_line(h))))
        } else {
            bs.push((h.depth, seq![hop_line(h)]))
        }
    }
}

/// Depths of the buckets are distinct.
pub open spec fn distinct_depths(bs: Seq<(nat, Seq<Seq<char>>)>) -> bool {
    forall|a: int, b: int| 0 <= a < b < bs.len() ==> #[trigger] bs[a].0 != #[trigger] bs[b].0
}

proof fn lemma_buckets_distinct(hs: Seq<HopV>)
    ensures
        distinct_depths(depth_buckets(hs)),
    decreases hs.len(),
{
    if hs.len() > 0 {
        lemma_buckets_distinct(hs.drop_last());
        let bs = depth_buckets(hs.drop_last());
        let h = hs.last();
        if exists|k: int| 0 <= k < bs.len() && #[trigger] bs[k].0 == h.depth {
            let k = choose|k: int| 0 <= k < bs.len() && #[trigger] bs[k].0 == h.depth;
            let nb = bs.update(k, (h.depth, bs[k].1.push(hop_line(h))));
            assert forall|a: int, b: int| 0 <= a < b < nb.len() implies #[trigger] nb[a].0 != #[trigger] nb[b].0 by {
                assert(nb[a].0 == bs[a].0);
                assert(nb[b].0 == bs[b].0);
            }
        } else {
            let nb = bs.push((h.depth, seq![hop_line(h)]));
            assert forall|a: int, b: int| 0 <= a < b < nb.len() implies #[trigger] nb[a].0 != #[trigger] nb[b].0 by {
                if b == bs.len() {
                    assert(nb[a] == bs[a]);
                } else {
                    assert(nb[a] == bs[a]);
                    assert(nb[b] == bs[b]);
                }
            }
        }
    }
}

fn hop_line_exec(h: &crate::blast::Hop) -> (r: String)
    ensures
        r@ == hop_line(h@),
{
    let mut out: Vec<char> = Vec::new();
    match &h.node {
        Some(n) => push_str(&mut out, n.qualified_name.as_str()),
        None => push_str(&mut out, "<module>"),
    }
    push_str(&mut out, "  ");
    push_str(&mut out, h.file_path.as_str());
    push_str(&mut out, ":");
    push_signed(&mut out, h.line);
    push_str(&mut out, "  [");
    push_str(&mut out, h.reason.as_str());
    push_str(&mut out, "]");
    if crate::text::text_is(h.conf.as_str(), "weak") {
        push_str(&mut out, "  ⟨weak⟩");
    }
    string_of(&out)
}

/// The callers of `id` by depth, up to `max` hops, from the `calls` rows.
pub fn blast_by_depth(rows: &[CallRow], nodes: &[NodeRow], id: &str, max: usize) -> (r: Vec<(usize, Vec<String>)>)
    ensures
        blast_views(r@) == depth_buckets(blast_spec(row_views(rows@), node_views(nodes@), seq![id@], max as nat)),
{
    let seeds: Vec<&str> = vec![id];
    assert(seeds@.map_values(|x: &str| x@) =~= seq![id@]);
    let hops = from_ids(rows, nodes, seeds.as_slice(), max);
    let ghost hv = hop_views(hops@);
    let mut buckets: Vec<(usize, Vec<String>)> = Vec::new();
    let mut i: usize = 0;
    while i < hops.len()
        invariant
            i <= hops@.len(),
            hv == hop_views(hops@),
            blast_views(buckets@) == depth_buckets(hv.take(i as int)),
        decreases hops.len() - i,
    {
        let h = &hops[i];
        assert(hv.take(i + 1).drop_last() =~= hv.take(i as int));
        assert(hv.take(i + 1).last() == h@);
        let line = hop_line_exec(h);
        let ghost bs = blast_views(buckets@);
        let mut k: usize = 0;
        let mut found = false;
        while k < buckets.len() && !found
            invariant
                k <= buckets@.len(),
                bs == blast_views(buckets@),
                !found ==> forall|q: int| 0 <= q < k ==> #[trigger] bs[q].0 != h@.depth,
                found ==> k < buckets@.len() && bs[k as int].0 == h@.depth && forall|q: int|
                    0 <= q < k ==> #[trigger] bs[q].0 != h@.depth,
            decreases buckets.len() - k + (if found {
                0int
            } else {
                1int
            }),
        {
            assert(bs[k as int].0 == buckets@[k as int].0 as nat);
            if buckets[k].0 == h.depth {
                found = true;
            } else {
                k += 1;
            }
        }
        proof {
            lemma_buckets_distinct(hv.take(i as int));
        }
        if found {
            let ghost lv = line@;
            let (d, mut rs) = buckets.remove(k);
            let ghost r0 = str_views(rs@);
            rs.push(line);
            assert(str_views(rs@) =~= r0.push(lv));
            buckets.insert(k, (d, rs));
            proof {
                let kk = choose|q: int| 0 <= q < bs.len() && #[trigger] bs[q].0 == h@.depth;
                assert(kk == k as int) by {
                    if kk != k as int {
                        if kk < k {
                        } else {
                            assert(bs[k as int].0 == bs[kk].0);
                        }
                    }
                }
            }
            assert(blast_views(buckets@) =~= bs.update(k as int, (h@.depth, bs[k as int].1.push(hop_line(h@)))));
        } else {
            let ghost lv = line@;
            let mut rs: Vec<String> = Vec::new();
            rs.push(line);
            assert(str_views(rs@) =~= seq![lv]);
            buckets.push((h.depth, rs));
            assert(blast_views(buckets@) =~= bs.push((h@.depth, seq![hop_line(h@)])));
        }
        i += 1;
    }
    assert(hv.take(hops.len() as int) =~= hv);
    buckets
}

// ------------------------------------------------------------ edge lines ---

/// A callee row: its target (or the raw name in backticks), the reason, and
/// a mark for unresolved or weak edges.
pub fn callee_line(target_qn: Option<(String, String, i64)>, raw: &str, resolved: bool, conf: &str, reason: &str) -> (r: String)
    ensures
        r@ == (match target_qn {
            Some(t) => t.0@ + " ("@ + t.1@ + ":"@ + signed_decimal(t.2 as int) + ")"@,
            None => "`"@ + raw@ + "`"@,
        }) + "  ["@ + reason@ + "]"@ + (if !resolved {
            "  ⟨unresolved⟩"@
        } else if conf@ == "weak"@ {
            "  ⟨weak⟩"@
        } else {
            Seq::empty()
        }),
{
    let mut out: Vec<char> = Vec::new();
    match &target_qn {
        Some((qn, file, line)) => {
            push_str(&mut out, qn.as_str());
            push_str(&mut out, " (");
            push_str(&mut out, file.as_str());
            push_str(&mut out, ":");
            push_signed(&mut out, *line);
            push_str(&mut out, ")");
        },
        None => {
            push_str(&mut out, "`");
            push_str(&mut out, raw);
            push_str(&mut out, "`");
        },
    }
    push_str(&mut out, "  [");
    push_str(&mut out, reason);
    push_str(&mut out, "]");
    if !resolved {
        push_str(&mut out, "  ⟨unresolved⟩");
    } else if crate::text::text_is(conf, "weak") {
        push_str(&mut out, "  ⟨weak⟩");
    }
    string_of(&out)
}

/// A heritage row: kind, target (resolved name or raw), reason, weak mark.
pub fn heritage_line(kind: &str, target: &str, conf: &str, reason: &str) -> (r: String)
    ensures
        r@ == kind@ + " "@ + target@ + "  ["@ + reason@ + "]"@ + weak_mark(conf@),
{
    let mut out: Vec<char> = Vec::new();
    push_str(&mut out, kind);
    push_str(&mut out, " ");
    push_str(&mut out, target);
    push_str(&mut out, "  [");
    push_str(&mut out, reason);
    push_str(&mut out, "]");
    if crate::text::text_is(conf, "weak") {
        push_str(&mut out, "  ⟨weak⟩");
    }
    string_of(&out)
}

/// A route / process / community row.
pub fn route_line(kind: &str, qn: &str, file: &str, line: i64) -> (r: String)
    ensures
        r@ == kind@ + "  "@ + qn@ + "  "@ + file@ + ":"@ + signed_decimal(line as int),
{
    let mut out: Vec<char> = Vec::new();
    push_str(&mut out, kind);
    push_str(&mut out, "  ");
    push_str(&mut out, qn);
    push_str(&mut out, "  ");
    push_str(&mut out, file);
    push_str(&mut out, ":");
    push_signed(&mut out, line);
    string_of(&out)
}


// ---------------------------------------------------------------- spine ---

/// Hops a call-path spine follows at most.
pub const SPINE_HOPS: usize = 4;

/// What the graph says about the first call (by line) of the current node.
pub struct SpineHop {
    /// Target symbol id, when the call is bound.
    pub dst: Option<String>,
    /// The name at the call site.
    pub raw: String,
    pub resolved: bool,
    /// The target symbol's qualified name, when it is in the graph.
    pub dst_name: Option<String>,
}

/// The walk along first calls from a symbol: the hops so far, the node to
/// continue from, the nodes seen, how many unnamed hops were taken, how
/// many lookups were made, and whether it has stopped.
pub struct SpineWalk {
    pub path: Vec<String>,
    pub cur: String,
    pub seen: Vec<String>,
    pub unnamed: usize,
    pub steps: usize,
    pub done: bool,
}

impl SpineWalk {
    /// At most four lookups, at most one unnamed hop, one entry per
    /// lookup that went on, and no node entered twice.
    pub open spec fn wf(&self) -> bool {
        &&& self.steps <= SPINE_HOPS
        &&& self.unnamed <= 1
        &&& self.path@.len() <= self.steps
        &&& str_views(self.seen@).contains(self.cur@)
        &&& forall|i: int, j: int|
            0 <= i < j < self.seen@.len() ==> (#[trigger] self.seen@[i])@ != (#[trigger] self.seen@[j])@
    }

    /// A walk starting at `id`.
    pub fn new(id: &str) -> (w: SpineWalk)
        ensures
            w.wf(),
            w.cur@ == id@,
            str_views(w.seen@) == seq![id@],
            w.path@.len() == 0,
            w.unnamed == 0,
            w.steps == 0,
            !w.done,
    {
        let mut seen: Vec<String> = Vec::new();
        seen.push(owned_str(id));
        let w = SpineWalk { path: Vec::new(), cur: owned_str(id), seen, unnamed: 0, steps: 0, done: false };
        assert(str_views(w.seen@) =~= seq![id@]);
        assert(str_views(w.seen@)[0] == w.cur@);
        w
    }

    /// The node whose first call is to be looked up next; none once the
    /// walk has stopped or made its four lookups.
    pub fn next_query(&self) -> (r: Option<String>)
        ensures
            match r {
                Some(c) => !self.done && self.steps < SPINE_HOPS && c@ == self.cur@,
                None => self.done || self.steps >= SPINE_HOPS,
            },
    {
        if self.done || self.steps >= SPINE_HOPS {
            None
        } else {
            Some(owned_str(self.cur.as_str()))
        }
    }

    /// Take the looked-up first call: none stops the walk; an unnamed hop
    /// (unbound, unresolved, or to a `<…>` symbol) beyond the first stops
    /// it; otherwise the hop is recorded as `label  \`raw\`` and the walk
    /// moves to the target unless there is none or it was seen before.
    pub fn step(&mut self, hop: Option<SpineHop>)
        requires
            old(self).wf(),
            !old(self).done,
            old(self).steps < SPINE_HOPS,
        ensures
            final(self).wf(),
            final(self).steps == old(self).steps + 1,
            match hop {
                None => final(self).done && final(self).path@ == old(self).path@,
                Some(h) => {
                    let label = spine_label(h.dst_name, h.raw@);
                    let unnamed_hop = h.dst is None || !h.resolved || (label.len() > 0 && label[0] == '<');
                    if unnamed_hop && old(self).unnamed >= 1 {
                        final(self).done && final(self).path@ == old(self).path@
                    } else {
                        &&& str_views(final(self).path@) == str_views(old(self).path@).push(
                            label + "  `"@ + h.raw@ + "`"@,
                        )
                        &&& final(self).unnamed == old(self).unnamed + if unnamed_hop { 1nat } else { 0nat }
                        &&& match h.dst {
                            Some(d) => if str_views(old(self).seen@).contains(d@) {
                                final(self).done
                            } else {
                                !final(self).done && final(self).cur@ == d@ && str_views(final(self).seen@)
                                    == str_views(old(self).seen@).push(d@)
                            },
                            None => final(self).done,
                        }
                    }
                },
            },
    {
        self.steps = self.steps + 1;
        let h = match hop {
            None => {
                self.done = true;
                return;
            },
            Some(h) => h,
        };
        let label = match &h.dst_name {
            Some(n) => owned_str(n.as_str()),
            None => owned_str(h.raw.as_str()),
        };
        let lv = chars_of(label.as_str());
        let unnamed_hop = h.dst.is_none() || !h.resolved || (lv.len() > 0 && lv[0] == '<');
        if unnamed_hop {
            if self.unnamed >= 1 {
                self.done = true;
                return;
            }
            self.unnamed = self.unnamed + 1;
        }
        let mut entry = lv;
        push_str(&mut entry, "  `");
        let rv = chars_of(h.raw.as_str());
        push_all(&mut entry, &rv);
        push_str(&mut entry, "`");
        let ghost p0 = str_views(self.path@);
        self.path.push(string_of(&entry));
        assert(str_views(self.path@) =~= p0.push(label@ + "  `"@ + h.raw@ + "`"@));
        match h.dst {
            Some(d) => {
                let mut k: usize = 0;
                let mut found = false;
                while k < self.seen.len() && !found
                    invariant
                        k <= self.seen@.len(),
                        found == (exists|j: int| 0 <= j < k && (#[trigger] self.seen@[j])@ == d@),
                    decreases self.seen.len() - k,
                {
                    if text_is_str(self.seen[k].as_str(), d.as_str()) {
                        found = true;
                    }
                    k += 1;
                }
                if found {
                    proof {
                        let j = choose|j: int| 0 <= j < k && (#[trigger] self.seen@[j])@ == d@;
                        assert(str_views(self.seen@)[j] == d@);
                    }
                    self.done = true;
                } else {
                    assert(forall|j: int| 0 <= j < self.seen@.len() ==> (#[trigger] self.seen@[j])@ != d@);
                    assert(!str_views(self.seen@).contains(d@));
                    let ghost s0 = str_views(self.seen@);
                    self.seen.push(owned_str(d.as_str()));
                    assert(str_views(self.seen@) =~= s0.push(d@));
                    self.cur = d;
                    assert(str_views(self.seen@)[self.seen@.len() - 1] == self.cur@);
                }
            },
            None => {
                self.done = true;
            },
        }
    }

    /// The spine: `start → hop → …` when any hop was taken, else none.
    pub fn finish(&self, start_label: &str) -> (r: Vec<String>)
        ensures
            str_views(r@) == if self.path@.len() == 0 {
                Seq::<Seq<char>>::empty()
            } else {
                seq![start_label@ + " → "@ + join(str_views(self.path@), " → "@)]
            },
    {
        let mut out: Vec<String> = Vec::new();
        if self.path.len() == 0 {
            assert(str_views(out@) =~= Seq::<Seq<char>>::empty());
            return out;
        }
        let mut parts: Vec<Vec<char>> = Vec::new();
        let mut i: usize = 0;
        while i < self.path.len()
            invariant
                i <= self.path@.len(),
                views(parts@) == str_views(self.path@).take(i as int),
            decreases self.path.len() - i,
        {
            let ghost p0 = views(parts@);
            parts.push(chars_of(self.path[i].as_str()));
            assert(views(parts@) =~= p0.push(self.path@[i as int]@));
            assert(str_views(self.path@).take(i + 1) =~= str_views(self.path@).take(i as int).push(self.path@[i as int]@));
            i += 1;
        }
        assert(str_views(self.path@).take(i as int) =~= str_views(self.path@));
        let sep = chars_of(" → ");
        let joined = join_exec(&parts, sep.as_slice());
        let mut line = chars_of(start_label);
        push_str(&mut line, " → ");
        push_all(&mut line, &joined);
        out.push(string_of(&line));
        assert(str_views(out@) =~= seq![start_label@ + " → "@ + join(str_views(self.path@), " → "@)]);
        out
    }
}

/// The label of a hop: the target's qualified name, else the call-site name.
pub open spec fn spine_label(dst_name: Option<String>, raw: Seq<char>) -> Seq<char> {
    match dst_name {
        Some(n) => n@,
        None => raw,
    }
}

fn owned_str(s: &str) -> (r: String)
    ensures
        r@ == s@,
{
    let v = chars_of(s);
    string_of(&v)
}

fn text_is_str(a: &str, b: &str) -> (r: bool)
    ensures
        r == (a@ == b@),
{
    crate::text::text_is(a, b)
}

// ------------------------------------------------------------------ laws ---

proof fn lemma_fitting_is_longest(s: Seq<char>, max: nat, k: int, used: nat)
    requires
        0 <= k <= s.len(),
        used == byte_len(s.take(k)),
        used <= max,
    ensures
        k <= fitting(s, max, k, used) <= s.len(),
        byte_len(s.take(fitting(s, max, k, used))) <= max,
        fitting(s, max, k, used) < s.len() ==> byte_len(s.take(fitting(s, max, k, used) + 1)) > max,
    decreases s.len() - k,
{
    if k < s.len() {
        lemma_byte_len_take(s, k);
        if used + utf8_len(s[k]) <= max {
            lemma_fitting_is_longest(s, max, k + 1, used + utf8_len(s[k]));
        }
    }
}

/// A budgeted snippet is the text itself when it fits; otherwise it keeps the
/// longest whole-character prefix that fits in `max` UTF-8 bytes, followed by
/// the truncation note — it never splits a character and never drops a
/// character that would have fit.
pub proof fn lemma_budget_keeps_longest_fitting_prefix(s: Seq<char>, max: nat)
    ensures
        byte_len(s) <= max ==> budget_spec(s, max) == s,
        byte_len(s) > max ==> exists|k: int|
            0 <= k < s.len() && byte_len(#[trigger] s.take(k)) <= max && byte_len(s.take(k + 1)) > max
                && budget_spec(s, max) == s.take(k) + "\n… [truncated to "@ + decimal(max) + " bytes]"@,
{
    if byte_len(s) > max {
        assert(s.take(0) =~= Seq::<char>::empty());
        lemma_fitting_is_longest(s, max, 0, 0);
        let k = fitting(s, max, 0, 0);
        assert(s.take(s.len() as int) =~= s);
        assert(k < s.len());
        assert(byte_len(s.take(k)) <= max);
    }
}


/// Weak is labeled: a caller row or a heritage row of a weak edge always ends
/// with the weak mark, and a strong one never carries it.
pub proof fn lemma_weak_edges_stay_marked(h: HopV, kind: Seq<char>, target: Seq<char>, conf: Seq<char>, reason: Seq<char>)
    ensures
        h.conf == "weak"@ ==> crate::text::has_suffix(hop_line(h), "  ⟨weak⟩"@),
        conf == "weak"@ ==> crate::text::has_suffix(
            kind + " "@ + target + "  ["@ + reason + "]"@ + weak_mark(conf),
            "  ⟨weak⟩"@,
        ),
        conf != "weak"@ ==> weak_mark(conf).len() == 0,
{
    let m = "  ⟨weak⟩"@;
    let who = match h.node {
        Some(n) => n.qualified_name,
        None => "<module>"@,
    };
    let l = hop_line(h);
    if h.conf == "weak"@ {
        let pre = who + "  "@ + h.file_path + ":"@ + signed_decimal(h.line) + "  ["@ + h.reason + "]"@;
        assert(l == pre + m);
        assert(l.subrange(l.len() - m.len(), l.len() as int) =~= m);
    }
    if conf == "weak"@ {
        let x = kind + " "@ + target + "  ["@ + reason + "]"@ + weak_mark(conf);
        assert(x.subrange(x.len() - m.len(), x.len() as int) =~= m);
    }
}

} // verus!
