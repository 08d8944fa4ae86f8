//! Three orthogonal axes of how far an answer can be trusted — freshness,
//! coverage and resolve quality — rendered as the first line of every
//! payload, and folded worst-wins across the repos of a group.

use vstd::prelude::*;
use crate::text::{
    append_str, chars_of, decimal, push_decimal, push_signed, signed_decimal, split_char,
    string_of, text_is, trim_end_exec, trim_end_ws,
};

verus! {

pub struct Trust {
    /// fresh | stale | rebuilding | missing (indexed HEAD vs current HEAD)
    pub trust: String,
    /// exhaustive | sampled
    pub coverage: String,
    /// ok | partial (in-repo bind rate, not freshness)
    pub resolve: String,
    pub files: i64,
    pub nodes: i64,
    pub edges: i64,
}

pub ghost struct TrustV {
    pub trust: Seq<char>,
    pub coverage: Seq<char>,
    pub resolve: Seq<char>,
    pub files: int,
    pub nodes: int,
    pub edges: int,
}

impl View for Trust {
    type V = TrustV;

    open spec fn view(&self) -> TrustV {
        TrustV {
            trust: self.trust@,
            coverage: self.coverage@,
            resolve: self.resolve@,
            files: self.files as int,
            nodes: self.nodes as int,
            edges: self.edges as int,
        }
    }
}

pub open spec fn trust_views(v: Seq<Trust>) -> Seq<TrustV> {
    v.map_values(|t: Trust| t@)
}

// ----------------------------------------------------------------- specs ---

/// The freshness axis. No files → `missing`; an interrupted rebuild →
/// `rebuilding`; in a git repo, `fresh` only when the indexed HEAD is the
/// current HEAD (no recorded head cannot be proved fresh); outside git the
/// index is trusted.
pub open spec fn freshness_spec(
    files: int,
    state: Seq<char>,
    indexed: Option<Seq<char>>,
    head: Option<Seq<char>>,
) -> Seq<char> {
    if files == 0 {
        "missing"@
    } else if state == "rebuilding"@ {
        "rebuilding"@
    } else {
        match (indexed, head) {
            (Some(a), Some(b)) => if a != b {
                "stale"@
            } else {
                "fresh"@
            },
            (None, Some(_)) => "stale"@,
            _ => "fresh"@,
        }
    }
}

/// The resolve axis: `ok` when nothing is in scope or at least three in five
/// in-scope edges resolved.
pub open spec fn resolve_label_spec(in_scope: int, resolved: int) -> Seq<char> {
    if in_scope == 0 || (in_scope > 0 && 5 * resolved >= 3 * in_scope) || (in_scope < 0 && 5
        * resolved <= 3 * in_scope) {
        "ok"@
    } else {
        "partial"@
    }
}

/// Worst-wins rank of a freshness value.
pub open spec fn trust_rank_spec(s: Seq<char>) -> int {
    if s == "fresh"@ {
        0
    } else if s == "stale"@ {
        1
    } else if s == "rebuilding"@ {
        2
    } else {
        3
    }
}

/// The freshness value of the worst-ranked member; among equally bad ones the
/// last wins.
pub open spec fn worst_of(ts: Seq<TrustV>) -> Seq<char>
    decreases ts.len(),
{
    if ts.len() == 0 {
        "missing"@
    } else if ts.len() == 1 {
        ts[0].trust
    } else {
        let w = worst_of(ts.drop_last());
        if trust_rank_spec(ts.last().trust) >= trust_rank_spec(w) {
            ts.last().trust
        } else {
            w
        }
    }
}

pub open spec fn sum_files(ts: Seq<TrustV>) -> int
    decreases ts.len(),
{
    if ts.len() == 0 {
        0
    } else {
        sum_files(ts.drop_last()) + ts.last().files
    }
}

pub open spec fn sum_nodes(ts: Seq<TrustV>) -> int
    decreases ts.len(),
{
    if ts.len() == 0 {
        0
    } else {
        sum_nodes(ts.drop_last()) + ts.last().nodes
    }
}

pub open spec fn sum_edges(ts: Seq<TrustV>) -> int
    decreases ts.len(),
{
    if ts.len() == 0 {
        0
    } else {
        sum_edges(ts.drop_last()) + ts.last().edges
    }
}

pub open spec fn in_i64(x: int) -> bool {
    i64::MIN <= x <= i64::MAX
}

/// Every running total of the three counts stays an `i64`.
pub open spec fn sums_fit(ts: Seq<TrustV>) -> bool {
    forall|k: int|
        0 <= k <= ts.len() ==> in_i64(#[trigger] sum_files(ts.take(k))) && in_i64(
            sum_nodes(ts.take(k)),
        ) && in_i64(sum_edges(ts.take(k)))
}

pub open spec fn missing_spec() -> TrustV {
    TrustV {
        trust: "missing"@,
        coverage: "exhaustive"@,
        resolve: "ok"@,
        files: 0,
        nodes: 0,
        edges: 0,
    }
}

/// Counts sum; each axis takes the worst member value; no members → missing.
pub open spec fn merge_spec(ts: Seq<TrustV>) -> TrustV {
    if ts.len() == 0 {
        missing_spec()
    } else {
        TrustV {
            trust: worst_of(ts),
            coverage: if exists|i: int| 0 <= i < ts.len() && #[trigger] ts[i].coverage
                != "exhaustive"@ {
                "sampled"@
            } else {
                "exhaustive"@
            },
            resolve: if exists|i: int| 0 <= i < ts.len() && #[trigger] ts[i].resolve != "ok"@ {
                "partial"@
            } else {
                "ok"@
            },
            files: sum_files(ts),
            nodes: sum_nodes(ts),
            edges: sum_edges(ts),
        }
    }
}

pub open spec fn banner_spec(t: TrustV) -> Seq<char> {
    "trust: "@ + t.trust + " · coverage: "@ + t.coverage + " · resolve: "@ + t.resolve + "  ("@
        + signed_decimal(t.files) + " files, "@ + signed_decimal(t.nodes) + " symbols, "@
        + signed_decimal(t.edges) + " edges)"@
}

pub open spec fn banner_group_spec(t: TrustV, repos: nat) -> Seq<char> {
    banner_spec(t) + "  [group: "@ + decimal(repos) + " repos]"@
}

pub open spec fn render_group_spec(ts: Seq<TrustV>, repos: nat, body: Seq<char>) -> Seq<char> {
    let head = banner_group_spec(merge_spec(ts), repos);
    if body.len() == 0 {
        head
    } else {
        head + "\n\n"@ + trim_end_ws(body)
    }
}

/// The path components `Path::components` calls normal: not empty, not `.`.
pub open spec fn normal_components(p: Seq<char>) -> Seq<Seq<char>> {
    split_char(p, '/').filter(|c: Seq<char>| c.len() > 0 && c != "."@)
}

/// `Path::file_name`: the last component, unless there is none or it is `..`.
pub open spec fn file_name_spec(p: Seq<char>) -> Option<Seq<char>> {
    let cs = normal_components(p);
    if cs.len() == 0 || cs.last() == ".."@ {
        None
    } else {
        Some(cs.last())
    }
}

pub open spec fn repo_label_spec(root: Seq<char>) -> Seq<char> {
    match file_name_spec(root) {
        Some(n) => n,
        None => root,
    }
}

// ------------------------------------------------------------------ exec ---

/// The freshness axis from the file count, the rebuild state, the HEAD the
/// index was built at and the current HEAD.
pub fn freshness(files: i64, state: &str, indexed: Option<&str>, head: Option<&str>) -> (r: String)
    ensures
        r@ == freshness_spec(
            files as int,
            state@,
            match indexed {
                Some(a) => Some(a@),
                None => None::<Seq<char>>,
            },
            match head {
                Some(b) => Some(b@),
                None => None::<Seq<char>>,
            },
        ),
{
    let mut r = String::new();
    if files == 0 {
        append_str(&mut r, "missing");
    } else if text_is(state, "rebuilding") {
        append_str(&mut r, "rebuilding");
    } else {
        match (indexed, head) {
            (Some(a), Some(b)) => {
                let x = chars_of(a);
                let y = chars_of(b);
                if crate::text::seq_eq(&x, &y) {
                    append_str(&mut r, "fresh");
                } else {
                    append_str(&mut r, "stale");
                }
            },
            (None, Some(_)) => append_str(&mut r, "stale"),
            _ => append_str(&mut r, "fresh"),
        }
    }
    r
}

/// The resolve axis from the in-scope and resolved edge counts.
pub fn resolve_label(in_scope: i64, resolved: i64) -> (r: String)
    ensures
        r@ == resolve_label_spec(in_scope as int, resolved as int),
{
    let n = in_scope as i128;
    let k = resolved as i128;
    let mut r = String::new();
    if in_scope == 0 || (n > 0 && 5 * k >= 3 * n) || (n < 0 && 5 * k <= 3 * n) {
        append_str(&mut r, "ok");
    } else {
        append_str(&mut r, "partial");
    }
    r
}

/// The trust for one repo, from what its graph store and git report.
pub fn compute_from(
    files: i64,
    nodes: i64,
    edges: i64,
    state: &str,
    indexed: Option<&str>,
    head: Option<&str>,
    coverage: Option<&str>,
    in_scope: i64,
    resolved: i64,
) -> (r: Trust)
    ensures
        r@.trust == freshness_spec(
            files as int,
            state@,
            match indexed {
                Some(a) => Some(a@),
                None => None::<Seq<char>>,
            },
            match head {
                Some(b) => Some(b@),
                None => None::<Seq<char>>,
            },
        ),
        r@.coverage == match coverage {
            Some(c) => c@,
            None => "exhaustive"@,
        },
        r@.resolve == resolve_label_spec(in_scope as int, resolved as int),
        r@.files == files,
        r@.nodes == nodes,
        r@.edges == edges,
{
    let trust = freshness(files, state, indexed, head);
    let mut cov = String::new();
    match coverage {
        Some(c) => append_str(&mut cov, c),
        None => append_str(&mut cov, "exhaustive"),
    }
    let resolve = resolve_label(in_scope, resolved);
    Trust { trust, coverage: cov, resolve, files, nodes, edges }
}

/// Worst-wins rank for the freshness axis.
pub fn trust_rank(s: &str) -> (r: u8)
    ensures
        r as int == trust_rank_spec(s@),
{
    if text_is(s, "fresh") {
        0
    } else if text_is(s, "stale") {
        1
    } else if text_is(s, "rebuilding") {
        2
    } else {
        3
    }
}

/// Trust for a member whose index could not be read: counts zero, freshness
/// `missing`, which ranks worst.
pub fn missing() -> (r: Trust)
    ensures
        r@ == missing_spec(),
{
    Trust {
        trust: owned_lit("missing"),
        coverage: owned_lit("exhaustive"),
        resolve: owned_lit("ok"),
        files: 0,
        nodes: 0,
        edges: 0,
    }
}

fn owned_lit(s: &str) -> (r: String)
    ensures
        r@ == s@,
{
    let mut r = String::new();
    append_str(&mut r, s);
    r
}

/// Do every running total of the members' counts stay an `i64`?
pub fn sums_fit_exec(parts: &[Trust]) -> (r: bool)
    ensures
        r == sums_fit(trust_views(parts@)),
{
    let ghost ts = trust_views(parts@);
    let mut files: i128 = 0;
    let mut nodes: i128 = 0;
    let mut edges: i128 = 0;
    let mut i: usize = 0;
    assert(ts.take(0) =~= Seq::<TrustV>::empty());
    while i < parts.len()
        invariant
            i <= parts@.len(),
            ts == trust_views(parts@),
            files == sum_files(ts.take(i as int)),
            nodes == sum_nodes(ts.take(i as int)),
            edges == sum_edges(ts.take(i as int)),
            forall|k: int| 0 <= k <= i ==> in_i64(#[trigger] sum_files(ts.take(k))) && in_i64(
                sum_nodes(ts.take(k)),
            ) && in_i64(sum_edges(ts.take(k))),
        decreases parts.len() - i,
    {
        assert(ts.take(i + 1).drop_last() =~= ts.take(i as int));
        assert(ts.take(i + 1).last() == parts@[i as int]@);
        files = files + parts[i].files as i128;
        nodes = nodes + parts[i].nodes as i128;
        edges = edges + parts[i].edges as i128;
        assert(files == sum_files(ts.take(i + 1)));
        assert(nodes == sum_nodes(ts.take(i + 1)));
        assert(edges == sum_edges(ts.take(i + 1)));
        if files < i64::MIN as i128 || files > i64::MAX as i128 || nodes < i64::MIN as i128 || nodes
            > i64::MAX as i128 || edges < i64::MIN as i128 || edges > i64::MAX as i128 {
            assert(!(in_i64(sum_files(ts.take(i + 1))) && in_i64(sum_nodes(ts.take(i + 1))) && in_i64(
                sum_edges(ts.take(i + 1)),
            )));
            assert(!sums_fit(ts));
            return false;
        }
        i += 1;
    }
    assert(ts.len() == i);
    assert(sums_fit(ts));
    true
}

/// A member's trust from reading its graph, or `missing` (with the error)
/// when it could not be read, so a dead repo cannot hide behind the rest.
pub fn or_missing(read: Result<Trust, String>) -> (r: (Trust, Option<String>))
    ensures
        match read {
            Ok(t) => r.0@ == t@ && r.1 is None,
            Err(e) => r.0@ == missing_spec() && r.1 == Some(e),
        },
{
    match read {
        Ok(t) => (t, None),
        Err(e) => (missing(), Some(e)),
    }
}

/// Fold per-repo trust into one group-level trust: counts sum, each axis
/// takes the worst member value, and no members at all is `missing`.
#[verifier::spinoff_prover]
pub fn merge(parts: &[Trust]) -> (r: Trust)
    requires
        sums_fit(trust_views(parts@)),
    ensures
        r@ == merge_spec(trust_views(parts@)),
{
    if parts.len() == 0 {
        return missing();
    }
    let ghost ts = trust_views(parts@);
    let mut worst: usize = 0;
    let mut sampled = !text_is(parts[0].coverage.as_str(), "exhaustive");
    let mut partial = !text_is(parts[0].resolve.as_str(), "ok");
    let mut files: i64 = parts[0].files;
    let mut nodes: i64 = parts[0].nodes;
    let mut edges: i64 = parts[0].edges;
    let mut i: usize = 1;
    assert(ts.take(1).drop_last() =~= Seq::<TrustV>::empty());
    assert(ts[0] == parts[0]@);
    assert(ts.take(1)[0] == ts[0]);
    assert(ts.take(1).last() == ts[0]);
    assert(ts.take(1).drop_last().len() == 0);
    assert(sum_files(ts.take(1).drop_last()) == 0);
    assert(sum_nodes(ts.take(1).drop_last()) == 0);
    assert(sum_edges(ts.take(1).drop_last()) == 0);
    assert(sum_files(ts.take(1)) == ts[0].files);
    assert(sum_nodes(ts.take(1)) == ts[0].nodes);
    assert(sum_edges(ts.take(1)) == ts[0].edges);
    assert(sampled == exists|j: int| 0 <= j < 1 && #[trigger] ts[j].coverage != "exhaustive"@) by {
        if sampled {
            assert(ts[0].coverage != "exhaustive"@);
        }
    }
    assert(partial == exists|j: int| 0 <= j < 1 && #[trigger] ts[j].resolve != "ok"@) by {
        if partial {
            assert(ts[0].resolve != "ok"@);
        }
    }
    while i < parts.len()
        invariant
            1 <= i <= parts.len(),
            ts == trust_views(parts@),
            sums_fit(ts),
            worst < i,
            parts@[worst as int]@.trust == worst_of(ts.take(i as int)),
            sampled == exists|j: int|
                0 <= j < i && #[trigger] ts[j].coverage != "exhaustive"@,
            partial == exists|j: int| 0 <= j < i && #[trigger] ts[j].resolve != "ok"@,
            files == sum_files(ts.take(i as int)),
            nodes == sum_nodes(ts.take(i as int)),
            edges == sum_edges(ts.take(i as int)),
        decreases parts.len() - i,
    {
        let t = &parts[i];
        assert(ts[i as int] == t@);
        assert(ts.take(i + 1).drop_last() =~= ts.take(i as int));
        assert(ts.take(i + 1).last() == t@);
        let rw = trust_rank(parts[worst].trust.as_str());
        let rt = trust_rank(t.trust.as_str());
        if rt >= rw {
            worst = i;
        }
        let ghost s0 = sampled;
        let ghost p0 = partial;
        if !text_is(t.coverage.as_str(), "exhaustive") {
            sampled = true;
        }
        if !text_is(t.resolve.as_str(), "ok") {
            partial = true;
        }
        assert(sampled == exists|j: int| 0 <= j < i + 1 && #[trigger] ts[j].coverage != "exhaustive"@)
            by {
            if sampled && !s0 {
                assert(ts[i as int].coverage != "exhaustive"@);
            }
            if !sampled {
                assert forall|j: int| 0 <= j < i + 1 implies #[trigger] ts[j].coverage
                    == "exhaustive"@ by {
                    if j < i {
                    }
                }
            }
        }
        assert(partial == exists|j: int| 0 <= j < i + 1 && #[trigger] ts[j].resolve != "ok"@) by {
            if partial && !p0 {
                assert(ts[i as int].resolve != "ok"@);
            }
            if !partial {
                assert forall|j: int| 0 <= j < i + 1 implies #[trigger] ts[j].resolve == "ok"@ by {
                    if j < i {
                    }
                }
            }
        }
        assert(in_i64(sum_files(ts.take(i + 1))));
        assert(in_i64(sum_nodes(ts.take(i + 1))));
        assert(in_i64(sum_edges(ts.take(i + 1))));
        files = files + t.files;
        nodes = nodes + t.nodes;
        edges = edges + t.edges;
        i += 1;
    }
    assert(ts.take(parts.len() as int) =~= ts);
    let mut cov = String::new();
    if sampled {
        append_str(&mut cov, "sampled");
    } else {
        append_str(&mut cov, "exhaustive");
    }
    let mut res = String::new();
    if partial {
        append_str(&mut res, "partial");
    } else {
        append_str(&mut res, "ok");
    }
    Trust { trust: parts[worst].trust.clone(), coverage: cov, resolve: res, files, nodes, edges }
}

/// The signature line. Always first.
pub fn banner(t: &Trust) -> (r: String)
    ensures
        r@ == banner_spec(t@),
{
    let mut v: Vec<char> = Vec::new();
    push_lit(&mut v, "trust: ");
    push_str_chars(&mut v, t.trust.as_str());
    push_lit(&mut v, " · coverage: ");
    push_str_chars(&mut v, t.coverage.as_str());
    push_lit(&mut v, " · resolve: ");
    push_str_chars(&mut v, t.resolve.as_str());
    push_lit(&mut v, "  (");
    push_signed(&mut v, t.files);
    push_lit(&mut v, " files, ");
    push_signed(&mut v, t.nodes);
    push_lit(&mut v, " symbols, ");
    push_signed(&mut v, t.edges);
    push_lit(&mut v, " edges)");
    string_of(&v)
}

fn push_lit(v: &mut Vec<char>, s: &str)
    ensures
        final(v)@ == old(v)@ + s@,
{
    let c = chars_of(s);
    crate::text::push_all(v, &c);
}

fn push_str_chars(v: &mut Vec<char>, s: &str)
    ensures
        final(v)@ == old(v)@ + s@,
{
    push_lit(v, s);
}

/// The group banner: the signature line plus the repo count.
pub fn banner_group(t: &Trust, repos: usize) -> (r: String)
    ensures
        r@ == banner_group_spec(t@, repos as nat),
{
    let b = banner(t);
    let mut v = chars_of(b.as_str());
    push_lit(&mut v, "  [group: ");
    push_decimal(&mut v, repos as u64);
    push_lit(&mut v, " repos]");
    string_of(&v)
}

/// One group payload: the merged banner, then the body.
pub fn render_group(parts: &[Trust], repos: usize, body: &str) -> (r: String)
    requires
        sums_fit(trust_views(parts@)),
    ensures
        r@ == render_group_spec(trust_views(parts@), repos as nat, body@),
{
    let m = merge(parts);
    let head = banner_group(&m, repos);
    let b = chars_of(body);
    if b.len() == 0 {
        head
    } else {
        let mut v = chars_of(head.as_str());
        push_lit(&mut v, "\n\n");
        let t = trim_end_exec(&b);
        crate::text::push_all(&mut v, &t);
        string_of(&v)
    }
}

/// Short repo label for group output: the root directory's name.
pub fn repo_label(root: &str) -> (r: String)
    ensures
        r@ == repo_label_spec(root@),
{
    let p = chars_of(root);
    let parts = crate::text::split_char_exec(&p, '/');
    let dot = chars_of(".");
    let mut last: Option<usize> = None;
    let mut i: usize = 0;
    let ghost pred = |c: Seq<char>| c.len() > 0 && c != "."@;
    while i < parts.len()
        invariant
            i <= parts.len(),
            dot@ == "."@,
            pred == (|c: Seq<char>| c.len() > 0 && c != "."@),
            crate::text::views(parts@) == split_char(p@, '/'),
            match last {
                Some(k) => k < i && crate::text::views(parts@).take(i as int).filter(pred).len() > 0
                    && crate::text::views(parts@).take(i as int).filter(pred).last()
                    == parts@[k as int]@,
                None => crate::text::views(parts@).take(i as int).filter(pred).len() == 0,
            },
        decreases parts.len() - i,
    {
        let ghost vs = crate::text::views(parts@);
        assert(vs.take(i + 1).drop_last() =~= vs.take(i as int));
        assert(vs[i as int] == parts@[i as int]@);
        proof {
            reveal(Seq::filter);
        }
        if parts[i].len() > 0 && !crate::text::seq_eq(&parts[i], &dot) {
            last = Some(i);
        }
        i += 1;
    }
    assert(crate::text::views(parts@).take(parts.len() as int) =~= crate::text::views(parts@));
    match last {
        Some(k) => {
            let dd = chars_of("..");
            if crate::text::seq_eq(&parts[k], &dd) {
                owned_str(root)
            } else {
                string_of(&parts[k])
            }
        },
        None => owned_str(root),
    }
}

fn owned_str(s: &str) -> (r: String)
    ensures
        r@ == s@,
{
    owned_lit(s)
}


// ------------------------------------------------------------------ laws ---

/// Folding a group is worst-wins: the merged freshness is some member's
/// value, and no member ranks worse than it (so one missing member makes the
/// whole group missing, and the group is fresh only if every member is).
pub proof fn lemma_merge_worst_wins(ts: Seq<TrustV>)
    requires
        ts.len() > 0,
    ensures
        exists|i: int| 0 <= i < ts.len() && merge_spec(ts).trust == #[trigger] ts[i].trust,
        forall|i: int|
            0 <= i < ts.len() ==> trust_rank_spec(#[trigger] ts[i].trust) <= trust_rank_spec(
                merge_spec(ts).trust,
            ),
    decreases ts.len(),
{
    if ts.len() == 1 {
        assert(merge_spec(ts).trust == ts[0].trust);
    } else {
        let init = ts.drop_last();
        lemma_merge_worst_wins(init);
        let w = worst_of(init);
        assert(merge_spec(init).trust == w);
        let k = choose|i: int| 0 <= i < init.len() && w == #[trigger] init[i].trust;
        assert(init[k] == ts[k]);
        assert forall|i: int| 0 <= i < ts.len() implies trust_rank_spec(#[trigger] ts[i].trust)
            <= trust_rank_spec(merge_spec(ts).trust) by {
            if i < ts.len() - 1 {
                assert(init[i] == ts[i]);
            }
        }
        if trust_rank_spec(ts.last().trust) >= trust_rank_spec(w) {
            assert(merge_spec(ts).trust == ts[ts.len() - 1].trust);
        } else {
            assert(merge_spec(ts).trust == ts[k].trust);
        }
    }
}

/// A group's resolve axis is `ok` exactly when every member's is `ok` (one
/// partial member makes the group partial), and its coverage is
/// `exhaustive` exactly when every member's is; the merged values are
/// always one of the two words of their axis.
pub proof fn lemma_merge_needs_every_member(ts: Seq<TrustV>)
    requires
        ts.len() > 0,
    ensures
        merge_spec(ts).resolve == "ok"@ <==> forall|i: int| 0 <= i < ts.len() ==> #[trigger] ts[i].resolve == "ok"@,
        merge_spec(ts).resolve == "ok"@ || merge_spec(ts).resolve == "partial"@,
        merge_spec(ts).coverage == "exhaustive"@ <==> forall|i: int|
            0 <= i < ts.len() ==> #[trigger] ts[i].coverage == "exhaustive"@,
        merge_spec(ts).coverage == "exhaustive"@ || merge_spec(ts).coverage == "sampled"@,
{
    reveal_strlit("ok");
    reveal_strlit("partial");
    reveal_strlit("exhaustive");
    reveal_strlit("sampled");
    assert("ok"@ != "partial"@) by {
        assert("ok"@.len() != "partial"@.len());
    }
    assert("exhaustive"@ != "sampled"@) by {
        assert("exhaustive"@.len() != "sampled"@.len());
    }
}

/// Freshness is a claim about git HEAD: in a git repo the index is `fresh`
/// only when it was built at the current HEAD, and an empty index is always
/// `missing`.
pub proof fn lemma_fresh_means_at_head(
    files: int,
    state: Seq<char>,
    indexed: Option<Seq<char>>,
    head: Option<Seq<char>>,
)
    ensures
        freshness_spec(files, state, indexed, head) == "fresh"@ && head is Some ==> indexed == head,
        files == 0 ==> freshness_spec(files, state, indexed, head) == "missing"@,
{
    reveal_strlit("fresh");
    reveal_strlit("stale");
    reveal_strlit("rebuilding");
    reveal_strlit("missing");
    assert("fresh"@.len() == 5 && "stale"@.len() == 5 && "rebuilding"@.len() == 10);
    assert("fresh"@[0] != "stale"@[0]);
}

proof fn lemma_sums_of_concat(a: Seq<TrustV>, b: Seq<TrustV>)
    ensures
        sum_files(a + b) == sum_files(a) + sum_files(b),
        sum_nodes(a + b) == sum_nodes(a) + sum_nodes(b),
        sum_edges(a + b) == sum_edges(a) + sum_edges(b),
    decreases b.len(),
{
    if b.len() == 0 {
        assert(a + b =~= a);
    } else {
        lemma_sums_of_concat(a, b.drop_last());
        assert((a + b).drop_last() =~= a + b.drop_last());
        assert((a + b).last() == b.last());
    }
}

/// Merging is the same whole or in parts: merging two groups of members at
/// once adds their counts, and (when both groups have members) takes the
/// worse freshness rank of the two merges and is `ok` or `exhaustive` only
/// when both merges are.
pub proof fn lemma_merge_of_concat(a: Seq<TrustV>, b: Seq<TrustV>)
    ensures
        merge_spec(a + b).files == merge_spec(a).files + merge_spec(b).files,
        merge_spec(a + b).nodes == merge_spec(a).nodes + merge_spec(b).nodes,
        merge_spec(a + b).edges == merge_spec(a).edges + merge_spec(b).edges,
        a.len() > 0 && b.len() > 0 ==> {
            &&& trust_rank_spec(merge_spec(a + b).trust) == if trust_rank_spec(merge_spec(a).trust)
                >= trust_rank_spec(merge_spec(b).trust) {
                trust_rank_spec(merge_spec(a).trust)
            } else {
                trust_rank_spec(merge_spec(b).trust)
            }
            &&& (merge_spec(a + b).resolve == "ok"@ <==> merge_spec(a).resolve == "ok"@ && merge_spec(b).resolve
                == "ok"@)
            &&& (merge_spec(a + b).coverage == "exhaustive"@ <==> merge_spec(a).coverage == "exhaustive"@
                && merge_spec(b).coverage == "exhaustive"@)
        },
{
    lemma_sums_of_concat(a, b);
    if a.len() == 0 {
        assert(a + b =~= b);
    } else if b.len() == 0 {
        assert(a + b =~= a);
    } else {
        let ab = a + b;
        lemma_merge_worst_wins(a);
        lemma_merge_worst_wins(b);
        lemma_merge_worst_wins(ab);
        lemma_merge_needs_every_member(a);
        lemma_merge_needs_every_member(b);
        lemma_merge_needs_every_member(ab);
        assert forall|i: int| 0 <= i < a.len() implies #[trigger] ab[i] == a[i] by {}
        assert forall|i: int| 0 <= i < b.len() implies #[trigger] ab[a.len() + i] == b[i] by {}
        let k = choose|k: int| 0 <= k < ab.len() && merge_spec(ab).trust == #[trigger] ab[k].trust;
        if k < a.len() {
            assert(ab[k] == a[k]);
        } else {
            assert(ab[k] == b[k - a.len()]);
        }
        let ka = choose|k: int| 0 <= k < a.len() && merge_spec(a).trust == #[trigger] a[k].trust;
        let kb = choose|k: int| 0 <= k < b.len() && merge_spec(b).trust == #[trigger] b[k].trust;
        assert(ab[ka] == a[ka]);
        assert(ab[a.len() + kb] == b[kb]);
        assert((forall|i: int| 0 <= i < ab.len() ==> #[trigger] ab[i].resolve == "ok"@) <==> (forall|i: int|
            0 <= i < a.len() ==> #[trigger] a[i].resolve == "ok"@) && (forall|i: int|
            0 <= i < b.len() ==> #[trigger] b[i].resolve == "ok"@)) by {
            if forall|i: int| 0 <= i < ab.len() ==> #[trigger] ab[i].resolve == "ok"@ {
                assert forall|i: int| 0 <= i < a.len() implies #[trigger] a[i].resolve == "ok"@ by {
                    assert(ab[i] == a[i]);
                }
                assert forall|i: int| 0 <= i < b.len() implies #[trigger] b[i].resolve == "ok"@ by {
                    assert(ab[a.len() + i] == b[i]);
                }
            }
            if (forall|i: int| 0 <= i < a.len() ==> #[trigger] a[i].resolve == "ok"@) && (forall|i: int|
                0 <= i < b.len() ==> #[trigger] b[i].resolve == "ok"@) {
                assert forall|i: int| 0 <= i < ab.len() implies #[trigger] ab[i].resolve == "ok"@ by {
                    if i >= a.len() {
                        assert(ab[i] == b[i - a.len()]);
                    } else {
                        assert(ab[i] == a[i]);
                    }
                }
            }
        }
        assert((forall|i: int| 0 <= i < ab.len() ==> #[trigger] ab[i].coverage == "exhaustive"@) <==> (forall|
            i: int,
        | 0 <= i < a.len() ==> #[trigger] a[i].coverage == "exhaustive"@) && (forall|i: int|
            0 <= i < b.len() ==> #[trigger] b[i].coverage == "exhaustive"@)) by {
            if forall|i: int| 0 <= i < ab.len() ==> #[trigger] ab[i].coverage == "exhaustive"@ {
                assert forall|i: int| 0 <= i < a.len() implies #[trigger] a[i].coverage == "exhaustive"@ by {
                    assert(ab[i] == a[i]);
                }
                assert forall|i: int| 0 <= i < b.len() implies #[trigger] b[i].coverage == "exhaustive"@ by {
                    assert(ab[a.len() + i] == b[i]);
                }
            }
            if (forall|i: int| 0 <= i < a.len() ==> #[trigger] a[i].coverage == "exhaustive"@) && (forall|i: int|
                0 <= i < b.len() ==> #[trigger] b[i].coverage == "exhaustive"@) {
                assert forall|i: int| 0 <= i < ab.len() implies #[trigger] ab[i].coverage == "exhaustive"@ by {
                    if i >= a.len() {
                        assert(ab[i] == b[i - a.len()]);
                    } else {
                        assert(ab[i] == a[i]);
                    }
                }
            }
        }
    }
}

} // verus!
