//! `Scope` — the set of repos a command acts on, and the one place that knows
//! the one-vs-many rule: a scope fans out exactly when it has several roots.

use vstd::prelude::*;
use crate::group::{infer_spec, group_index, reg_view, GroupError, Registry};
use crate::changes::{concat_all, detect, empty_body_spec};
use crate::explore::{render_spec, render_view};
use crate::model::NodeRow;
use crate::query::{explore_text, explore_text_spec, opt_rows, search_body, search_body_spec, search_text, Explored};
use crate::text::{append_str, chars_of, join, str_views, string_of, trim_ws, views};
use crate::trust::{banner, banner_spec, render_group, render_group_spec, sums_fit, trust_views, Trust, TrustV};

verus! {

pub struct Scope {
    pub roots: Vec<String>,
}

impl Scope {
    /// The scope for `--group` (or the group the environment names), else the
    /// roots inferred from the (canonical) directory `root`. An unknown or
    /// empty group is an error, so a typo fails here instead of silently
    /// degrading to one repo.
    pub fn resolve(group_name: Option<&str>, env_group: Option<&str>, reg: &Registry, root: &str) -> (r:
        Result<Scope, GroupError>)
        requires
            reg.wf(),
        ensures
            match crate::group::pick_group_spec(group_name, env_group) {
                Some(g) => match group_index(reg_view(reg.groups@), g) {
                    Some(k) => if reg_view(reg.groups@)[k].1.len() == 0 {
                        r matches Err(GroupError::NoRoots(n)) && n@ == g
                    } else {
                        r matches Ok(s) && str_views(s.roots@) == reg_view(reg.groups@)[k].1
                    },
                    None => r matches Err(GroupError::NoSuchGroup(n)) && n@ == g,
                },
                None => r matches Ok(s) && str_views(s.roots@) == infer_spec(
                    reg_view(reg.groups@),
                    root@,
                ),
            },
    {
        let name = crate::group::pick_group(group_name, env_group);
        let roots = match &name {
            Some(g) => crate::group::roots(Some(g.as_str()), reg, root),
            None => crate::group::roots(None, reg, root),
        }?;
        Ok(Scope { roots })
    }

    pub fn roots(&self) -> (r: &[String])
        ensures
            r@ == self.roots@,
    {
        self.roots.as_slice()
    }

    /// True when this scope fans out.
    pub fn is_group(&self) -> (r: bool)
        ensures
            r == (self.roots@.len() > 1),
    {
        self.roots.len() > 1
    }
}

/// The body of a group explore: the hits, separated, then where it was not
/// found.
pub open spec fn explore_group_body_spec(
    symbol: Seq<char>,
    hits: Seq<Seq<char>>,
    misses: Seq<Seq<char>>,
) -> Seq<char> {
    let head = if hits.len() == 0 {
        "no symbol named `"@ + symbol + "` in any group repo. try `search "@ + symbol + "`.\n"@
    } else {
        join(hits, "\n---\n\n"@)
    };
    if misses.len() == 0 {
        head
    } else {
        head + "\nnot found in: "@ + join(misses, ", "@) + "\n"@
    }
}

fn push_str(v: &mut Vec<char>, s: &str)
    ensures
        final(v)@ == old(v)@ + s@,
{
    let c = chars_of(s);
    crate::text::push_all(v, &c);
}

fn to_parts(v: &Vec<String>) -> (r: Vec<Vec<char>>)
    ensures
        views(r@) == str_views(v@),
{
    let mut parts: Vec<Vec<char>> = Vec::new();
    let mut i: usize = 0;
    while i < v.len()
        invariant
            i <= v@.len(),
            views(parts@) == str_views(v@).take(i as int),
        decreases v.len() - i,
    {
        let ghost before = views(parts@);
        parts.push(chars_of(v[i].as_str()));
        assert(views(parts@) =~= before.push(v@[i as int]@));
        assert(str_views(v@).take(i + 1) =~= str_views(v@).take(i as int).push(v@[i as int]@));
        i += 1;
    }
    assert(str_views(v@).take(v.len() as int) =~= str_views(v@));
    parts
}

/// Assemble a group explore body from the per-repo hits and misses.
pub fn explore_group_body(symbol: &str, hits: &Vec<String>, misses: &Vec<String>) -> (r: String)
    ensures
        r@ == explore_group_body_spec(symbol@, str_views(hits@), str_views(misses@)),
{
    let mut out: Vec<char> = Vec::new();
    if hits.len() == 0 {
        push_str(&mut out, "no symbol named `");
        push_str(&mut out, symbol);
        push_str(&mut out, "` in any group repo. try `search ");
        push_str(&mut out, symbol);
        push_str(&mut out, "`.\n");
    } else {
        let parts = to_parts(hits);
        let sep = chars_of("\n---\n\n");
        let j = crate::text::join_exec(&parts, &sep);
        crate::text::push_all(&mut out, &j);
    }
    if misses.len() > 0 {
        push_str(&mut out, "\nnot found in: ");
        let parts = to_parts(misses);
        let sep = chars_of(", ");
        let j = crate::text::join_exec(&parts, &sep);
        crate::text::push_all(&mut out, &j);
        push_str(&mut out, "\n");
    }
    string_of(&out)
}

/// What a group `ensure` reports: nothing when every repo succeeded, else the
/// count and each failure.
pub fn ensure_failures(failures: &Vec<String>) -> (r: Option<String>)
    ensures
        failures@.len() == 0 ==> r is None,
        failures@.len() > 0 ==> (r matches Some(s) && s@ == crate::text::decimal(
            failures@.len() as nat,
        ) + " repo(s) failed: "@ + join(str_views(failures@), "; "@)),
{
    if failures.len() == 0 {
        return None;
    }
    let mut out: Vec<char> = Vec::new();
    crate::text::push_decimal(&mut out, failures.len() as u64);
    push_str(&mut out, " repo(s) failed: ");
    let parts = to_parts(failures);
    let sep = chars_of("; ");
    let j = crate::text::join_exec(&parts, &sep);
    crate::text::push_all(&mut out, &j);
    Some(string_of(&out))
}

// ---------------------------------------------------------- group folds ---

/// One member of a scope as read: its label, its trust (`missing` when the
/// graph could not be read) and the read error, if any.
pub struct Member {
    pub label: String,
    pub trust: Trust,
    pub err: Option<String>,
}

pub open spec fn member_trusts(ms: Seq<Member>) -> Seq<TrustV> {
    ms.map_values(|m: Member| m.trust@)
}

/// A member's status line.
pub open spec fn status_part(m: Member) -> Seq<char> {
    match m.err {
        None => "- "@ + m.label@ + ": "@ + banner_spec(m.trust@) + "\n"@,
        Some(e) => "- "@ + m.label@ + ": unavailable ("@ + e@ + ")\n"@,
    }
}

/// A member's search fragment: its labelled hits, or why there are none.
pub open spec fn search_part(q: Seq<char>, m: Member, h: Result<Vec<Option<NodeRow>>, String>) -> Seq<char> {
    match m.err {
        Some(e) => "- "@ + m.label@ + ": unavailable ("@ + e@ + ")\n"@,
        None => match h {
            Ok(v) => search_body_spec(q, Some(m.label@), opt_rows(v@)),
            Err(e) => "- "@ + m.label@ + ": error ("@ + e@ + ")\n"@,
        },
    }
}

/// A member's change section: its report, nothing for a clean tree, or why
/// it is unavailable.
pub open spec fn changes_part(m: Member, c: Result<Option<String>, String>) -> Seq<char> {
    match c {
        Ok(Some(sec)) => "# repo `"@ + m.label@ + "`\n\n"@ + sec@ + "\n"@,
        Ok(None) => Seq::empty(),
        Err(e) => "# repo `"@ + m.label@ + "`\n\n- unavailable ("@ + e@ + ")\n\n"@,
    }
}

pub open spec fn status_body(ms: Seq<Member>) -> Seq<char> {
    concat_all(ms.map_values(|m: Member| status_part(m)))
}

pub open spec fn search_group_body(q: Seq<char>, ms: Seq<Member>, hs: Seq<Result<Vec<Option<NodeRow>>, String>>) -> Seq<char> {
    concat_all(Seq::new(ms.len(), |i: int| search_part(q, ms[i], hs[i])))
}

pub open spec fn changes_group_body(ms: Seq<Member>, cs: Seq<Result<Option<String>, String>>) -> Seq<char> {
    let b = concat_all(Seq::new(ms.len(), |i: int| changes_part(ms[i], cs[i])));
    if b.len() == 0 {
        "no symbols overlap the diff in any group repo.\n"@
    } else {
        b
    }
}

/// The group explore hits (`# repo` header + rendered view) and misses
/// (the label, with the error when there was one), in member order.
pub open spec fn explore_split(ms: Seq<Member>, fs: Seq<Result<Explored, String>>) -> (Seq<Seq<char>>, Seq<Seq<char>>)
    decreases ms.len(),
{
    if ms.len() == 0 || fs.len() < ms.len() {
        (Seq::empty(), Seq::empty())
    } else {
        let n = ms.len() - 1;
        let prev = explore_split(ms.drop_last(), fs.take(n));
        match fs[n] {
            Ok(Explored::Found(v)) => (prev.0.push("# repo `"@ + ms[n].label@ + "`\n\n"@ + render_spec(v)), prev.1),
            Ok(Explored::Missing { .. }) => (prev.0, prev.1.push(ms[n].label@)),
            Err(e) => (prev.0, prev.1.push(ms[n].label@ + " (error: "@ + e@ + ")"@)),
        }
    }
}

fn status_line(m: &Member) -> (r: Vec<char>)
    ensures
        r@ == status_part(*m),
{
    let mut out: Vec<char> = Vec::new();
    push_str(&mut out, "- ");
    push_str(&mut out, m.label.as_str());
    match &m.err {
        None => {
            push_str(&mut out, ": ");
            let b = banner(&m.trust);
            push_str(&mut out, b.as_str());
            push_str(&mut out, "\n");
        },
        Some(e) => {
            push_str(&mut out, ": unavailable (");
            push_str(&mut out, e.as_str());
            push_str(&mut out, ")\n");
        },
    }
    out
}

fn trusts_of(members: &[Member]) -> (r: Vec<Trust>)
    ensures
        trust_views(r@) == member_trusts(members@),
{
    let mut v: Vec<Trust> = Vec::new();
    let mut i: usize = 0;
    while i < members.len()
        invariant
            i <= members@.len(),
            trust_views(v@) == member_trusts(members@).take(i as int),
        decreases members.len() - i,
    {
        let t = &members[i].trust;
        let c = Trust {
            trust: t.trust.clone(),
            coverage: t.coverage.clone(),
            resolve: t.resolve.clone(),
            files: t.files,
            nodes: t.nodes,
            edges: t.edges,
        };
        let ghost v0 = trust_views(v@);
        v.push(c);
        assert(trust_views(v@) =~= v0.push(members@[i as int].trust@));
        assert(member_trusts(members@).take(i + 1) =~= member_trusts(members@).take(i as int).push(
            members@[i as int].trust@,
        ));
        i += 1;
    }
    assert(member_trusts(members@).take(i as int) =~= member_trusts(members@));
    v
}

impl Scope {
    /// Status: one repo's banner, or for a group the merged banner and one
    /// line per member.
    pub fn status(&self, members: &[Member]) -> (r: Result<String, String>)
        requires
            members@.len() == self.roots@.len(),
            members@.len() >= 1,
            sums_fit(member_trusts(members@)),
        ensures
            self.roots@.len() <= 1 ==> match members@[0].err {
                Some(e) => r == Err::<String, String>(e),
                None => r matches Ok(s) && s@ == banner_spec(members@[0].trust@),
            },
            self.roots@.len() > 1 ==> (r matches Ok(s) && s@ == render_group_spec(
                member_trusts(members@),
                self.roots@.len() as nat,
                status_body(members@),
            )),
    {
        if !self.is_group() {
            return match &members[0].err {
                Some(e) => Err(e.clone()),
                None => Ok(banner(&members[0].trust)),
            };
        }
        let mut body: Vec<char> = Vec::new();
        let ghost parts = members@.map_values(|m: Member| status_part(m));
        let mut i: usize = 0;
        while i < members.len()
            invariant
                i <= members@.len(),
                parts == members@.map_values(|m: Member| status_part(m)),
                body@ == concat_all(parts.take(i as int)),
            decreases members.len() - i,
        {
            assert(parts.take(i + 1).drop_last() =~= parts.take(i as int));
            let line = status_line(&members[i]);
            crate::text::push_all(&mut body, &line);
            i += 1;
        }
        assert(parts.take(i as int) =~= parts);
        let ts = trusts_of(members);
        let b = string_of(&body);
        Ok(render_group(ts.as_slice(), self.roots.len(), b.as_str()))
    }

    /// Search: one repo's banner and hits, or for a group the merged banner
    /// and each member's labelled hits.
    pub fn search(&self, q: &str, members: &[Member], hits: &[Result<Vec<Option<NodeRow>>, String>]) -> (r:
        Result<String, String>)
        requires
            members@.len() == self.roots@.len(),
            hits@.len() == members@.len(),
            members@.len() >= 1,
            sums_fit(member_trusts(members@)),
        ensures
            self.roots@.len() <= 1 ==> match (members@[0].err, hits@[0]) {
                (Some(e), _) => r == Err::<String, String>(e),
                (None, Err(e)) => r == Err::<String, String>(e),
                (None, Ok(v)) => r matches Ok(s) && s@ == banner_spec(members@[0].trust@) + "\n\n"@
                    + search_body_spec(q@, None, opt_rows(v@)),
            },
            self.roots@.len() > 1 ==> (r matches Ok(s) && s@ == render_group_spec(
                member_trusts(members@),
                self.roots@.len() as nat,
                search_group_body(q@, members@, hits@),
            )),
    {
        if !self.is_group() {
            return match &members[0].err {
                Some(e) => Err(e.clone()),
                None => match &hits[0] {
                    Err(e) => Err(e.clone()),
                    Ok(v) => {
                        let b = banner(&members[0].trust);
                        let body = search_body(q, None, v.as_slice());
                        Ok(search_text(b.as_str(), body.as_str()))
                    },
                },
            };
        }
        let ghost parts = Seq::new(members@.len(), |i: int| search_part(q@, members@[i], hits@[i]));
        let mut body: Vec<char> = Vec::new();
        let mut i: usize = 0;
        while i < members.len()
            invariant
                i <= members@.len(),
                hits@.len() == members@.len(),
                parts == Seq::new(members@.len(), |i: int| search_part(q@, members@[i], hits@[i])),
                body@ == concat_all(parts.take(i as int)),
            decreases members.len() - i,
        {
            assert(parts.take(i + 1).drop_last() =~= parts.take(i as int));
            assert(parts.take(i + 1).last() == search_part(q@, members@[i as int], hits@[i as int]));
            let m = &members[i];
            match &m.err {
                Some(e) => {
                    push_str(&mut body, "- ");
                    push_str(&mut body, m.label.as_str());
                    push_str(&mut body, ": unavailable (");
                    push_str(&mut body, e.as_str());
                    push_str(&mut body, ")\n");
                },
                None => match &hits[i] {
                    Ok(v) => {
                        let s = search_body(q, Some(m.label.as_str()), v.as_slice());
                        push_str(&mut body, s.as_str());
                    },
                    Err(e) => {
                        push_str(&mut body, "- ");
                        push_str(&mut body, m.label.as_str());
                        push_str(&mut body, ": error (");
                        push_str(&mut body, e.as_str());
                        push_str(&mut body, ")\n");
                    },
                },
            }
            i += 1;
        }
        assert(parts.take(i as int) =~= parts);
        let ts = trusts_of(members);
        let b = string_of(&body);
        Ok(render_group(ts.as_slice(), self.roots.len(), b.as_str()))
    }

    /// Changes: one repo's report, or for a group the merged banner and each
    /// changed member's labelled section.
    pub fn changes(&self, members: &[Member], sections: &[Result<Option<String>, String>]) -> (r: Result<
        String,
        String,
    >)
        requires
            members@.len() == self.roots@.len(),
            sections@.len() == members@.len(),
            members@.len() >= 1,
            sums_fit(member_trusts(members@)),
        ensures
            self.roots@.len() <= 1 ==> match (members@[0].err, sections@[0]) {
                (Some(e), _) => r == Err::<String, String>(e),
                (None, Err(e)) => r == Err::<String, String>(e),
                (None, Ok(sec)) => r matches Ok(s) && s@ == banner_spec(members@[0].trust@) + "\n\n"@
                    + match sec {
                    Some(x) => x@,
                    None => empty_body_spec(),
                },
            },
            self.roots@.len() > 1 ==> (r matches Ok(s) && s@ == render_group_spec(
                member_trusts(members@),
                self.roots@.len() as nat,
                changes_group_body(members@, sections@),
            )),
    {
        if !self.is_group() {
            return match &members[0].err {
                Some(e) => Err(e.clone()),
                None => match &sections[0] {
                    Err(e) => Err(e.clone()),
                    Ok(sec) => {
                        let sc = match sec {
                            Some(x) => Some(x.clone()),
                            None => None,
                        };
                        Ok(detect(&members[0].trust, sc))
                    },
                },
            };
        }
        let ghost parts = Seq::new(members@.len(), |i: int| changes_part(members@[i], sections@[i]));
        let mut body: Vec<char> = Vec::new();
        let mut i: usize = 0;
        while i < members.len()
            invariant
                i <= members@.len(),
                sections@.len() == members@.len(),
                parts == Seq::new(members@.len(), |i: int| changes_part(members@[i], sections@[i])),
                body@ == concat_all(parts.take(i as int)),
            decreases members.len() - i,
        {
            assert(parts.take(i + 1).drop_last() =~= parts.take(i as int));
            assert(parts.take(i + 1).last() == changes_part(members@[i as int], sections@[i as int]));
            let m = &members[i];
            match &sections[i] {
                Ok(Some(sec)) => {
                    push_str(&mut body, "# repo `");
                    push_str(&mut body, m.label.as_str());
                    push_str(&mut body, "`\n\n");
                    push_str(&mut body, sec.as_str());
                    push_str(&mut body, "\n");
                },
                Ok(None) => {
                    assert(changes_part(members@[i as int], sections@[i as int]) =~= Seq::<char>::empty());
                },
                Err(e) => {
                    push_str(&mut body, "# repo `");
                    push_str(&mut body, m.label.as_str());
                    push_str(&mut body, "`\n\n- unavailable (");
                    push_str(&mut body, e.as_str());
                    push_str(&mut body, ")\n\n");
                },
            }
            i += 1;
        }
        assert(parts.take(i as int) =~= parts);
        if body.len() == 0 {
            push_str(&mut body, "no symbols overlap the diff in any group repo.\n");
        }
        let ts = trusts_of(members);
        let b = string_of(&body);
        Ok(render_group(ts.as_slice(), self.roots.len(), b.as_str()))
    }

    /// Explore: one repo's answer, or for a group the merged banner, every
    /// member's rendered view, then where the symbol was not found.
    pub fn explore(&self, symbol: &str, members: &[Member], found: &[Result<Explored, String>]) -> (r: Result<
        String,
        String,
    >)
        requires
            members@.len() == self.roots@.len(),
            found@.len() == members@.len(),
            members@.len() >= 1,
            sums_fit(member_trusts(members@)),
        ensures
            self.roots@.len() <= 1 ==> match (members@[0].err, found@[0]) {
                (Some(e), _) => r == Err::<String, String>(e),
                (None, Err(e)) => r == Err::<String, String>(e),
                (None, Ok(x)) => r matches Ok(s) && s@ == explore_text_spec(banner_spec(members@[0].trust@), symbol@, x),
            },
            self.roots@.len() > 1 ==> (r matches Ok(s) && s@ == render_group_spec(
                member_trusts(members@),
                self.roots@.len() as nat,
                explore_group_body_spec(
                    symbol@,
                    explore_split(members@, found@).0,
                    explore_split(members@, found@).1,
                ),
            )),
    {
        if !self.is_group() {
            return match &members[0].err {
                Some(e) => Err(e.clone()),
                None => match &found[0] {
                    Err(e) => Err(e.clone()),
                    Ok(x) => {
                        let b = banner(&members[0].trust);
                        Ok(explore_text(b.as_str(), symbol, x))
                    },
                },
            };
        }
        let mut hits: Vec<String> = Vec::new();
        let mut misses: Vec<String> = Vec::new();
        let mut i: usize = 0;
        assert(members@.take(0) =~= Seq::<Member>::empty());
        while i < members.len()
            invariant
                i <= members@.len(),
                found@.len() == members@.len(),
                (str_views(hits@), str_views(misses@)) == (
                    explore_split(members@.take(i as int), found@.take(i as int)).0.map_values(|x: Seq<char>| x),
                    explore_split(members@.take(i as int), found@.take(i as int)).1.map_values(|x: Seq<char>| x),
                ),
            decreases members.len() - i,
        {
            let ghost prev = explore_split(members@.take(i as int), found@.take(i as int));
            assert(members@.take(i + 1).drop_last() =~= members@.take(i as int));
            assert(found@.take(i + 1).take(i as int) =~= found@.take(i as int));
            assert(found@.take(i + 1)[i as int] == found@[i as int]);
            assert(members@.take(i + 1)[i as int] == members@[i as int]);
            let m = &members[i];
            let ghost h0 = str_views(hits@);
            let ghost m0 = str_views(misses@);
            assert(h0 =~= prev.0);
            assert(m0 =~= prev.1);
            match &found[i] {
                Ok(Explored::Found(v)) => {
                    let mut t: Vec<char> = Vec::new();
                    push_str(&mut t, "# repo `");
                    push_str(&mut t, m.label.as_str());
                    push_str(&mut t, "`\n\n");
                    let rv = render_view(v);
                    push_str(&mut t, rv.as_str());
                    hits.push(string_of(&t));
                    assert(str_views(hits@) =~= h0.push(t@));
                },
                Ok(Explored::Missing { .. }) => {
                    misses.push(m.label.clone());
                    assert(str_views(misses@) =~= m0.push(m.label@));
                },
                Err(e) => {
                    let mut t: Vec<char> = Vec::new();
                    push_str(&mut t, m.label.as_str());
                    push_str(&mut t, " (error: ");
                    push_str(&mut t, e.as_str());
                    push_str(&mut t, ")");
                    misses.push(string_of(&t));
                    assert(str_views(misses@) =~= m0.push(t@));
                },
            }
            let ghost next = explore_split(members@.take(i + 1), found@.take(i + 1));
            assert(str_views(hits@) =~= next.0.map_values(|x: Seq<char>| x));
            assert(str_views(misses@) =~= next.1.map_values(|x: Seq<char>| x));
            i += 1;
        }
        assert(members@.take(i as int) =~= members@);
        assert(found@.take(i as int) =~= found@);
        let ghost fin = explore_split(members@, found@);
        assert(str_views(hits@) =~= fin.0);
        assert(str_views(misses@) =~= fin.1);
        let body = explore_group_body(symbol, &hits, &misses);
        let ts = trusts_of(members);
        Ok(render_group(ts.as_slice(), self.roots.len(), body.as_str()))
    }
}


// ------------------------------------------------------------------ laws ---

/// Every answer opens with the trust banner: a single repo's explore, search
/// or change answer with that repo's banner, a group's answer with the
/// banner of the merged (worst-wins) trust.
pub proof fn lemma_banner_comes_first(
    t: TrustV,
    symbol: Seq<char>,
    e: Explored,
    body: Seq<char>,
    ts: Seq<TrustV>,
    repos: nat,
)
    ensures
        crate::text::has_prefix(explore_text_spec(banner_spec(t), symbol, e), banner_spec(t)),
        crate::text::has_prefix(banner_spec(t) + "\n\n"@ + body, banner_spec(t)),
        crate::text::has_prefix(render_group_spec(ts, repos, body), banner_spec(crate::trust::merge_spec(ts))),
{
    let b = banner_spec(t);
    let x = explore_text_spec(b, symbol, e);
    match e {
        Explored::Found(v) => {
            assert(x.subrange(0, b.len() as int) =~= b);
        },
        Explored::Missing { suggestions } => {
            assert(x.subrange(0, b.len() as int) =~= b);
        },
    }
    assert((b + "\n\n"@ + body).subrange(0, b.len() as int) =~= b);
    let g = banner_spec(crate::trust::merge_spec(ts));
    let r = render_group_spec(ts, repos, body);
    assert(r.subrange(0, g.len() as int) =~= g);
}


/// A group's status body is one line per member, in member order: each
/// starts with `- ` and the member's label and ends with a newline (and a
/// group status is never an error: see [`Scope::status`]).
pub proof fn lemma_group_status_has_a_line_per_member(ms: Seq<Member>)
    ensures
        status_body(ms) == concat_all(Seq::new(ms.len(), |i: int| status_part(ms[i]))),
        forall|i: int|
            0 <= i < ms.len() ==> crate::text::has_prefix(#[trigger] status_part(ms[i]), "- "@ + ms[i].label@)
                && crate::text::has_suffix(status_part(ms[i]), "\n"@),
{
    assert(ms.map_values(|m: Member| status_part(m)) =~= Seq::new(ms.len(), |i: int| status_part(ms[i])));
    assert forall|i: int| 0 <= i < ms.len() implies crate::text::has_prefix(#[trigger] status_part(ms[i]), "- "@ + ms[i].label@)
        && crate::text::has_suffix(status_part(ms[i]), "\n"@) by {
        reveal_strlit("\n");
        reveal_strlit(")\n");
        let x = status_part(ms[i]);
        let h = "- "@ + ms[i].label@;
        assert(x.subrange(0, h.len() as int) =~= h);
        assert(x.subrange(x.len() - 1, x.len() as int) =~= "\n"@);
    }
}

proof fn lemma_concat_of_empties(parts: Seq<Seq<char>>)
    requires
        forall|i: int| 0 <= i < parts.len() ==> (#[trigger] parts[i]).len() == 0,
    ensures
        concat_all(parts).len() == 0,
    decreases parts.len(),
{
    if parts.len() > 0 {
        assert forall|i: int| 0 <= i < parts.drop_last().len() implies (#[trigger] parts.drop_last()[i]).len() == 0 by {
            assert(parts.drop_last()[i] == parts[i]);
        }
        lemma_concat_of_empties(parts.drop_last());
        assert(parts[parts.len() - 1].len() == 0);
    }
}

/// When no member of a group has a change section (every diff is clean),
/// the group's change body says that nothing overlaps.
pub proof fn lemma_quiet_group_changes(ms: Seq<Member>, cs: Seq<Result<Option<String>, String>>)
    requires
        cs.len() == ms.len(),
        forall|i: int| 0 <= i < cs.len() ==> #[trigger] cs[i] is Ok && cs[i]->Ok_0 is None,
    ensures
        changes_group_body(ms, cs) == "no symbols overlap the diff in any group repo.\n"@,
{
    let parts = Seq::new(ms.len(), |i: int| changes_part(ms[i], cs[i]));
    assert forall|i: int| 0 <= i < parts.len() implies (#[trigger] parts[i]).len() == 0 by {
        assert(cs[i] is Ok && cs[i]->Ok_0 is None);
    }
    lemma_concat_of_empties(parts);
}

} // verus!
