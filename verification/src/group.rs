//! Multi-repo groups: a named set of repo roots that can be treated as one
//! logical project. The registry keeps its groups ordered by name (names are
//! unique), and resolves a group name, or a working directory, to member roots.

use vstd::prelude::*;
use crate::paths::{components, parent_components, same_path, same_path_exec, is_parent_of};
use crate::text::{append_str, chars_of, decimal, push_decimal, seq_eq, str_views, string_of, text_is, trim_end_exec, trim_end_ws};

verus! {

/// Strict lexicographic order on characters (code point order, which is the
/// byte order of their UTF-8 text).
pub open spec fn lex_lt(a: Seq<char>, b: Seq<char>) -> bool
    decreases a.len(),
{
    if a.len() == 0 {
        b.len() > 0
    } else if b.len() == 0 {
        false
    } else if a[0] != b[0] {
        a[0] < b[0]
    } else {
        lex_lt(a.skip(1), b.skip(1))
    }
}

pub proof fn lemma_lex_irreflexive(a: Seq<char>)
    ensures
        !lex_lt(a, a),
    decreases a.len(),
{
    if a.len() > 0 {
        lemma_lex_irreflexive(a.skip(1));
    }
}

pub proof fn lemma_lex_trans(a: Seq<char>, b: Seq<char>, c: Seq<char>)
    requires
        lex_lt(a, b),
        lex_lt(b, c),
    ensures
        lex_lt(a, c),
    decreases a.len(),
{
    if a.len() > 0 && b.len() > 0 && c.len() > 0 && a[0] == b[0] && b[0] == c[0] {
        lemma_lex_trans(a.skip(1), b.skip(1), c.skip(1));
    }
}

pub proof fn lemma_lex_total(a: Seq<char>, b: Seq<char>)
    ensures
        a == b || lex_lt(a, b) || lex_lt(b, a),
    decreases a.len(),
{
    if a.len() > 0 && b.len() > 0 && a[0] == b[0] {
        lemma_lex_total(a.skip(1), b.skip(1));
        if a.skip(1) == b.skip(1) {
            assert(a =~= seq![a[0]] + a.skip(1));
            assert(b =~= seq![b[0]] + b.skip(1));
        }
    } else if a.len() == 0 && b.len() == 0 {
        assert(a =~= b);
    }
}

pub proof fn lemma_lex_asym(a: Seq<char>, b: Seq<char>)
    requires
        lex_lt(a, b),
    ensures
        !lex_lt(b, a),
{
    if lex_lt(b, a) {
        lemma_lex_trans(a, b, a);
        lemma_lex_irreflexive(a);
    }
}

/// Is `a` before `b`?
pub fn lex_lt_exec(a: &[char], b: &[char]) -> (r: bool)
    ensures
        r == lex_lt(a@, b@),
{
    let mut i: usize = 0;
    assert(a@.skip(0) =~= a@);
    assert(b@.skip(0) =~= b@);
    while i < a.len() && i < b.len()
        invariant
            i <= a.len(),
            i <= b.len(),
            lex_lt(a@, b@) == lex_lt(a@.skip(i as int), b@.skip(i as int)),
        decreases a.len() - i,
    {
        assert(a@.skip(i as int)[0] == a@[i as int]);
        assert(b@.skip(i as int)[0] == b@[i as int]);
        if a[i] != b[i] {
            return a[i] < b[i];
        }
        assert(a@.skip(i as int).skip(1) =~= a@.skip(i + 1));
        assert(b@.skip(i as int).skip(1) =~= b@.skip(i + 1));
        i += 1;
    }
    i == a.len() && i < b.len()
}

/// One group: its member roots.
#[derive(Debug)]
pub struct GroupEntry {
    pub roots: Vec<String>,
}

/// All groups, ordered by name.
#[derive(Debug)]
pub struct Registry {
    pub version: u32,
    pub groups: Vec<(String, GroupEntry)>,
}

/// The registry as name / member-roots pairs, in order.
pub open spec fn reg_view(groups: Seq<(String, GroupEntry)>) -> Seq<(Seq<char>, Seq<Seq<char>>)> {
    groups.map_values(|g: (String, GroupEntry)| (g.0@, str_views(g.1.roots@)))
}

/// Names strictly increase, so each name occurs once.
pub open spec fn sorted_names(gs: Seq<(Seq<char>, Seq<Seq<char>>)>) -> bool {
    forall|i: int, j: int| 0 <= i < j < gs.len() ==> lex_lt(#[trigger] gs[i].0, #[trigger] gs[j].0)
}

/// Index of the group named `name`.
pub open spec fn group_index(gs: Seq<(Seq<char>, Seq<Seq<char>>)>, name: Seq<char>) -> Option<int> {
    if exists|i: int| 0 <= i < gs.len() && #[trigger] gs[i].0 == name {
        Some(choose|i: int| 0 <= i < gs.len() && #[trigger] gs[i].0 == name)
    } else {
        None
    }
}

/// Where a new name goes: before the first name after it.
pub open spec fn insert_pos(gs: Seq<(Seq<char>, Seq<Seq<char>>)>, name: Seq<char>, i: int) -> int
    decreases gs.len() - i,
{
    if i >= gs.len() || i < 0 {
        gs.len() as int
    } else if lex_lt(name, gs[i].0) {
        i
    } else {
        insert_pos(gs, name, i + 1)
    }
}

/// `roots` with `root` added unless an equal path is already there.
pub open spec fn with_root(roots: Seq<Seq<char>>, root: Seq<char>) -> Seq<Seq<char>> {
    if exists|i: int| 0 <= i < roots.len() && same_path(#[trigger] roots[i], root) {
        roots
    } else {
        roots.push(root)
    }
}

/// The registry after adding `canon` to `group`: the group's roots gain it
/// (unless an equal path is there), or a new group holding just it is placed
/// in name order.
pub open spec fn add_spec(gs: Seq<(Seq<char>, Seq<Seq<char>>)>, group: Seq<char>, canon: Seq<char>) -> Seq<
    (Seq<char>, Seq<Seq<char>>),
> {
    match group_index(gs, group) {
        Some(k) => gs.update(k, (group, with_root(gs[k].1, canon))),
        None => gs.insert(insert_pos(gs, group, 0), (group, seq![canon])),
    }
}

/// The registry without the group named `group` (unchanged when absent).
pub open spec fn remove_group_spec(gs: Seq<(Seq<char>, Seq<Seq<char>>)>, group: Seq<char>) -> Seq<
    (Seq<char>, Seq<Seq<char>>),
> {
    match group_index(gs, group) {
        Some(k) => gs.remove(k),
        None => gs,
    }
}

/// Why a registry operation failed.
#[derive(Debug, PartialEq, Eq)]
pub enum GroupError {
    /// The named group does not exist.
    NoSuchGroup(String),
    /// The named group exists but has no member roots.
    NoRoots(String),
    /// An action needs an argument that was not given (`action`, `flag`).
    MissingArg(String, String),
    /// The action is not one the dispatcher knows.
    UnknownAction(String),
}

pub open spec fn no_such_group_text(g: Seq<char>) -> Seq<char> {
    "no such group: "@ + g
}

pub open spec fn no_roots_text(g: Seq<char>) -> Seq<char> {
    "group '"@ + g + "' has no roots (add one: codescratch group add --group "@ + g
        + " --root <path>)"@
}

impl GroupError {
    /// The message shown to the user.
    pub fn message(&self) -> (r: String)
        ensures
            match self {
                GroupError::NoSuchGroup(g) => r@ == no_such_group_text(g@),
                GroupError::NoRoots(g) => r@ == no_roots_text(g@),
                GroupError::MissingArg(a, f) => r@ == a@ + " requires --"@ + f@,
                GroupError::UnknownAction(a) => r@ == "unknown group action: "@ + a@
                    + " (expected list|add|remove|rm-group|roots)"@,
            },
    {
        let mut s = String::new();
        match self {
            GroupError::NoSuchGroup(g) => {
                append_str(&mut s, "no such group: ");
                append_str(&mut s, g.as_str());
            },
            GroupError::NoRoots(g) => {
                append_str(&mut s, "group '");
                append_str(&mut s, g.as_str());
                append_str(&mut s, "' has no roots (add one: codescratch group add --group ");
                append_str(&mut s, g.as_str());
                append_str(&mut s, " --root <path>)");
            },
            GroupError::MissingArg(a, f) => {
                append_str(&mut s, a.as_str());
                append_str(&mut s, " requires --");
                append_str(&mut s, f.as_str());
            },
            GroupError::UnknownAction(a) => {
                append_str(&mut s, "unknown group action: ");
                append_str(&mut s, a.as_str());
                append_str(&mut s, " (expected list|add|remove|rm-group|roots)");
            },
        }
        s
    }
}

fn owned(s: &str) -> (r: String)
    ensures
        r@ == s@,
{
    let mut r = String::new();
    append_str(&mut r, s);
    r
}

fn copy_roots(v: &Vec<String>) -> (r: Vec<String>)
    ensures
        str_views(r@) == str_views(v@),
{
    let mut out: Vec<String> = Vec::new();
    let mut i: usize = 0;
    while i < v.len()
        invariant
            i <= v.len(),
            str_views(out@) == str_views(v@).take(i as int),
        decreases v.len() - i,
    {
        let s = owned(v[i].as_str());
        let ghost before = str_views(out@);
        out.push(s);
        assert(str_views(out@) =~= before.push(v@[i as int]@));
        assert(str_views(v@).take(i + 1) =~= str_views(v@).take(i as int).push(v@[i as int]@));
        i += 1;
    }
    assert(str_views(v@).take(v.len() as int) =~= str_views(v@));
    out
}

impl Registry {
    /// An empty registry (version 1).
    pub fn new() -> (r: Registry)
        ensures
            r.version == 1,
            reg_view(r.groups@) == Seq::<(Seq<char>, Seq<Seq<char>>)>::empty(),
    {
        let r = Registry { version: 1, groups: Vec::new() };
        assert(reg_view(r.groups@) =~= Seq::<(Seq<char>, Seq<Seq<char>>)>::empty());
        r
    }

    pub open spec fn wf(&self) -> bool {
        sorted_names(reg_view(self.groups@))
    }

    /// Position of the group named `g`.
    fn find(&self, g: &str) -> (r: Option<usize>)
        ensures
            match r {
                Some(k) => k < self.groups@.len() && reg_view(self.groups@)[k as int].0 == g@,
                None => forall|i: int|
                    0 <= i < self.groups@.len() ==> #[trigger] reg_view(self.groups@)[i].0 != g@,
            },
    {
        let gv = chars_of(g);
        let mut i: usize = 0;
        while i < self.groups.len()
            invariant
                i <= self.groups@.len(),
                gv@ == g@,
                forall|k: int| 0 <= k < i ==> #[trigger] reg_view(self.groups@)[k].0 != g@,
            decreases self.groups.len() - i,
        {
            let n = chars_of(self.groups[i].0.as_str());
            assert(reg_view(self.groups@)[i as int].0 == self.groups@[i as int].0@);
            if seq_eq(&n, &gv) {
                return Some(i);
            }
            i += 1;
        }
        None
    }

    /// All groups, ordered by name, with their member roots.
    pub fn list(&self) -> (r: Vec<(String, Vec<String>)>)
        ensures
            r@.map_values(|p: (String, Vec<String>)| (p.0@, str_views(p.1@))) == reg_view(
                self.groups@,
            ),
    {
        let mut out: Vec<(String, Vec<String>)> = Vec::new();
        let mut i: usize = 0;
        while i < self.groups.len()
            invariant
                i <= self.groups@.len(),
                out@.map_values(|p: (String, Vec<String>)| (p.0@, str_views(p.1@))) == reg_view(
                    self.groups@,
                ).take(i as int),
            decreases self.groups.len() - i,
        {
            let ghost before = out@.map_values(|p: (String, Vec<String>)| (p.0@, str_views(p.1@)));
            let name = owned(self.groups[i].0.as_str());
            let roots = copy_roots(&self.groups[i].1.roots);
            out.push((name, roots));
            assert(reg_view(self.groups@)[i as int] == (
                self.groups@[i as int].0@,
                str_views(self.groups@[i as int].1.roots@),
            ));
            assert(out@.map_values(|p: (String, Vec<String>)| (p.0@, str_views(p.1@))) =~= before.push(
                reg_view(self.groups@)[i as int],
            ));
            assert(reg_view(self.groups@).take(i + 1) =~= reg_view(self.groups@).take(i as int).push(
                reg_view(self.groups@)[i as int],
            ));
            i += 1;
        }
        assert(reg_view(self.groups@).take(self.groups.len() as int) =~= reg_view(self.groups@));
        out
    }

    /// Add an (already canonical) root to `group`, creating the group if it
    /// does not exist yet; a root equal to one already there is not added
    /// twice.
    pub fn add_canonical(&mut self, group: &str, canon: &str)
        requires
            old(self).wf(),
        ensures
            final(self).wf(),
            final(self).version == old(self).version,
            reg_view(final(self).groups@) == add_spec(reg_view(old(self).groups@), group@, canon@),
    {
        let ghost gs = reg_view(self.groups@);
        match self.find(group) {
            Some(k) => {
                proof {
                    assert(gs[k as int].0 == group@);
                    lemma_index_unique(gs, group@, k as int);
                }
                let (name, mut entry) = self.groups.remove(k);
                let ghost old_roots = str_views(entry.roots@);
                assert(old_roots == gs[k as int].1);
                let mut present = false;
                let mut i: usize = 0;
                while i < entry.roots.len()
                    invariant
                        i <= entry.roots@.len(),
                        old_roots == str_views(entry.roots@),
                        present == exists|j: int|
                            0 <= j < i && same_path(#[trigger] old_roots[j], canon@),
                    decreases entry.roots.len() - i,
                {
                    assert(old_roots[i as int] == entry.roots@[i as int]@);
                    if same_path_exec(entry.roots[i].as_str(), canon) {
                        present = true;
                    }
                    i += 1;
                }
                if !present {
                    entry.roots.push(owned(canon));
                    assert(str_views(entry.roots@) =~= old_roots.push(canon@));
                }
                assert(str_views(entry.roots@) == with_root(old_roots, canon@));
                let ghost nv = (name@, str_views(entry.roots@));
                self.groups.insert(k, (name, entry));
                assert(reg_view(self.groups@) =~= gs.update(k as int, nv));
                proof {
                    lemma_update_same_name_sorted(gs, k as int, nv);
                }
            },
            None => {
                proof {
                    assert(group_index(gs, group@) is None);
                }
                let gv = chars_of(group);
                let mut k: usize = 0;
                let mut stop = false;
                while !stop && k < self.groups.len()
                    invariant
                        k <= self.groups@.len(),
                        gs == reg_view(self.groups@),
                        gv@ == group@,
                        insert_pos(gs, group@, 0) == insert_pos(gs, group@, k as int),
                        forall|j: int| 0 <= j < k ==> !lex_lt(group@, #[trigger] gs[j].0),
                        stop ==> k < gs.len() && lex_lt(group@, gs[k as int].0),
                    decreases self.groups.len() - k + (if stop {
                        0int
                    } else {
                        1int
                    }),
                {
                    let n = chars_of(self.groups[k].0.as_str());
                    assert(gs[k as int].0 == n@);
                    if lex_lt_exec(&gv, &n) {
                        stop = true;
                    } else {
                        k += 1;
                    }
                }
                let ghost pos = k as int;
                assert(insert_pos(gs, group@, 0) == pos);
                let mut roots: Vec<String> = Vec::new();
                roots.push(owned(canon));
                let entry = GroupEntry { roots };
                assert(str_views(entry.roots@) =~= seq![canon@]);
                self.groups.insert(k, (owned(group), entry));
                assert(reg_view(self.groups@) =~= gs.insert(pos, (group@, seq![canon@])));
                proof {
                    lemma_insert_sorted(gs, group@, pos, seq![canon@]);
                }
            },
        }
    }

    /// Remove the roots equal to `target` or to `raw` from `group`.
    pub fn remove_root_paths(&mut self, group: &str, target: &str, raw: &str) -> (r: Result<(), GroupError>)
        requires
            old(self).wf(),
        ensures
            final(self).wf(),
            final(self).version == old(self).version,
            match group_index(reg_view(old(self).groups@), group@) {
                Some(k) => r is Ok && reg_view(final(self).groups@) == reg_view(
                    old(self).groups@,
                ).update(
                    k,
                    (
                        group@,
                        reg_view(old(self).groups@)[k].1.filter(
                            |p: Seq<char>| !same_path(p, target@) && !same_path(p, raw@),
                        ),
                    ),
                ),
                None => (r matches Err(GroupError::NoSuchGroup(g)) && g@ == group@) && reg_view(
                    final(self).groups@,
                ) == reg_view(old(self).groups@),
            },
    {
        let ghost gs = reg_view(self.groups@);
        match self.find(group) {
            Some(k) => {
                proof {
                    lemma_index_unique(gs, group@, k as int);
                }
                let (name, entry) = self.groups.remove(k);
                let ghost old_roots = str_views(entry.roots@);
                assert(old_roots == gs[k as int].1);
                let ghost keep = |p: Seq<char>| !same_path(p, target@) && !same_path(p, raw@);
                let mut kept: Vec<String> = Vec::new();
                let mut i: usize = 0;
                while i < entry.roots.len()
                    invariant
                        i <= entry.roots@.len(),
                        old_roots == str_views(entry.roots@),
                        keep == (|p: Seq<char>| !same_path(p, target@) && !same_path(p, raw@)),
                        str_views(kept@) == old_roots.take(i as int).filter(keep),
                    decreases entry.roots.len() - i,
                {
                    assert(old_roots.take(i + 1).drop_last() =~= old_roots.take(i as int));
                    assert(old_roots[i as int] == entry.roots@[i as int]@);
                    proof {
                        reveal(Seq::filter);
                    }
                    let ghost before = str_views(kept@);
                    let r = entry.roots[i].as_str();
                    if !same_path_exec(r, target) && !same_path_exec(r, raw) {
                        kept.push(owned(r));
                        assert(str_views(kept@) =~= before.push(old_roots[i as int]));
                    }
                    i += 1;
                }
                assert(old_roots.take(entry.roots.len() as int) =~= old_roots);
                let ghost nv = (name@, str_views(kept@));
                self.groups.insert(k, (name, GroupEntry { roots: kept }));
                assert(reg_view(self.groups@) =~= gs.update(k as int, nv));
                proof {
                    lemma_update_same_name_sorted(gs, k as int, nv);
                }
                Ok(())
            },
            None => {
                proof {
                    assert(group_index(gs, group@) is None);
                }
                Err(GroupError::NoSuchGroup(owned(group)))
            },
        }
    }

    /// Remove an entire group.
    pub fn remove_group(&mut self, group: &str) -> (r: Result<(), GroupError>)
        requires
            old(self).wf(),
        ensures
            final(self).wf(),
            final(self).version == old(self).version,
            reg_view(final(self).groups@) == remove_group_spec(reg_view(old(self).groups@), group@),
            match group_index(reg_view(old(self).groups@), group@) {
                Some(k) => r is Ok,
                None => r matches Err(GroupError::NoSuchGroup(g)) && g@ == group@,
            },
    {
        let ghost gs = reg_view(self.groups@);
        match self.find(group) {
            Some(k) => {
                proof {
                    lemma_index_unique(gs, group@, k as int);
                }
                let _ = self.groups.remove(k);
                assert(reg_view(self.groups@) =~= gs.remove(k as int));
                Ok(())
            },
            None => {
                proof {
                    assert(group_index(gs, group@) is None);
                }
                Err(GroupError::NoSuchGroup(owned(group)))
            },
        }
    }

    /// A group's member roots.
    pub fn roots(&self, group: &str) -> (r: Result<Vec<String>, GroupError>)
        requires
            self.wf(),
        ensures
            match group_index(reg_view(self.groups@), group@) {
                Some(k) => r matches Ok(v) && str_views(v@) == reg_view(self.groups@)[k].1,
                None => r matches Err(GroupError::NoSuchGroup(g)) && g@ == group@,
            },
    {
        let ghost gs = reg_view(self.groups@);
        match self.find(group) {
            Some(k) => {
                proof {
                    lemma_index_unique(gs, group@, k as int);
                }
                Ok(copy_roots(&self.groups[k].1.roots))
            },
            None => {
                proof {
                    assert(group_index(gs, group@) is None);
                }
                Err(GroupError::NoSuchGroup(owned(group)))
            },
        }
    }
}

impl Default for Registry {
    fn default() -> (r: Registry)
        ensures
            r.version == 1,
            reg_view(r.groups@) == Seq::<(Seq<char>, Seq<Seq<char>>)>::empty(),
    {
        Registry::new()
    }
}

// -------------------------------------------------------- name → roots ---

/// `canon` equals a member of some group.
pub open spec fn is_member(gs: Seq<(Seq<char>, Seq<Seq<char>>)>, canon: Seq<char>) -> bool {
    exists|i: int, j: int|
        0 <= i < gs.len() && 0 <= j < gs[i].1.len() && same_path(#[trigger] gs[i].1[j], canon)
}

/// Every root of a non-empty group sits directly under `canon`.
pub open spec fn parent_of_all(roots: Seq<Seq<char>>, canon: Seq<char>) -> bool {
    roots.len() > 0 && forall|j: int|
        0 <= j < roots.len() ==> parent_components(#[trigger] roots[j]) == Some(components(canon))
}

pub open spec fn parent_hits(gs: Seq<(Seq<char>, Seq<Seq<char>>)>, canon: Seq<char>) -> Seq<
    (Seq<char>, Seq<Seq<char>>),
> {
    gs.filter(|g: (Seq<char>, Seq<Seq<char>>)| parent_of_all(g.1, canon))
}

/// Inference from a (canonical) directory: a member stays that one repo; the
/// unique parent of exactly one group's members fans out to that group;
/// anything else stays the single directory.
pub open spec fn infer_spec(gs: Seq<(Seq<char>, Seq<Seq<char>>)>, canon: Seq<char>) -> Seq<Seq<char>> {
    if is_member(gs, canon) {
        seq![canon]
    } else if parent_hits(gs, canon).len() == 1 {
        parent_hits(gs, canon)[0].1
    } else {
        seq![canon]
    }
}

fn single(canon: &str) -> (r: Vec<String>)
    ensures
        str_views(r@) == seq![canon@],
{
    let mut v: Vec<String> = Vec::new();
    v.push(owned(canon));
    assert(str_views(v@) =~= seq![canon@]);
    v
}

/// The roots a (canonical) directory stands for, by the registry.
pub fn infer_in(reg: &Registry, canon: &str) -> (r: Vec<String>)
    ensures
        str_views(r@) == infer_spec(reg_view(reg.groups@), canon@),
{
    let ghost gs = reg_view(reg.groups@);
    let mut i: usize = 0;
    while i < reg.groups.len()
        invariant
            i <= reg.groups@.len(),
            gs == reg_view(reg.groups@),
            forall|a: int, b: int|
                0 <= a < i && 0 <= b < gs[a].1.len() ==> !same_path(#[trigger] gs[a].1[b], canon@),
        decreases reg.groups.len() - i,
    {
        let roots = &reg.groups[i].1.roots;
        assert(gs[i as int].1 == str_views(roots@));
        let mut j: usize = 0;
        while j < roots.len()
            invariant
                j <= roots@.len(),
                gs == reg_view(reg.groups@),
                i < gs.len(),
                gs[i as int].1 == str_views(roots@),
                forall|b: int| 0 <= b < j ==> !same_path(#[trigger] gs[i as int].1[b], canon@),
            decreases roots.len() - j,
        {
            assert(gs[i as int].1[j as int] == roots@[j as int]@);
            if same_path_exec(roots[j].as_str(), canon) {
                assert(is_member(gs, canon@));
                return single(canon);
            }
            j += 1;
        }
        i += 1;
    }
    assert(!is_member(gs, canon@));
    let ghost pred = |g: (Seq<char>, Seq<Seq<char>>)| parent_of_all(g.1, canon@);
    let mut hits: usize = 0;
    let mut first: usize = 0;
    let mut k: usize = 0;
    while k < reg.groups.len()
        invariant
            k <= reg.groups@.len(),
            gs == reg_view(reg.groups@),
            pred == (|g: (Seq<char>, Seq<Seq<char>>)| parent_of_all(g.1, canon@)),
            hits == gs.take(k as int).filter(pred).len(),
            hits > 0 ==> first < k && gs.take(k as int).filter(pred)[0] == gs[first as int],
        decreases reg.groups.len() - k,
    {
        let roots = &reg.groups[k].1.roots;
        assert(gs[k as int].1 == str_views(roots@));
        assert(gs.take(k + 1).drop_last() =~= gs.take(k as int));
        assert(gs.take(k + 1).last() == gs[k as int]);
        proof {
            reveal(Seq::filter);
        }
        let mut all = roots.len() > 0;
        let mut j: usize = 0;
        while j < roots.len()
            invariant
                j <= roots@.len(),
                gs == reg_view(reg.groups@),
                k < gs.len(),
                gs[k as int].1 == str_views(roots@),
                all == (roots@.len() > 0 && forall|b: int|
                    0 <= b < j ==> parent_components(#[trigger] gs[k as int].1[b]) == Some(
                        components(canon@),
                    )),
            decreases roots.len() - j,
        {
            assert(gs[k as int].1[j as int] == roots@[j as int]@);
            if !is_parent_of(canon, roots[j].as_str()) {
                all = false;
            }
            j += 1;
        }
        assert(all == pred(gs[k as int]));
        if all {
            if hits == 0 {
                first = k;
            }
            hits = hits + 1;
        }
        proof {
            if hits > 0 {
                let f = gs.take(k + 1).filter(pred);
                let f0 = gs.take(k as int).filter(pred);
                if f0.len() > 0 {
                    assert(f[0] == f0[0]);
                }
            }
        }
        k += 1;
    }
    assert(gs.take(reg.groups.len() as int) =~= gs);
    if hits == 1 {
        copy_roots(&reg.groups[first].1.roots)
    } else {
        single(canon)
    }
}

/// A named group's roots; an unknown group or one with no roots is an error.
pub fn named_roots_in(reg: &Registry, g: &str) -> (r: Result<Vec<String>, GroupError>)
    requires
        reg.wf(),
    ensures
        match group_index(reg_view(reg.groups@), g@) {
            Some(k) => if reg_view(reg.groups@)[k].1.len() == 0 {
                r matches Err(GroupError::NoRoots(n)) && n@ == g@
            } else {
                r matches Ok(v) && str_views(v@) == reg_view(reg.groups@)[k].1
            },
            None => r matches Err(GroupError::NoSuchGroup(n)) && n@ == g@,
        },
{
    let roots = reg.roots(g)?;
    if roots.len() == 0 {
        return Err(GroupError::NoRoots(owned(g)));
    }
    Ok(roots)
}

/// Member roots for a group name, or inferred from a (canonical) directory.
pub fn roots(group: Option<&str>, reg: &Registry, root: &str) -> (r: Result<Vec<String>, GroupError>)
    requires
        reg.wf(),
    ensures
        match group {
            Some(g) => match group_index(reg_view(reg.groups@), g@) {
                Some(k) => if reg_view(reg.groups@)[k].1.len() == 0 {
                    r matches Err(GroupError::NoRoots(n)) && n@ == g@
                } else {
                    r matches Ok(v) && str_views(v@) == reg_view(reg.groups@)[k].1
                },
                None => r matches Err(GroupError::NoSuchGroup(n)) && n@ == g@,
            },
            None => r matches Ok(v) && str_views(v@) == infer_spec(reg_view(reg.groups@), root@),
        },
{
    match group {
        Some(g) => named_roots_in(reg, g),
        None => Ok(infer_in(reg, root)),
    }
}

/// `s`, or nothing when `n` is one.
pub open spec fn plural(n: nat) -> Seq<char> {
    if n == 1 {
        Seq::empty()
    } else {
        "s"@
    }
}

/// One group's block of the listing.
pub open spec fn group_block(g: (Seq<char>, Seq<Seq<char>>)) -> Seq<char> {
    g.0 + " ("@ + decimal(g.1.len()) + " root"@ + plural(g.1.len()) + ")\n"@ + root_lines(g.1)
}

pub open spec fn root_lines(roots: Seq<Seq<char>>) -> Seq<char>
    decreases roots.len(),
{
    if roots.len() == 0 {
        Seq::empty()
    } else {
        root_lines(roots.drop_last()) + "  "@ + roots.last() + "\n"@
    }
}

pub open spec fn group_blocks(gs: Seq<(Seq<char>, Seq<Seq<char>>)>) -> Seq<char>
    decreases gs.len(),
{
    if gs.len() == 0 {
        Seq::empty()
    } else {
        group_blocks(gs.drop_last()) + group_block(gs.last())
    }
}

pub open spec fn list_text_spec(gs: Seq<(Seq<char>, Seq<Seq<char>>)>) -> Seq<char> {
    if gs.len() == 0 {
        "no groups defined"@
    } else {
        trim_end_ws(group_blocks(gs))
    }
}

fn push_str(v: &mut Vec<char>, s: &str)
    ensures
        final(v)@ == old(v)@ + s@,
{
    let c = chars_of(s);
    crate::text::push_all(v, &c);
}

/// The `list` action's text: each group with its root count, then its roots.
pub fn list_text(reg: &Registry) -> (r: String)
    ensures
        r@ == list_text_spec(reg_view(reg.groups@)),
{
    if reg.groups.len() == 0 {
        return owned("no groups defined");
    }
    let ghost gs = reg_view(reg.groups@);
    let mut out: Vec<char> = Vec::new();
    let mut i: usize = 0;
    while i < reg.groups.len()
        invariant
            i <= reg.groups@.len(),
            gs == reg_view(reg.groups@),
            out@ == group_blocks(gs.take(i as int)),
        decreases reg.groups.len() - i,
    {
        assert(gs.take(i + 1).drop_last() =~= gs.take(i as int));
        assert(gs.take(i + 1).last() == gs[i as int]);
        let name = &reg.groups[i].0;
        let roots = &reg.groups[i].1.roots;
        assert(gs[i as int] == (name@, str_views(roots@)));
        let ghost start = out@;
        push_str(&mut out, name.as_str());
        push_str(&mut out, " (");
        push_decimal(&mut out, roots.len() as u64);
        push_str(&mut out, " root");
        if roots.len() != 1 {
            push_str(&mut out, "s");
        }
        push_str(&mut out, ")\n");
        let ghost head = out@;
        assert(head == start + (name@ + " ("@ + decimal(roots.len() as nat) + " root"@ + plural(
            roots.len() as nat,
        ) + ")\n"@));
        let mut j: usize = 0;
        while j < roots.len()
            invariant
                j <= roots@.len(),
                out@ == head + root_lines(str_views(roots@).take(j as int)),
            decreases roots.len() - j,
        {
            assert(str_views(roots@).take(j + 1).drop_last() =~= str_views(roots@).take(j as int));
            assert(str_views(roots@).take(j + 1).last() == roots@[j as int]@);
            push_str(&mut out, "  ");
            push_str(&mut out, roots[j].as_str());
            push_str(&mut out, "\n");
            j += 1;
        }
        assert(str_views(roots@).take(roots.len() as int) =~= str_views(roots@));
        assert(out@ =~= start + group_block(gs[i as int]));
        i += 1;
    }
    assert(gs.take(reg.groups.len() as int) =~= gs);
    let t = trim_end_exec(&out);
    string_of(&t)
}

/// The `roots` action's text: one root per line, or a note when there are none.
pub fn roots_text(group: &str, roots: &Vec<String>) -> (r: String)
    ensures
        roots@.len() == 0 ==> r@ == "'"@ + group@ + "' has no roots"@,
        roots@.len() > 0 ==> r@ == crate::text::join(str_views(roots@), "\n"@),
{
    if roots.len() == 0 {
        let mut s = String::new();
        append_str(&mut s, "'");
        append_str(&mut s, group);
        append_str(&mut s, "' has no roots");
        return s;
    }
    let mut parts: Vec<Vec<char>> = Vec::new();
    let mut i: usize = 0;
    while i < roots.len()
        invariant
            i <= roots@.len(),
            crate::text::views(parts@) == str_views(roots@).take(i as int),
        decreases roots.len() - i,
    {
        let ghost before = crate::text::views(parts@);
        parts.push(chars_of(roots[i].as_str()));
        assert(crate::text::views(parts@) =~= before.push(roots@[i as int]@));
        assert(str_views(roots@).take(i + 1) =~= str_views(roots@).take(i as int).push(
            roots@[i as int]@,
        ));
        i += 1;
    }
    assert(str_views(roots@).take(roots.len() as int) =~= str_views(roots@));
    let nl = chars_of("\n");
    let j = crate::text::join_exec(&parts, &nl);
    string_of(&j)
}

/// The `add` action's reply.
pub fn added_text(root: &str, group: &str, n: usize) -> (r: String)
    ensures
        r@ == "added "@ + root@ + " to '"@ + group@ + "' ("@ + decimal(n as nat) + " root"@
            + plural(n as nat) + " total)"@,
{
    let mut v: Vec<char> = Vec::new();
    push_str(&mut v, "added ");
    push_str(&mut v, root);
    push_str(&mut v, " to '");
    push_str(&mut v, group);
    push_str(&mut v, "' (");
    push_decimal(&mut v, n as u64);
    push_str(&mut v, " root");
    if n != 1 {
        push_str(&mut v, "s");
    }
    push_str(&mut v, " total)");
    string_of(&v)
}

/// The `remove` action's reply.
pub fn removed_text(root: &str, group: &str) -> (r: String)
    ensures
        r@ == "removed "@ + root@ + " from '"@ + group@ + "'"@,
{
    let mut s = String::new();
    append_str(&mut s, "removed ");
    append_str(&mut s, root);
    append_str(&mut s, " from '");
    append_str(&mut s, group);
    append_str(&mut s, "'");
    s
}

/// The `rm-group` action's reply.
pub fn removed_group_text(group: &str) -> (r: String)
    ensures
        r@ == "removed group '"@ + group@ + "'"@,
{
    let mut s = String::new();
    append_str(&mut s, "removed group '");
    append_str(&mut s, group);
    append_str(&mut s, "'");
    s
}

/// The group name given explicitly, else the one from the environment, kept
/// only when it is not blank.
pub open spec fn pick_group_spec(explicit: Option<&str>, env: Option<&str>) -> Option<Seq<char>> {
    match (if explicit is Some {
        explicit
    } else {
        env
    }) {
        Some(s) => if crate::text::trim_ws(s@).len() == 0 {
            None
        } else {
            Some(s@)
        },
        None => None,
    }
}

/// A group name given explicitly, else from the environment, kept only when
/// it is not blank.
pub fn pick_group(explicit: Option<&str>, env: Option<&str>) -> (r: Option<String>)
    ensures
        match pick_group_spec(explicit, env) {
            Some(g) => r matches Some(x) && x@ == g,
            None => r is None,
        },
{
    let chosen = match explicit {
        Some(e) => Some(e),
        None => env,
    };
    match chosen {
        Some(s) => {
            let t = crate::text::trim_exec(&chars_of(s));
            if t.len() == 0 {
                None
            } else {
                Some(owned(s))
            }
        },
        None => None,
    }
}

proof fn lemma_index_unique(gs: Seq<(Seq<char>, Seq<Seq<char>>)>, name: Seq<char>, k: int)
    requires
        sorted_names(gs),
        0 <= k < gs.len(),
        gs[k].0 == name,
    ensures
        group_index(gs, name) == Some(k),
{
    assert(exists|i: int| 0 <= i < gs.len() && #[trigger] gs[i].0 == name);
    let c = choose|i: int| 0 <= i < gs.len() && #[trigger] gs[i].0 == name;
    lemma_lex_irreflexive(name);
    if c != k {
        if c < k {
            assert(lex_lt(gs[c].0, gs[k].0));
        } else {
            assert(lex_lt(gs[k].0, gs[c].0));
        }
        lemma_lex_irreflexive(name);
    }
}

proof fn lemma_insert_sorted(
    gs: Seq<(Seq<char>, Seq<Seq<char>>)>,
    name: Seq<char>,
    pos: int,
    roots: Seq<Seq<char>>,
)
    requires
        sorted_names(gs),
        0 <= pos <= gs.len(),
        forall|j: int| 0 <= j < pos ==> !lex_lt(name, #[trigger] gs[j].0),
        pos < gs.len() ==> lex_lt(name, gs[pos].0),
        forall|i: int| 0 <= i < gs.len() ==> #[trigger] gs[i].0 != name,
    ensures
        sorted_names(gs.insert(pos, (name, roots))),
{
    let ns = gs.insert(pos, (name, roots));
    assert forall|i: int, j: int| 0 <= i < j < ns.len() implies lex_lt(
        #[trigger] ns[i].0,
        #[trigger] ns[j].0,
    ) by {
        if i < pos && j == pos {
            lemma_lex_total(gs[i].0, name);
        } else if i == pos && j > pos {
            if j - 1 > pos {
                lemma_lex_trans(name, gs[pos].0, gs[j - 1].0);
            }
        } else if i < pos && j > pos {
            assert(lex_lt(gs[i].0, gs[j - 1].0));
        } else if j < pos {
            assert(lex_lt(gs[i].0, gs[j].0));
        } else {
            assert(lex_lt(gs[i - 1].0, gs[j - 1].0));
        }
    }
}

proof fn lemma_update_same_name_sorted(
    gs: Seq<(Seq<char>, Seq<Seq<char>>)>,
    k: int,
    v: (Seq<char>, Seq<Seq<char>>),
)
    requires
        sorted_names(gs),
        0 <= k < gs.len(),
        v.0 == gs[k].0,
    ensures
        sorted_names(gs.update(k, v)),
{
    let ns = gs.update(k, v);
    assert forall|i: int, j: int| 0 <= i < j < ns.len() implies lex_lt(
        #[trigger] ns[i].0,
        #[trigger] ns[j].0,
    ) by {
        assert(lex_lt(gs[i].0, gs[j].0));
    }
}


// -------------------------------------------------------------- commands ---

/// A `group` subcommand with the arguments it needs.
pub enum GroupCommand {
    List,
    Add { group: String, root: String },
    Remove { group: String, root: String },
    RmGroup { group: String },
    Roots { group: String },
}

fn missing_arg(action: &str, flag: &str) -> (e: GroupError)
    ensures
        e matches GroupError::MissingArg(a, f) && a@ == action@ && f@ == flag@,
{
    GroupError::MissingArg(owned(action), owned(flag))
}

/// Read the action name and its flags: each action needs `--group`, `add`
/// and `remove` also `--root`; any other name is unknown.
pub fn parse_command(action: &str, group: Option<&str>, root: Option<&str>) -> (r: Result<GroupCommand, GroupError>)
    ensures
        action@ == "list"@ ==> r matches Ok(GroupCommand::List),
        action@ == "add"@ ==> match (group, root) {
            (Some(g), Some(p)) => (r matches Ok(GroupCommand::Add { group: gg, root: pp }) && gg@ == g@ && pp@ == p@),
            (None, _) => r matches Err(GroupError::MissingArg(a, f)) && a@ == "add"@ && f@ == "group"@,
            (Some(_), None) => r matches Err(GroupError::MissingArg(a, f)) && a@ == "add"@ && f@ == "root"@,
        },
        action@ == "remove"@ ==> match (group, root) {
            (Some(g), Some(p)) => r matches Ok(GroupCommand::Remove { group: gg, root: pp }) && gg@ == g@ && pp@ == p@,
            (None, _) => r matches Err(GroupError::MissingArg(a, f)) && a@ == "remove"@ && f@ == "group"@,
            (Some(_), None) => r matches Err(GroupError::MissingArg(a, f)) && a@ == "remove"@ && f@ == "root"@,
        },
        action@ == "rm-group"@ ==> match group {
            Some(g) => r matches Ok(GroupCommand::RmGroup { group: gg }) && gg@ == g@,
            None => r matches Err(GroupError::MissingArg(a, f)) && a@ == "rm-group"@ && f@ == "group"@,
        },
        action@ == "roots"@ ==> match group {
            Some(g) => r matches Ok(GroupCommand::Roots { group: gg }) && gg@ == g@,
            None => r matches Err(GroupError::MissingArg(a, f)) && a@ == "roots"@ && f@ == "group"@,
        },
        action@ != "list"@ && action@ != "add"@ && action@ != "remove"@ && action@ != "rm-group"@ && action@
            != "roots"@ ==> (r matches Err(GroupError::UnknownAction(a)) && a@ == action@),
{
    proof {
        reveal_strlit("list");
        reveal_strlit("add");
        reveal_strlit("remove");
        reveal_strlit("rm-group");
        reveal_strlit("roots");
        assert("list"@.len() == 4 && "add"@.len() == 3 && "remove"@.len() == 6);
        assert("rm-group"@.len() == 8 && "roots"@.len() == 5);
    }
    if text_is(action, "list") {
        Ok(GroupCommand::List)
    } else if text_is(action, "add") {
        let g = match group {
            Some(g) => g,
            None => return Err(missing_arg(action, "group")),
        };
        let p = match root {
            Some(p) => p,
            None => return Err(missing_arg(action, "root")),
        };
        Ok(GroupCommand::Add { group: owned(g), root: owned(p) })
    } else if text_is(action, "remove") {
        let g = match group {
            Some(g) => g,
            None => return Err(missing_arg(action, "group")),
        };
        let p = match root {
            Some(p) => p,
            None => return Err(missing_arg(action, "root")),
        };
        Ok(GroupCommand::Remove { group: owned(g), root: owned(p) })
    } else if text_is(action, "rm-group") {
        match group {
            Some(g) => Ok(GroupCommand::RmGroup { group: owned(g) }),
            None => Err(missing_arg(action, "group")),
        }
    } else if text_is(action, "roots") {
        match group {
            Some(g) => Ok(GroupCommand::Roots { group: owned(g) }),
            None => Err(missing_arg(action, "group")),
        }
    } else {
        Err(GroupError::UnknownAction(owned(action)))
    }
}

/// Carry out a parsed command on the loaded registry. `target` is the
/// canonical form of `--root` (for `add`, which needs the path to exist) or
/// its best-effort canonical form (for `remove`). Returns the message and
/// whether the registry changed and must be saved.
pub fn run_in(cmd: &GroupCommand, reg: &mut Registry, target: &str) -> (r: Result<(String, bool), GroupError>)
    requires
        old(reg).wf(),
    ensures
        final(reg).wf(),
        final(reg).version == old(reg).version,
        match cmd {
            GroupCommand::List => reg_view(final(reg).groups@) == reg_view(old(reg).groups@) && (r matches Ok(
                o,
            ) && o.0@ == list_text_spec(reg_view(old(reg).groups@)) && !o.1),
            GroupCommand::Add { group, root } => {
                &&& reg_view(final(reg).groups@) == add_spec(reg_view(old(reg).groups@), group@, target@)
                &&& r matches Ok(o) && o.1 && o.0@ == "added "@ + root@ + " to '"@ + group@ + "' ("@ + decimal(
                    reg_view(final(reg).groups@)[group_index(reg_view(final(reg).groups@), group@)->0].1.len(),
                ) + " root"@ + plural(
                    reg_view(final(reg).groups@)[group_index(reg_view(final(reg).groups@), group@)->0].1.len(),
                ) + " total)"@
            },
            GroupCommand::Remove { group, root } => match group_index(reg_view(old(reg).groups@), group@) {
                Some(k) => reg_view(final(reg).groups@) == reg_view(old(reg).groups@).update(
                    k,
                    (
                        group@,
                        reg_view(old(reg).groups@)[k].1.filter(
                            |p: Seq<char>| !same_path(p, target@) && !same_path(p, root@),
                        ),
                    ),
                ) && (r matches Ok(o) && o.1 && o.0@ == "removed "@ + root@ + " from '"@ + group@ + "'"@),
                None => reg_view(final(reg).groups@) == reg_view(old(reg).groups@) && (r matches Err(
                    GroupError::NoSuchGroup(g),
                ) && g@ == group@),
            },
            GroupCommand::RmGroup { group } => {
                &&& reg_view(final(reg).groups@) == remove_group_spec(reg_view(old(reg).groups@), group@)
                &&& match group_index(reg_view(old(reg).groups@), group@) {
                    Some(_) => r matches Ok(o) && o.1 && o.0@ == "removed group '"@ + group@ + "'"@,
                    None => r matches Err(GroupError::NoSuchGroup(g)) && g@ == group@,
                }
            },
            GroupCommand::Roots { group } => reg_view(final(reg).groups@) == reg_view(old(reg).groups@)
                && match group_index(reg_view(old(reg).groups@), group@) {
                Some(k) => r matches Ok(o) && !o.1 && (if reg_view(old(reg).groups@)[k].1.len() == 0 {
                    o.0@ == "'"@ + group@ + "' has no roots"@
                } else {
                    o.0@ == crate::text::join(reg_view(old(reg).groups@)[k].1, "\n"@)
                }),
                None => r matches Err(GroupError::NoSuchGroup(g)) && g@ == group@,
            },
        },
{
    match cmd {
        GroupCommand::List => Ok((list_text(reg), false)),
        GroupCommand::Add { group, root } => {
            reg.add_canonical(group.as_str(), target);
            proof {
                lemma_added_root_is_listed(reg_view(old(reg).groups@), group@, target@);
            }
            let roots = match reg.roots(group.as_str()) {
                Ok(v) => v,
                Err(e) => return Err(e),
            };
            Ok((added_text(root.as_str(), group.as_str(), roots.len()), true))
        },
        GroupCommand::Remove { group, root } => {
            match reg.remove_root_paths(group.as_str(), target, root.as_str()) {
                Ok(()) => Ok((removed_text(root.as_str(), group.as_str()), true)),
                Err(e) => Err(e),
            }
        },
        GroupCommand::RmGroup { group } => {
            match reg.remove_group(group.as_str()) {
                Ok(()) => Ok((removed_group_text(group.as_str()), true)),
                Err(e) => Err(e),
            }
        },
        GroupCommand::Roots { group } => {
            match reg.roots(group.as_str()) {
                Ok(v) => Ok((roots_text(group.as_str(), &v), false)),
                Err(e) => Err(e),
            }
        },
    }
}

/// Where the group registry lives: a directory holding `groups.json`.
pub struct Store {
    pub dir: String,
}

impl Store {
    pub fn new(dir: String) -> (r: Store)
        ensures
            r.dir@ == dir@,
    {
        Store { dir }
    }

    /// `<dir>/groups.json`.
    pub fn path(&self) -> (r: String)
        ensures
            r@ == self.dir@ + "/groups.json"@,
    {
        let mut s = owned(self.dir.as_str());
        append_str(&mut s, "/groups.json");
        s
    }

    /// `<dir>/groups.json.tmp`, written first and renamed over the registry.
    pub fn tmp_path(&self) -> (r: String)
        ensures
            r@ == self.dir@ + "/groups.json.tmp"@,
    {
        let mut s = owned(self.dir.as_str());
        append_str(&mut s, "/groups.json.tmp");
        s
    }
}

// ------------------------------------------------------------------ laws ---

proof fn lemma_only_index(gs: Seq<(Seq<char>, Seq<Seq<char>>)>, name: Seq<char>, k: int)
    requires
        0 <= k < gs.len(),
        gs[k].0 == name,
        forall|i: int| 0 <= i < gs.len() && i != k ==> #[trigger] gs[i].0 != name,
    ensures
        group_index(gs, name) == Some(k),
{
    assert(exists|i: int| 0 <= i < gs.len() && #[trigger] gs[i].0 == name);
}

/// The group named `group` exists and one of its roots is the path `canon`.
pub open spec fn lists_root(gs: Seq<(Seq<char>, Seq<Seq<char>>)>, group: Seq<char>, canon: Seq<char>) -> bool {
    match group_index(gs, group) {
        Some(k) => exists|j: int| 0 <= j < gs[k].1.len() && same_path(#[trigger] gs[k].1[j], canon),
        None => false,
    }
}

/// After adding a root to a group, the group exists and lists that root.
pub proof fn lemma_added_root_is_listed(
    gs: Seq<(Seq<char>, Seq<Seq<char>>)>,
    group: Seq<char>,
    canon: Seq<char>,
)
    requires
        sorted_names(gs),
    ensures
        lists_root(add_spec(gs, group, canon), group, canon),
{
    let ns = add_spec(gs, group, canon);
    match group_index(gs, group) {
        Some(k) => {
            let k0 = choose|i: int| 0 <= i < gs.len() && #[trigger] gs[i].0 == group;
            assert(gs[k0].0 == group);
            lemma_index_unique(gs, group, k0);
            lemma_update_same_name_sorted(gs, k, (group, with_root(gs[k].1, canon)));
            lemma_index_unique(ns, group, k);
            let rs = gs[k].1;
            assert(ns[k].1 == with_root(rs, canon));
            if exists|i: int| 0 <= i < rs.len() && same_path(#[trigger] rs[i], canon) {
                let j = choose|i: int| 0 <= i < rs.len() && same_path(#[trigger] rs[i], canon);
                assert(same_path(ns[k].1[j], canon));
                assert(group_index(ns, group) == Some(k));
                assert(0 <= j < ns[k].1.len());
                assert(exists|j: int| 0 <= j < ns[k].1.len() && same_path(#[trigger] ns[k].1[j], canon));
            } else {
                assert(ns[k].1[rs.len() as int] == canon);
                assert(same_path(ns[k].1[rs.len() as int], canon));
                assert(exists|j: int| 0 <= j < ns[k].1.len() && same_path(#[trigger] ns[k].1[j], canon));
            }
            assert(lists_root(ns, group, canon));
        },
        None => {
            let pos = lemma_insert_pos_range(gs, group, 0);
            assert forall|i: int| 0 <= i < ns.len() && i != pos implies #[trigger] ns[i].0 != group by {
                if i < pos {
                    assert(ns[i] == gs[i]);
                } else {
                    assert(ns[i] == gs[i - 1]);
                }
            }
            lemma_only_index(ns, group, pos);
            assert(ns[pos].1[0] == canon);
            assert(same_path(ns[pos].1[0], canon));
            assert(group_index(ns, group) == Some(pos));
            assert(0 < ns[pos].1.len());
            let gi = group_index(ns, group);
            assert(gi == Some(pos));
            let kk = gi.unwrap();
            assert(kk == pos);
            assert(same_path(ns[kk].1[0], canon));
            assert(0 < ns[kk].1.len());
            assert(exists|j: int| 0 <= j < ns[kk].1.len() && same_path(#[trigger] ns[kk].1[j], canon));
            assert(lists_root(ns, group, canon));
        },
    }
}

/// After adding a canonical root to a group whose roots are stored as
/// written (no other spelling of the same path), the group lists exactly that
/// text, so the `roots` action prints it as one of its lines.
pub proof fn lemma_added_root_is_listed_as_given(
    gs: Seq<(Seq<char>, Seq<Seq<char>>)>,
    group: Seq<char>,
    canon: Seq<char>,
)
    requires
        sorted_names(gs),
        group_index(gs, group) matches Some(k) ==> forall|i: int|
            0 <= i < gs[k].1.len() && same_path(#[trigger] gs[k].1[i], canon) ==> gs[k].1[i] == canon,
    ensures
        group_index(add_spec(gs, group, canon), group) matches Some(k) && add_spec(gs, group, canon)[k].1.contains(
            canon,
        ),
{
    let ns = add_spec(gs, group, canon);
    match group_index(gs, group) {
        Some(k) => {
            let k0 = choose|i: int| 0 <= i < gs.len() && #[trigger] gs[i].0 == group;
            assert(gs[k0].0 == group);
            lemma_index_unique(gs, group, k0);
            lemma_update_same_name_sorted(gs, k, (group, with_root(gs[k].1, canon)));
            lemma_index_unique(ns, group, k);
            let rs = gs[k].1;
            assert(ns[k].1 == with_root(rs, canon));
            if exists|i: int| 0 <= i < rs.len() && same_path(#[trigger] rs[i], canon) {
                let j = choose|i: int| 0 <= i < rs.len() && same_path(#[trigger] rs[i], canon);
                assert(rs[j] == canon);
                assert(ns[k].1[j] == canon);
            } else {
                assert(ns[k].1[rs.len() as int] == canon);
            }
        },
        None => {
            lemma_added_root_is_listed(gs, group, canon);
            let pos = lemma_insert_pos_range(gs, group, 0);
            assert forall|i: int| 0 <= i < ns.len() && i != pos implies #[trigger] ns[i].0 != group by {
                if i < pos {
                    assert(ns[i] == gs[i]);
                } else {
                    assert(ns[i] == gs[i - 1]);
                }
            }
            lemma_only_index(ns, group, pos);
            assert(ns[pos].1[0] == canon);
        },
    }
}

/// Inference fans out only to a whole group sitting under the directory:
/// whenever the answer is not the directory itself, the directory is no
/// group's member and the answer is the roots of one registered group, none
/// of them missing, each of which has the directory as its parent.
pub proof fn lemma_fan_out_only_to_children(gs: Seq<(Seq<char>, Seq<Seq<char>>)>, canon: Seq<char>)
    ensures
        infer_spec(gs, canon) != seq![canon] ==> {
            &&& !is_member(gs, canon)
            &&& exists|k: int| 0 <= k < gs.len() && #[trigger] gs[k].1 == infer_spec(gs, canon)
            &&& infer_spec(gs, canon).len() > 0
            &&& forall|j: int|
                0 <= j < infer_spec(gs, canon).len() ==> parent_components(#[trigger] infer_spec(gs, canon)[j])
                    == Some(components(canon))
        },
{
    if infer_spec(gs, canon) != seq![canon] {
        let f = |g: (Seq<char>, Seq<Seq<char>>)| parent_of_all(g.1, canon);
        let hits = gs.filter(f);
        assert(hits.len() == 1);
        gs.lemma_filter_pred(f, 0);
        let g = hits[0];
        assert(hits.contains(g));
        gs.lemma_filter_contains_rev(f, g);
        assert(parent_of_all(g.1, canon));
        assert(gs.contains(g));
        let k = choose|k: int| 0 <= k < gs.len() && gs[k] == g;
        assert(gs[k].1 == infer_spec(gs, canon));
    }
}

proof fn lemma_filter_none<A>(s: Seq<A>, p: spec_fn(A) -> bool)
    requires
        forall|i: int| 0 <= i < s.len() ==> !p(#[trigger] s[i]),
    ensures
        s.filter(p).len() == 0,
    decreases s.len(),
{
    reveal(Seq::filter);
    if s.len() > 0 {
        assert forall|i: int| 0 <= i < s.drop_last().len() implies !p(#[trigger] s.drop_last()[i]) by {
            assert(s.drop_last()[i] == s[i]);
        }
        lemma_filter_none(s.drop_last(), p);
        assert(!p(s[s.len() - 1]));
    }
}

proof fn lemma_filter_unique<A>(s: Seq<A>, p: spec_fn(A) -> bool, k: int)
    requires
        0 <= k < s.len(),
        p(s[k]),
        forall|i: int| 0 <= i < s.len() && i != k ==> !p(#[trigger] s[i]),
    ensures
        s.filter(p) == seq![s[k]],
    decreases s.len(),
{
    reveal(Seq::filter);
    let t = s.drop_last();
    if k == s.len() - 1 {
        assert forall|i: int| 0 <= i < t.len() implies !p(#[trigger] t[i]) by {
            assert(t[i] == s[i]);
        }
        lemma_filter_none(t, p);
        assert(t.filter(p) =~= Seq::<A>::empty());
        assert(s.filter(p) =~= seq![s[k]]);
    } else {
        assert forall|i: int| 0 <= i < t.len() && i != k implies !p(#[trigger] t[i]) by {
            assert(t[i] == s[i]);
        }
        assert(t[k] == s[k]);
        lemma_filter_unique(t, p, k);
        assert(!p(s[s.len() - 1]));
    }
}

proof fn lemma_filter_two<A>(s: Seq<A>, p: spec_fn(A) -> bool, a: int, b: int)
    requires
        0 <= a < b < s.len(),
        p(s[a]),
        p(s[b]),
    ensures
        s.filter(p).len() >= 2,
    decreases s.len(),
{
    reveal(Seq::filter);
    let t = s.drop_last();
    assert(t[a] == s[a]);
    if b == s.len() - 1 {
        t.lemma_filter_contains(p, a);
        assert(t.filter(p).len() >= 1);
    } else {
        assert(t[b] == s[b]);
        lemma_filter_two(t, p, a, b);
        t.lemma_filter_len(p);
        if p(s[s.len() - 1]) {
            assert(s.filter(p).len() == t.filter(p).len() + 1);
        } else {
            assert(s.filter(p) == t.filter(p));
        }
    }
}

/// Every root of group `k` is non-empty in number and sits directly under
/// `canon`.
pub open spec fn group_sits_under(gs: Seq<(Seq<char>, Seq<Seq<char>>)>, k: int, canon: Seq<char>) -> bool {
    &&& gs[k].1.len() > 0
    &&& forall|r: int| 0 <= r < gs[k].1.len() ==> parent_components(#[trigger] gs[k].1[r]) == Some(
        components(canon),
    )
}

/// No group lists `canon` (or a spelling of it) as a root.
pub open spec fn no_group_lists(gs: Seq<(Seq<char>, Seq<Seq<char>>)>, canon: Seq<char>) -> bool {
    forall|i: int, r: int|
        0 <= i < gs.len() && 0 <= r < gs[i].1.len() ==> !same_path(#[trigger] gs[i].1[r], canon)
}

/// A directory that is some group's root stands for that one repo.
pub proof fn lemma_member_stays_one_repo(
    gs: Seq<(Seq<char>, Seq<Seq<char>>)>,
    canon: Seq<char>,
    i: int,
    r: int,
)
    requires
        0 <= i < gs.len(),
        0 <= r < gs[i].1.len(),
        same_path(gs[i].1[r], canon),
    ensures
        infer_spec(gs, canon) == seq![canon],
{
    assert(is_member(gs, canon));
}

/// A directory that is no root, under which exactly one group sits whole,
/// stands for that group's roots, in their order.
pub proof fn lemma_fans_out_to_the_one_group_under_it(
    gs: Seq<(Seq<char>, Seq<Seq<char>>)>,
    canon: Seq<char>,
    k: int,
)
    requires
        0 <= k < gs.len(),
        no_group_lists(gs, canon),
        group_sits_under(gs, k, canon),
        forall|k2: int| 0 <= k2 < gs.len() && k2 != k ==> !#[trigger] group_sits_under(gs, k2, canon),
    ensures
        infer_spec(gs, canon) == gs[k].1,
{
    let p = |g: (Seq<char>, Seq<Seq<char>>)| parent_of_all(g.1, canon);
    assert forall|i: int| 0 <= i < gs.len() && i != k implies !p(#[trigger] gs[i]) by {
        assert(!group_sits_under(gs, i, canon));
    }
    lemma_filter_unique(gs, p, k);
    assert(parent_hits(gs, canon) == seq![gs[k]]);
}

/// A directory that is no root stays itself when no group, or more than one,
/// sits whole under it.
pub proof fn lemma_stays_itself_unless_one_group_under_it(
    gs: Seq<(Seq<char>, Seq<Seq<char>>)>,
    canon: Seq<char>,
)
    requires
        no_group_lists(gs, canon),
        (forall|k: int| 0 <= k < gs.len() ==> !#[trigger] group_sits_under(gs, k, canon)) || exists|
            a: int,
            b: int,
        |
            0 <= a < b < gs.len() && #[trigger] group_sits_under(gs, a, canon)
                && #[trigger] group_sits_under(gs, b, canon),
    ensures
        infer_spec(gs, canon) == seq![canon],
{
    let p = |g: (Seq<char>, Seq<Seq<char>>)| parent_of_all(g.1, canon);
    if forall|k: int| 0 <= k < gs.len() ==> !#[trigger] group_sits_under(gs, k, canon) {
        assert forall|i: int| 0 <= i < gs.len() implies !p(#[trigger] gs[i]) by {
            assert(!group_sits_under(gs, i, canon));
        }
        lemma_filter_none(gs, p);
    } else {
        let (a, b) = choose|a: int, b: int|
            0 <= a < b < gs.len() && #[trigger] group_sits_under(gs, a, canon)
                && #[trigger] group_sits_under(gs, b, canon);
        lemma_filter_two(gs, p, a, b);
    }
}

proof fn lemma_insert_pos_range(gs: Seq<(Seq<char>, Seq<Seq<char>>)>, name: Seq<char>, i: int) -> (p: int)
    requires
        0 <= i,
    ensures
        p == insert_pos(gs, name, i),
        0 <= p <= gs.len(),
    decreases gs.len() - i,
{
    if i >= gs.len() || i < 0 {
        gs.len() as int
    } else if lex_lt(name, gs[i].0) {
        i
    } else {
        lemma_insert_pos_range(gs, name, i + 1)
    }
}

/// Adding the same root to the same group twice changes nothing the second
/// time.
pub proof fn lemma_add_is_idempotent(gs: Seq<(Seq<char>, Seq<Seq<char>>)>, group: Seq<char>, canon: Seq<char>)
    requires
        sorted_names(gs),
    ensures
        add_spec(add_spec(gs, group, canon), group, canon) == add_spec(gs, group, canon),
{
    let ns = add_spec(gs, group, canon);
    lemma_added_root_is_listed(gs, group, canon);
    let k = group_index(ns, group).unwrap();
    let rs = ns[k].1;
    let j = choose|j: int| 0 <= j < rs.len() && same_path(#[trigger] rs[j], canon);
    assert(with_root(rs, canon) == rs);
    let k2 = choose|i: int| 0 <= i < ns.len() && #[trigger] ns[i].0 == group;
    assert(ns[k].0 == group);
    assert(ns.update(k, (group, rs)) =~= ns);
}

/// After removing a group, no group of that name is left.
pub proof fn lemma_removed_group_is_gone(gs: Seq<(Seq<char>, Seq<Seq<char>>)>, group: Seq<char>)
    requires
        sorted_names(gs),
    ensures
        group_index(remove_group_spec(gs, group), group) is None,
{
    match group_index(gs, group) {
        Some(k) => {
            let k0 = choose|i: int| 0 <= i < gs.len() && #[trigger] gs[i].0 == group;
            lemma_index_unique(gs, group, k0);
            let ns = gs.remove(k);
            assert forall|i: int| 0 <= i < ns.len() implies #[trigger] ns[i].0 != group by {
                if i < k {
                    assert(ns[i] == gs[i]);
                    assert(lex_lt(gs[i].0, gs[k].0));
                } else {
                    assert(ns[i] == gs[i + 1]);
                    assert(lex_lt(gs[k].0, gs[i + 1].0));
                }
                lemma_lex_irreflexive(group);
            }
        },
        None => {},
    }
}

} // verus!
