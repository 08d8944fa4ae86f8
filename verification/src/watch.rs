//! Debounce rules of the file watcher, and where an event path belongs: which
//! watched repo owns it and its repo-relative path.

use vstd::prelude::*;
use crate::paths::{components, components_exec, join_slash};
use crate::text::{chars_of, string_of, str_views, views};
use crate::walk::{tracked_lang, tracked_lang_spec};

verus! {

/// Keep coalescing up to this long after the first pending change.
pub const DEBOUNCE_MS: u128 = 2000;

/// A small edit flushes after this long.
pub const QUICK_PATH_MS: u128 = 300;

/// At most this many pending files take the quick path.
pub const QUICK_PATH_MAX_FILES: usize = 2;

/// How often the pending sets are polled.
pub const POLL_MS: u64 = 100;

pub open spec fn should_flush_spec(pending: nat, elapsed_ms: nat) -> bool {
    pending > 0 && ((pending <= QUICK_PATH_MAX_FILES && elapsed_ms >= QUICK_PATH_MS) || elapsed_ms
        >= DEBOUNCE_MS)
}

/// Should a pending set of `pending_count` files, `elapsed_ms` after its
/// first change, be flushed now?
pub fn should_flush(pending_count: usize, elapsed_ms: u128) -> (r: bool)
    ensures
        r == should_flush_spec(pending_count as nat, elapsed_ms as nat),
{
    if pending_count == 0 {
        return false;
    }
    if pending_count <= QUICK_PATH_MAX_FILES && elapsed_ms >= QUICK_PATH_MS {
        return true;
    }
    elapsed_ms >= DEBOUNCE_MS
}

/// A repo-relative path whose change the watcher acts on.
pub fn relevant(rel: &str) -> (r: bool)
    ensures
        r == (tracked_lang_spec(rel@) is Some),
{
    tracked_lang(rel).is_some()
}

pub open spec fn backslash_to_slash(s: Seq<char>) -> Seq<char> {
    s.map_values(|c: char| if c == '\\' { '/' } else { c })
}

/// `abs` relative to `root`, when `root`'s components begin `abs`'s; the
/// remaining components are joined with `/`, and backslashes become `/`.
pub open spec fn repo_relative_spec(root: Seq<char>, abs: Seq<char>) -> Option<Seq<char>> {
    let rc = components(root);
    let ac = components(abs);
    if rc.len() <= ac.len() && ac.take(rc.len() as int) == rc {
        Some(backslash_to_slash(join_slash(ac.skip(rc.len() as int))))
    } else {
        None
    }
}

/// Convert an absolute event path to a repo-relative, forward-slash path;
/// `None` when the path is not under `root`.
pub fn to_repo_relative(root: &str, abs: &str) -> (r: Option<String>)
    ensures
        match r {
            Some(s) => repo_relative_spec(root@, abs@) == Some(s@),
            None => repo_relative_spec(root@, abs@) is None,
        },
{
    let rv = chars_of(root);
    let av = chars_of(abs);
    let rc = components_exec(&rv);
    let ac = components_exec(&av);
    assert(views(rc@) == components(root@));
    assert(views(ac@) == components(abs@));
    if rc.len() > ac.len() {
        return None;
    }
    let mut k: usize = 0;
    while k < rc.len()
        invariant
            k <= rc.len() <= ac.len(),
            views(rc@) == components(root@),
            views(ac@) == components(abs@),
            forall|j: int| 0 <= j < k ==> views(ac@)[j] == views(rc@)[j],
        decreases rc.len() - k,
    {
        assert(views(ac@)[k as int] == ac@[k as int]@);
        assert(views(rc@)[k as int] == rc@[k as int]@);
        if !crate::text::seq_eq(&ac[k], &rc[k]) {
            assert(views(ac@).take(rc.len() as int)[k as int] != views(rc@)[k as int]);
            assert(views(ac@).take(rc.len() as int) != views(rc@));
            assert(repo_relative_spec(root@, abs@) is None);
            return None;
        }
        k += 1;
    }
    assert(views(ac@).take(rc.len() as int) =~= views(rc@));
    let mut out: Vec<char> = Vec::new();
    let n = rc.len();
    let ghost rest = views(ac@).skip(n as int);
    let mut i: usize = n;
    while i < ac.len()
        invariant
            n <= i <= ac.len(),
            n == rc.len(),
            views(rc@) == components(root@),
            views(ac@) == components(abs@),
            views(ac@).take(n as int) == views(rc@),
            rest == views(ac@).skip(n as int),
            out@ == backslash_to_slash(join_slash(rest.take(i - n))),
        decreases ac.len() - i,
    {
        let ghost before = out@;
        assert(rest.take(i + 1 - n).drop_last() =~= rest.take(i - n));
        assert(rest[i - n] == ac@[i as int]@);
        if i > n {
            out.push('/');
        }
        let c = &ac[i];
        let mut j: usize = 0;
        let ghost mid = out@;
        while j < c.len()
            invariant
                j <= c.len(),
                out@ == mid + backslash_to_slash(c@.take(j as int)),
            decreases c.len() - j,
        {
            let ch = if c[j] == '\\' {
                '/'
            } else {
                c[j]
            };
            out.push(ch);
            assert(c@.take(j + 1) =~= c@.take(j as int).push(c@[j as int]));
            assert(backslash_to_slash(c@.take(j + 1)) =~= backslash_to_slash(c@.take(j as int)).push(
                ch,
            ));
            assert(out@ =~= mid + backslash_to_slash(c@.take(j + 1)));
            j += 1;
        }
        assert(c@.take(c.len() as int) =~= c@);
        proof {
            let t = rest.take(i + 1 - n);
            if i == n {
                assert(join_slash(t) == c@);
                assert(join_slash(rest.take(0)) =~= Seq::<char>::empty());
                assert(mid =~= Seq::<char>::empty());
                assert(out@ =~= backslash_to_slash(join_slash(t)));
            } else {
                assert(join_slash(t) == join_slash(rest.take(i - n)) + seq!['/'] + c@);
                assert(backslash_to_slash(join_slash(t)) =~= backslash_to_slash(
                    join_slash(rest.take(i - n)),
                ) + seq!['/'] + backslash_to_slash(c@));
                assert(out@ =~= backslash_to_slash(join_slash(t)));
            }
        }
        i += 1;
    }
    assert(rest.take(ac.len() - n) =~= rest);
    Some(string_of(&out))
}

/// The first watched root that contains `abs`, with the path relative to it —
/// provided the watcher tracks that file.
pub open spec fn owning_root_spec(roots: Seq<Seq<char>>, abs: Seq<char>, i: int) -> Option<(int, Seq<char>)>
    decreases roots.len() - i,
{
    if i < 0 || i >= roots.len() {
        None
    } else {
        match repo_relative_spec(roots[i], abs) {
            Some(rel) => if tracked_lang_spec(rel) is Some {
                Some((i, rel))
            } else {
                owning_root_spec(roots, abs, i + 1)
            },
            None => owning_root_spec(roots, abs, i + 1),
        }
    }
}

/// Which watched root an absolute event path belongs to, and its
/// repo-relative path; `None` when it is under no root or not a file the indexer reads.
pub fn owning_root<'a>(roots: &'a [String], abs: &str) -> (r: Option<(&'a String, String)>)
    ensures
        match r {
            Some((root, rel)) => exists|i: int|
                0 <= i < roots@.len() && roots@[i] == *root && owning_root_spec(
                    crate::text::str_views(roots@),
                    abs@,
                    0,
                ) == Some((i, rel@)),
            None => owning_root_spec(crate::text::str_views(roots@), abs@, 0) is None,
        },
{
    let ghost rs = crate::text::str_views(roots@);
    let mut i: usize = 0;
    while i < roots.len()
        invariant
            i <= roots.len(),
            rs == crate::text::str_views(roots@),
            owning_root_spec(rs, abs@, 0) == owning_root_spec(rs, abs@, i as int),
        decreases roots.len() - i,
    {
        assert(rs[i as int] == roots@[i as int]@);
        match to_repo_relative(roots[i].as_str(), abs) {
            Some(rel) => {
                if relevant(rel.as_str()) {
                    return Some((&roots[i], rel));
                }
            },
            None => {},
        }
        i += 1;
    }
    None
}


// ------------------------------------------------------------ the loop ---

/// Changes waiting in one watched repo: the repo-relative paths seen since the
/// last flush (each once), and when the first of them arrived (milliseconds on
/// the watcher's clock).
pub struct Pending {
    pub files: Vec<String>,
    pub first_at_ms: Option<u128>,
}

/// A repo whose pending set is to be flushed: its index among the watched
/// roots and how many files changed.
pub struct Flush {
    pub repo: usize,
    pub files: usize,
}

/// What the watch loop remembers between events: one pending set per root.
pub struct WatchState {
    pub repos: Vec<Pending>,
}

pub open spec fn pending_wf(p: Pending) -> bool {
    &&& str_views(p.files@).no_duplicates()
    &&& (p.first_at_ms is Some <==> p.files@.len() > 0)
}

/// Time since the first pending change; zero if the clock reads earlier.
pub open spec fn elapsed_spec(first: u128, now: u128) -> nat {
    if now >= first {
        (now - first) as nat
    } else {
        0
    }
}

/// Is this repo's pending set due for a flush at `now`?
pub open spec fn due_spec(p: Pending, now: u128) -> bool {
    match p.first_at_ms {
        Some(first) => should_flush_spec(p.files@.len(), elapsed_spec(first, now)),
        None => false,
    }
}

impl WatchState {
    pub open spec fn wf(&self) -> bool {
        forall|i: int| 0 <= i < self.repos@.len() ==> #[trigger] pending_wf(self.repos@[i])
    }

    /// The pending paths of repo `i`.
    pub open spec fn files_of(&self, i: int) -> Seq<Seq<char>> {
        str_views(self.repos@[i].files@)
    }

    /// Nothing pending in any of `n` repos.
    pub fn new(n: usize) -> (s: Self)
        ensures
            s.wf(),
            s.repos@.len() == n,
            forall|i: int| 0 <= i < n ==> #[trigger] s.repos@[i].files@.len() == 0
                && s.repos@[i].first_at_ms is None,
    {
        let mut repos: Vec<Pending> = Vec::new();
        let mut k: usize = 0;
        while k < n
            invariant
                k <= n,
                repos@.len() == k,
                forall|i: int| 0 <= i < k ==> #[trigger] repos@[i].files@.len() == 0
                    && repos@[i].first_at_ms is None,
            decreases n - k,
        {
            repos.push(Pending { files: Vec::new(), first_at_ms: None });
            k += 1;
        }
        let s = WatchState { repos };
        assert forall|i: int| 0 <= i < s.repos@.len() implies #[trigger] pending_wf(s.repos@[i]) by {
            assert(str_views(s.repos@[i].files@) =~= Seq::<Seq<char>>::empty());
        }
        s
    }

    /// A change to `rel` in repo `i` at `now_ms`: the path joins the repo's
    /// pending set unless it is there already, and the first change of a set
    /// starts its clock. No other repo changes.
    pub fn note(&mut self, i: usize, rel: String, now_ms: u128)
        requires
            old(self).wf(),
            i < old(self).repos@.len(),
        ensures
            final(self).wf(),
            final(self).repos@.len() == old(self).repos@.len(),
            forall|j: int| 0 <= j < old(self).repos@.len() && j != i ==> #[trigger] final(self).repos@[j]
                == old(self).repos@[j],
            old(self).files_of(i as int).contains(rel@) ==> final(self).repos@[i as int] == old(
                self,
            ).repos@[i as int],
            !old(self).files_of(i as int).contains(rel@) ==> {
                &&& final(self).files_of(i as int) == old(self).files_of(i as int).push(rel@)
                &&& final(self).repos@[i as int].first_at_ms == match old(self).repos@[i as int].first_at_ms {
                    Some(t) => Some(t),
                    None => Some(now_ms),
                }
            },
    {
        let ghost before = self.files_of(i as int);
        assert(pending_wf(self.repos@[i as int]));
        let mut k: usize = 0;
        while k < self.repos[i].files.len()
            invariant
                k <= self.repos@[i as int].files@.len(),
                i < self.repos@.len(),
                *self == *old(self),
                self.wf(),
                before == self.files_of(i as int),
                forall|m: int| 0 <= m < k ==> before[m] != rel@,
            decreases self.repos@[i as int].files@.len() - k,
        {
            if crate::text::text_is(self.repos[i].files[k].as_str(), rel.as_str()) {
                assert(before[k as int] == rel@);
                return;
            }
            k += 1;
        }
        assert(!before.contains(rel@));
        let mut p = Pending { files: Vec::new(), first_at_ms: None };
        std::mem::swap(&mut p, &mut self.repos[i]);
        let first = match p.first_at_ms {
            Some(t) => Some(t),
            None => Some(now_ms),
        };
        let mut files = p.files;
        files.push(rel);
        proof {
            assert(str_views(files@) =~= before.push(rel@));
            lemma_push_keeps_distinct(before, rel@);
        }
        self.repos.set(i, Pending { files, first_at_ms: first });
        assert(self.files_of(i as int) =~= before.push(rel@));
        assert forall|j: int| 0 <= j < self.repos@.len() implies #[trigger] pending_wf(self.repos@[j]) by {
            if j != i {
                assert(self.repos@[j] == old(self).repos@[j]);
            }
        }
    }

    /// Take every repo that is due at `now_ms`, in root order: each is
    /// reported with its count of changed files and its pending set is
    /// emptied; the others are left as they were.
    pub fn take_due(&mut self, now_ms: u128) -> (r: Vec<Flush>)
        requires
            old(self).wf(),
        ensures
            final(self).wf(),
            final(self).repos@.len() == old(self).repos@.len(),
            forall|k: int| 0 <= k < r@.len() ==> {
                &&& (#[trigger] r@[k]).repo < old(self).repos@.len()
                &&& due_spec(old(self).repos@[r@[k].repo as int], now_ms)
                &&& r@[k].files == old(self).repos@[r@[k].repo as int].files@.len()
            },
            forall|k: int, m: int| 0 <= k < m < r@.len() ==> r@[k].repo < r@[m].repo,
            forall|j: int| 0 <= j < old(self).repos@.len() && due_spec(old(self).repos@[j], now_ms)
                ==> exists|k: int| 0 <= k < r@.len() && (#[trigger] r@[k]).repo == j,
            forall|j: int| 0 <= j < old(self).repos@.len() ==> {
                if due_spec(old(self).repos@[j], now_ms) {
                    &&& (#[trigger] final(self).repos@[j]).files@.len() == 0
                    &&& final(self).repos@[j].first_at_ms is None
                } else {
                    final(self).repos@[j] == old(self).repos@[j]
                }
            },
    {
        let mut out: Vec<Flush> = Vec::new();
        let mut i: usize = 0;
        let n = self.repos.len();
        while i < n
            invariant
                n == old(self).repos@.len(),
                self.repos@.len() == n,
                i <= n,
                self.wf(),
                forall|k: int| 0 <= k < out@.len() ==> {
                    &&& (#[trigger] out@[k]).repo < i
                    &&& due_spec(old(self).repos@[out@[k].repo as int], now_ms)
                    &&& out@[k].files == old(self).repos@[out@[k].repo as int].files@.len()
                },
                forall|k: int, m: int| 0 <= k < m < out@.len() ==> out@[k].repo < out@[m].repo,
                forall|j: int| 0 <= j < i && due_spec(old(self).repos@[j], now_ms)
                    ==> exists|k: int| 0 <= k < out@.len() && (#[trigger] out@[k]).repo == j,
                forall|j: int| 0 <= j < i ==> {
                    if due_spec(old(self).repos@[j], now_ms) {
                        &&& (#[trigger] self.repos@[j]).files@.len() == 0
                        &&& self.repos@[j].first_at_ms is None
                    } else {
                        self.repos@[j] == old(self).repos@[j]
                    }
                },
                forall|j: int| i <= j < n ==> #[trigger] self.repos@[j] == old(self).repos@[j],
            decreases n - i,
        {
            let due = match self.repos[i].first_at_ms {
                Some(first) => {
                    let elapsed: u128 = if now_ms >= first {
                        now_ms - first
                    } else {
                        0
                    };
                    should_flush(self.repos[i].files.len(), elapsed)
                },
                None => false,
            };
            assert(due == due_spec(old(self).repos@[i as int], now_ms));
            if due {
                let count = self.repos[i].files.len();
                self.repos.set(i, Pending { files: Vec::new(), first_at_ms: None });
                assert(str_views(self.repos@[i as int].files@) =~= Seq::<Seq<char>>::empty());
                let ghost before_out = out@;
                out.push(Flush { repo: i, files: count });
                assert forall|j: int| 0 <= j <= i && due_spec(old(self).repos@[j], now_ms)
                    implies exists|k: int| 0 <= k < out@.len() && (#[trigger] out@[k]).repo == j by {
                    if j == i {
                        assert(out@[before_out.len() as int].repo == j);
                    } else {
                        let k = choose|k: int| 0 <= k < before_out.len() && (#[trigger] before_out[k]).repo == j;
                        assert(out@[k] == before_out[k]);
                    }
                }
            }
            assert forall|j: int| 0 <= j < self.repos@.len() implies #[trigger] pending_wf(self.repos@[j]) by {
                if j != i || !due {
                    assert(pending_wf(self.repos@[j]));
                }
            }
            i += 1;
        }
        out
    }
}

proof fn lemma_push_keeps_distinct(s: Seq<Seq<char>>, x: Seq<char>)
    requires
        s.no_duplicates(),
        !s.contains(x),
    ensures
        s.push(x).no_duplicates(),
{
    assert forall|a: int, b: int| 0 <= a < s.push(x).len() && 0 <= b < s.push(x).len() && a != b
        implies s.push(x)[a] != s.push(x)[b] by {
        if a == s.len() as int {
            assert(s[b] == s.push(x)[b]);
        } else if b == s.len() as int {
            assert(s[a] == s.push(x)[a]);
        }
    }
}

pub open spec fn flush_message_spec(n: nat, label: Option<Seq<char>>) -> Seq<char> {
    "\u{21bb} "@ + crate::text::decimal(n) + " file"@ + (if n == 1 {
        Seq::<char>::empty()
    } else {
        "s"@
    }) + " changed"@ + match label {
        Some(l) => " in "@ + l,
        None => Seq::<char>::empty(),
    } + " \u{2192} ensure"@
}

/// The line printed when a flush runs: how many files changed and, when more
/// than one root is watched, which repo (by its label).
pub fn flush_message(n: usize, root: &str, several_roots: bool) -> (r: String)
    ensures
        r@ == flush_message_spec(
            n as nat,
            if several_roots {
                Some(crate::trust::repo_label_spec(root@))
            } else {
                None
            },
        ),
{
    let mut out = chars_of("\u{21bb} ");
    crate::text::push_decimal(&mut out, n as u64);
    crate::text::push_all(&mut out, &chars_of(" file"));
    if n != 1 {
        out.push('s');
    }
    crate::text::push_all(&mut out, &chars_of(" changed"));
    if several_roots {
        crate::text::push_all(&mut out, &chars_of(" in "));
        let l = crate::trust::repo_label(root);
        crate::text::push_all(&mut out, &chars_of(l.as_str()));
    }
    crate::text::push_all(&mut out, &chars_of(" \u{2192} ensure"));
    proof {
        reveal_strlit("s");
    }
    string_of(&out)
}

// ------------------------------------------------------------------ laws ---

/// The debounce only ever waits: a pending set that is due stays due as time
/// passes, every non-empty set is due once the full debounce has elapsed,
/// and an empty set never is.
pub proof fn lemma_flush_is_monotone(pending: nat, t: nat, later: nat)
    requires
        t <= later,
    ensures
        should_flush_spec(pending, t) ==> should_flush_spec(pending, later),
        pending > 0 ==> should_flush_spec(pending, DEBOUNCE_MS as nat),
        !should_flush_spec(0, t),
        should_flush_spec(pending, t) ==> t >= QUICK_PATH_MS,
{
}


/// Pending edits are kept per repo: a repo with nothing pending is never due,
/// so a burst of changes in one repo never flushes a quiet sibling.
pub proof fn lemma_quiet_repo_never_flushes(p: Pending, now_ms: u128)
    requires
        pending_wf(p),
        p.files@.len() == 0,
    ensures
        !due_spec(p, now_ms),
{
}

} // verus!
