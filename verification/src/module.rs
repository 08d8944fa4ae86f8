//! Specifier → file. Relative, tsconfig `paths`/`baseUrl`, workspace packages.
//! `export *` barrels are followed at export lookup in `resolve`; this module
//! only answers "which known file does this specifier hit?".

use vstd::prelude::*;
use crate::model::opt_view;
use crate::text::{
    occurs_at, chars_of, concat, ends_with, find_char, find_char_exec, has_prefix, has_suffix, join, join_exec,
    lines, lines_exec, occurs_at_exec, push_all, seq_eq, slice_of, split_char, split_char_exec,
    starts_with, str_views, string_of, strip_prefixes, strip_prefixes_exec, strip_trailing,
    strip_trailing_exec, views, find, find_from, find_exec, find_from_exec, lemma_find_from_range,
    lemma_find_char_from_range, rfind_char, rfind_char_exec, lemma_rfind_char_range,
};

verus! {

/// Module-resolution config. Empty = relative + `index` only.
#[derive(Debug, Clone)]
pub struct ResolveConfig {
    /// Alias glob → targets, e.g. `@/*` → [`src/*`].
    pub tsconfig_paths: Vec<(String, Vec<String>)>,
    pub base_url: Option<String>,
    /// Package name → directory.
    pub workspace_pkgs: Vec<(String, String)>,
}

pub ghost struct ResolveConfigV {
    pub paths: Seq<(Seq<char>, Seq<Seq<char>>)>,
    pub base_url: Option<Seq<char>>,
    pub pkgs: Seq<(Seq<char>, Seq<char>)>,
}

impl View for ResolveConfig {
    type V = ResolveConfigV;

    open spec fn view(&self) -> ResolveConfigV {
        ResolveConfigV {
            paths: self.tsconfig_paths@.map_values(
                |e: (String, Vec<String>)| (e.0@, str_views(e.1@)),
            ),
            base_url: opt_view(self.base_url),
            pkgs: self.workspace_pkgs@.map_values(|e: (String, String)| (e.0@, e.1@)),
        }
    }
}

/// Key `k` with `v` in place of any earlier value, else appended.
pub open spec fn map_set<V>(m: Seq<(Seq<char>, V)>, k: Seq<char>, v: V) -> Seq<(Seq<char>, V)> {
    if exists|i: int| 0 <= i < m.len() && m[i].0 == k {
        m.update(choose|i: int| 0 <= i < m.len() && m[i].0 == k && forall|j: int| 0 <= j < i ==> m[j].0 != k, (k, v))
    } else {
        m.push((k, v))
    }
}

/// First value stored under `k`.
pub open spec fn map_get<V>(m: Seq<(Seq<char>, V)>, k: Seq<char>) -> Option<V>
    decreases m.len(),
{
    if m.len() == 0 {
        None
    } else if m[0].0 == k {
        Some(m[0].1)
    } else {
        map_get(m.subrange(1, m.len() as int), k)
    }
}

/// No aliases, no `baseUrl`, no workspace packages.
pub open spec fn empty_config() -> ResolveConfigV {
    ResolveConfigV { paths: Seq::empty(), base_url: None, pkgs: Seq::empty() }
}

impl Default for ResolveConfig {
    fn default() -> (r: ResolveConfig)
        ensures
            r@ == empty_config(),
    {
        let r = ResolveConfig { tsconfig_paths: Vec::new(), base_url: None, workspace_pkgs: Vec::new() };
        assert(r@.paths =~= empty_config().paths);
        assert(r@.pkgs =~= empty_config().pkgs);
        r
    }
}

impl ResolveConfig {
    /// Set the targets of one alias pattern (replacing an earlier setting).
    pub fn set_path(&mut self, pattern: String, targets: Vec<String>)
        ensures
            final(self)@.paths == map_set(old(self)@.paths, pattern@, str_views(targets@)),
            final(self)@.base_url == old(self)@.base_url,
            final(self)@.pkgs == old(self)@.pkgs,
    {
        let ghost k = pattern@;
        let ghost m = old(self)@.paths;
        let mut i: usize = 0;
        while i < self.tsconfig_paths.len()
            invariant
                self@ == old(self)@,
                m == old(self)@.paths,
                m.len() == self.tsconfig_paths@.len(),
                k == pattern@,
                i <= m.len(),
                forall|j: int| 0 <= j < i ==> m[j].0 != k,
            decreases self.tsconfig_paths.len() - i,
        {
            assert(m[i as int].0 == self.tsconfig_paths@[i as int].0@);
            if self.tsconfig_paths[i].0 == pattern {
                let ghost w = i as int;
                assert(exists|j: int| 0 <= j < m.len() && m[j].0 == k);
                let ghost c = choose|j: int| 0 <= j < m.len() && m[j].0 == k && forall|l: int| 0 <= l < j ==> m[l].0 != k;
                assert(c == w) by {
                    assert(0 <= w < m.len() && m[w].0 == k && forall|l: int| 0 <= l < w ==> m[l].0 != k);
                    if c < w {
                        assert(m[c].0 != k);
                    } else if c > w {
                        assert(m[w].0 != k);
                    }
                }
                let ghost tv = str_views(targets@);
                self.tsconfig_paths.set(i, (pattern, targets));
                assert(self@.paths =~= map_set(m, k, tv));
                return;
            }
            i += 1;
        }
        let ghost tv = str_views(targets@);
        self.tsconfig_paths.push((pattern, targets));
        assert(self@.paths =~= map_set(m, k, tv));
    }

    /// Register a workspace package directory (replacing an earlier one).
    pub fn set_workspace_pkg(&mut self, name: String, dir: String)
        ensures
            final(self)@.pkgs == map_set(old(self)@.pkgs, name@, dir@),
            final(self)@.base_url == old(self)@.base_url,
            final(self)@.paths == old(self)@.paths,
    {
        let ghost k = name@;
        let ghost m = old(self)@.pkgs;
        let mut i: usize = 0;
        while i < self.workspace_pkgs.len()
            invariant
                self@ == old(self)@,
                m == old(self)@.pkgs,
                m.len() == self.workspace_pkgs@.len(),
                k == name@,
                i <= m.len(),
                forall|j: int| 0 <= j < i ==> m[j].0 != k,
            decreases self.workspace_pkgs.len() - i,
        {
            assert(m[i as int].0 == self.workspace_pkgs@[i as int].0@);
            if self.workspace_pkgs[i].0 == name {
                let ghost w = i as int;
                let ghost c = choose|j: int| 0 <= j < m.len() && m[j].0 == k && forall|l: int| 0 <= l < j ==> m[l].0 != k;
                assert(c == w) by {
                    assert(0 <= w < m.len() && m[w].0 == k && forall|l: int| 0 <= l < w ==> m[l].0 != k);
                    if c < w {
                        assert(m[c].0 != k);
                    } else if c > w {
                        assert(m[w].0 != k);
                    }
                }
                let ghost dv = dir@;
                self.workspace_pkgs.set(i, (name, dir));
                assert(self@.pkgs =~= map_set(m, k, dv));
                return;
            }
            i += 1;
        }
        let ghost dv = dir@;
        self.workspace_pkgs.push((name, dir));
        assert(self@.pkgs =~= map_set(m, k, dv));
    }

    /// Set `baseUrl`.
    pub fn set_base_url(&mut self, base: Option<String>)
        ensures
            final(self)@.base_url == opt_view(base),
            final(self)@.paths == old(self)@.paths,
            final(self)@.pkgs == old(self)@.pkgs,
    {
        self.base_url = base;
    }
}

// ------------------------------------------------------------ path specs ---

pub open spec fn slash() -> Seq<char> {
    seq!['/']
}

pub open spec fn dot() -> Seq<char> {
    seq!['.']
}

pub open spec fn dotdot() -> Seq<char> {
    seq!['.', '.']
}

pub open spec fn dot_slash() -> Seq<char> {
    seq!['.', '/']
}

/// Segment stack after applying `.` / `..` / empty-segment rules.
pub open spec fn norm_parts(parts: Seq<Seq<char>>) -> Seq<Seq<char>>
    decreases parts.len(),
{
    if parts.len() == 0 {
        Seq::empty()
    } else {
        let acc = norm_parts(parts.drop_last());
        let p = parts.last();
        if p.len() == 0 || p == dot() {
            acc
        } else if p == dotdot() {
            if acc.len() > 0 {
                acc.drop_last()
            } else {
                acc
            }
        } else {
            acc.push(p)
        }
    }
}

/// `src/foo/../bar` → `src/bar`: drops empty and `.` segments, `..` pops.
pub open spec fn normalize_spec(path: Seq<char>) -> Seq<char> {
    join(norm_parts(split_char(path, '/')), slash())
}

/// Extensions tried, in order, when a specifier does not name a file.
pub open spec fn try_exts() -> Seq<Seq<char>> {
    seq![
        seq!['t', 's'],
        seq!['t', 's', 'x'],
        seq!['j', 's'],
        seq!['j', 's', 'x'],
        seq!['m', 't', 's'],
        seq!['c', 't', 's'],
        seq!['m', 'j', 's'],
        seq!['c', 'j', 's'],
    ]
}

/// Extensions stripped (first match wins) before trying others.
pub open spec fn strip_exts() -> Seq<Seq<char>> {
    seq![
        seq!['.', 't', 's', 'x'],
        seq!['.', 't', 's'],
        seq!['.', 'j', 's', 'x'],
        seq!['.', 'm', 'j', 's'],
        seq!['.', 'c', 'j', 's'],
        seq!['.', 'j', 's'],
        seq!['.', 'm', 't', 's'],
        seq!['.', 'c', 't', 's'],
    ]
}

pub open spec fn strip_ext_from(p: Seq<char>, exts: Seq<Seq<char>>, i: int) -> Seq<char>
    decreases exts.len() - i,
{
    if i < 0 || i >= exts.len() {
        p
    } else if has_suffix(p, exts[i]) {
        p.subrange(0, p.len() - exts[i].len())
    } else {
        strip_ext_from(p, exts, i + 1)
    }
}

pub open spec fn strip_known_ext_spec(p: Seq<char>) -> Seq<char> {
    strip_ext_from(p, strip_exts(), 0)
}

pub open spec fn index_dot() -> Seq<char> {
    seq!['/', 'i', 'n', 'd', 'e', 'x', '.']
}

/// `stem.ext` for each extension, then `stem/index.ext` for each.
pub open spec fn hit_candidates(stem: Seq<char>) -> Seq<Seq<char>> {
    Seq::new(
        16,
        |k: int|
            if k < 8 {
                stem + dot() + try_exts()[k]
            } else {
                stem + index_dot() + try_exts()[k - 8]
            },
    )
}

/// First candidate (from `i`) that is a known file.
pub open spec fn first_known(cands: Seq<Seq<char>>, files: Seq<Seq<char>>, i: int) -> Option<
    Seq<char>,
>
    decreases cands.len() - i,
{
    if i < 0 || i >= cands.len() {
        None
    } else if files.contains(cands[i]) {
        Some(cands[i])
    } else {
        first_known(cands, files, i + 1)
    }
}

/// The known file a repo-relative path hits: itself, else with an extension
/// (after dropping a known one), else its `index` file.
pub open spec fn hit_file_spec(rel: Seq<char>, files: Seq<Seq<char>>) -> Option<Seq<char>> {
    let r = normalize_spec(strip_prefixes(rel, dot_slash()));
    if files.contains(r) {
        Some(r)
    } else {
        first_known(hit_candidates(strip_known_ext_spec(r)), files, 0)
    }
}

/// Directory part of a path (before the last `/`), or empty.
pub open spec fn dir_of(f: Seq<char>) -> Seq<char> {
    match rfind_char(f, '/') {
        Some(i) => f.subrange(0, i),
        None => Seq::empty(),
    }
}

pub open spec fn resolve_relative_spec(from: Seq<char>, spec: Seq<char>, files: Seq<Seq<char>>) -> Option<Seq<char>> {
    let d = dir_of(from);
    let joined = if d.len() == 0 {
        strip_prefixes(spec, dot_slash())
    } else {
        d + slash() + spec
    };
    hit_file_spec(normalize_spec(joined), files)
}

/// Package name and subpath of a bare specifier (`@scope/name/sub` or `name/sub`).
pub open spec fn split_pkg_spec(spec: Seq<char>) -> (Seq<char>, Seq<char>) {
    if has_prefix(spec, seq!['@']) {
        match find_char(spec, '/') {
            None => (spec + slash(), Seq::empty()),
            Some(i) => {
                let scope = spec.subrange(0, i);
                let rest = spec.subrange(i + 1, spec.len() as int);
                match find_char(rest, '/') {
                    None => (scope + slash() + rest, Seq::empty()),
                    Some(j) => (
                        scope + slash() + rest.subrange(0, j),
                        rest.subrange(j + 1, rest.len() as int),
                    ),
                }
            },
        }
    } else {
        match find_char(spec, '/') {
            Some(i) => (spec.subrange(0, i), spec.subrange(i + 1, spec.len() as int)),
            None => (spec, Seq::empty()),
        }
    }
}

/// Entry points tried for a bare workspace package import.
pub open spec fn pkg_entries() -> Seq<Seq<char>> {
    seq![
        seq!['s', 'r', 'c', '/', 'i', 'n', 'd', 'e', 'x'],
        seq!['i', 'n', 'd', 'e', 'x'],
        seq!['d', 'i', 's', 't', '/', 'i', 'n', 'd', 'e', 'x'],
        seq!['l', 'i', 'b', '/', 'i', 'n', 'd', 'e', 'x'],
    ]
}

pub open spec fn under_dir(dir: Seq<char>, p: Seq<char>) -> Seq<char> {
    if dir == dot() {
        p
    } else {
        dir + slash() + p
    }
}

pub open spec fn first_pkg_entry(dir: Seq<char>, files: Seq<Seq<char>>, i: int) -> Option<Seq<char>>
    decreases 4 - i,
{
    if i < 0 || i >= 4 {
        None
    } else {
        match hit_file_spec(under_dir(dir, pkg_entries()[i]), files) {
            Some(h) => Some(h),
            None => first_pkg_entry(dir, files, i + 1),
        }
    }
}

pub open spec fn resolve_package_spec(spec: Seq<char>, cfg: ResolveConfigV, files: Seq<Seq<char>>) -> Option<Seq<char>> {
    let (pkg, sub) = split_pkg_spec(spec);
    match map_get(cfg.pkgs, pkg) {
        None => None,
        Some(dir) => if sub.len() == 0 {
            first_pkg_entry(dir, files, 0)
        } else {
            hit_file_spec(under_dir(dir, sub), files)
        },
    }
}

/// The part of `spec` an alias pattern leaves over, when it matches.
pub open spec fn alias_rest(pattern: Seq<char>, spec: Seq<char>) -> Option<Seq<char>> {
    if has_suffix(pattern, seq!['/', '*']) {
        let prefix = pattern.drop_last();
        if has_prefix(spec, prefix) {
            Some(spec.subrange(prefix.len() as int, spec.len() as int))
        } else {
            None
        }
    } else if spec == pattern {
        Some(Seq::empty())
    } else if has_prefix(spec, pattern) && spec.len() > pattern.len() && spec[pattern.len() as int]
        == '/' {
        Some(spec.subrange(pattern.len() as int + 1, spec.len() as int))
    } else {
        None
    }
}

/// Trailing `/`-less, non-root `baseUrl`, if it shifts paths at all.
pub open spec fn base_prefix(base: Option<Seq<char>>) -> Option<Seq<char>> {
    match base {
        Some(b) => {
            let b2 = strip_trailing(b, '/');
            if b2.len() == 0 || b2 == dot() {
                None
            } else {
                Some(b2)
            }
        },
        None => None,
    }
}

/// The path an alias target maps `rest` to.
pub open spec fn alias_candidate(star: bool, target0: Seq<char>, rest: Seq<char>, base: Option<Seq<char>>) -> Seq<char> {
    let t1 = if star && has_suffix(target0, seq!['/', '*']) {
        target0.subrange(0, target0.len() - 2)
    } else if star && has_suffix(target0, seq!['*']) {
        target0.drop_last()
    } else {
        target0
    };
    let t2 = strip_trailing(strip_prefixes(t1, dot_slash()), '/');
    let t3 = match base_prefix(base) {
        Some(b) => if !has_prefix(t2, slash()) {
            b + slash() + t2
        } else {
            t2
        },
        None => t2,
    };
    if rest.len() == 0 {
        t3
    } else if t3.len() == 0 {
        rest
    } else {
        t3 + slash() + rest
    }
}

pub open spec fn alias_targets_hit(
    star: bool,
    targets: Seq<Seq<char>>,
    rest: Seq<char>,
    base: Option<Seq<char>>,
    files: Seq<Seq<char>>,
    i: int,
) -> Option<Seq<char>>
    decreases targets.len() - i,
{
    if i < 0 || i >= targets.len() {
        None
    } else {
        match hit_file_spec(alias_candidate(star, targets[i], rest, base), files) {
            Some(h) => Some(h),
            None => alias_targets_hit(star, targets, rest, base, files, i + 1),
        }
    }
}

/// What one alias entry resolves `spec` to.
pub open spec fn alias_try(
    spec: Seq<char>,
    entry: (Seq<char>, Seq<Seq<char>>),
    base: Option<Seq<char>>,
    files: Seq<Seq<char>>,
) -> Option<Seq<char>> {
    match alias_rest(entry.0, spec) {
        None => None,
        Some(rest) => alias_targets_hit(
            has_suffix(entry.0, seq!['/', '*']),
            entry.1,
            rest,
            base,
            files,
            0,
        ),
    }
}

/// Among entries (from `i`) whose pattern has length `len`, the first hit.
pub open spec fn alias_hit_at_len(
    spec: Seq<char>,
    cfg: ResolveConfigV,
    files: Seq<Seq<char>>,
    len: int,
    i: int,
) -> Option<Seq<char>>
    decreases cfg.paths.len() - i,
{
    if i < 0 || i >= cfg.paths.len() {
        None
    } else if cfg.paths[i].0.len() == len {
        match alias_try(spec, cfg.paths[i], cfg.base_url, files) {
            Some(h) => Some(h),
            None => alias_hit_at_len(spec, cfg, files, len, i + 1),
        }
    } else {
        alias_hit_at_len(spec, cfg, files, len, i + 1)
    }
}

/// Longest patterns first (ties in configuration order): first hit.
pub open spec fn alias_hit_from_len(spec: Seq<char>, cfg: ResolveConfigV, files: Seq<Seq<char>>, len: int) -> Option<
    Seq<char>,
>
    decreases len + 1,
{
    if len < 0 {
        None
    } else {
        match alias_hit_at_len(spec, cfg, files, len, 0) {
            Some(h) => Some(h),
            None => alias_hit_from_len(spec, cfg, files, len - 1),
        }
    }
}

pub open spec fn max_key_len(paths: Seq<(Seq<char>, Seq<Seq<char>>)>) -> int
    decreases paths.len(),
{
    if paths.len() == 0 {
        0
    } else {
        let m = max_key_len(paths.drop_last());
        if paths.last().0.len() > m {
            paths.last().0.len() as int
        } else {
            m
        }
    }
}

pub open spec fn resolve_alias_spec(spec: Seq<char>, cfg: ResolveConfigV, files: Seq<Seq<char>>) -> Option<Seq<char>> {
    alias_hit_from_len(spec, cfg, files, max_key_len(cfg.paths))
}

/// Which known file a specifier imported from `from` names: relative, alias,
/// `baseUrl`, workspace package — in that order.
pub open spec fn resolve_module_spec(from: Seq<char>, spec: Seq<char>, files: Seq<Seq<char>>, cfg: ResolveConfigV) -> Option<
    Seq<char>,
> {
    if has_prefix(spec, dot()) || has_prefix(spec, slash()) {
        resolve_relative_spec(from, spec, files)
    } else {
        match resolve_alias_spec(spec, cfg, files) {
            Some(h) => Some(h),
            None => {
                let by_base = match cfg.base_url {
                    Some(b) => {
                        let b2 = strip_trailing(b, '/');
                        let cand = if b2.len() == 0 || b2 == dot() {
                            spec
                        } else {
                            b2 + slash() + spec
                        };
                        hit_file_spec(cand, files)
                    },
                    None => None,
                };
                match by_base {
                    Some(h) => Some(h),
                    None => resolve_package_spec(spec, cfg, files),
                }
            },
        }
    }
}

// ------------------------------------------------------------------ exec ---

/// Is `x` one of the known files?
pub fn contains_text(files: &Vec<String>, x: &[char]) -> (r: bool)
    ensures
        r == str_views(files@).contains(x@),
{
    let mut i: usize = 0;
    while i < files.len()
        invariant
            i <= files.len(),
            forall|k: int| 0 <= k < i ==> files@[k]@ != x@,
        decreases files.len() - i,
    {
        let f = chars_of(files[i].as_str());
        if seq_eq(&f, x) {
            assert(str_views(files@)[i as int] == x@);
            return true;
        }
        i += 1;
    }
    assert forall|k: int| 0 <= k < str_views(files@).len() implies str_views(files@)[k] != x@ by {
        assert(str_views(files@)[k] == files@[k]@);
    }
    false
}

fn lit(v: Vec<char>) -> (r: Vec<char>)
    ensures
        r@ == v@,
{
    v
}

/// `src/foo/../bar` → `src/bar`.
pub fn normalize(path: &str) -> (r: String)
    ensures
        r@ == normalize_spec(path@),
{
    let p = chars_of(path);
    let v = normalize_chars(&p);
    string_of(&v)
}

pub fn normalize_chars(p: &[char]) -> (r: Vec<char>)
    ensures
        r@ == normalize_spec(p@),
{
    let parts = split_char_exec(p, '/');
    let ghost ps = views(parts@);
    let mut out: Vec<Vec<char>> = Vec::new();
    let mut i: usize = 0;
    let dotv = vec!['.'];
    let dotdotv = vec!['.', '.'];
    assert(dotv@ =~= dot());
    assert(dotdotv@ =~= dotdot());
    while i < parts.len()
        invariant
            i <= parts.len(),
            ps == views(parts@),
            dotv@ == dot(),
            dotdotv@ == dotdot(),
            views(out@) == norm_parts(ps.take(i as int)),
        decreases parts.len() - i,
    {
        let part = &parts[i];
        assert(ps[i as int] == part@);
        assert(ps.take(i + 1).drop_last() =~= ps.take(i as int));
        let ghost acc = views(out@);
        if part.len() == 0 || seq_eq(part, &dotv) {
        } else if seq_eq(part, &dotdotv) {
            if out.len() > 0 {
                out.pop();
                assert(views(out@) =~= acc.drop_last());
            }
        } else {
            let q = slice_of(part, 0, part.len());
            assert(part@.subrange(0, part.len() as int) =~= part@);
            out.push(q);
            assert(views(out@) =~= acc.push(part@));
        }
        i += 1;
    }
    assert(ps.take(parts.len() as int) =~= ps);
    let sl = vec!['/'];
    assert(sl@ =~= slash());
    join_exec(&out, &sl)
}

fn strip_known_ext_chars(p: &[char]) -> (r: Vec<char>)
    ensures
        r@ == strip_known_ext_spec(p@),
{
    let exts: Vec<Vec<char>> = vec![
        vec!['.', 't', 's', 'x'],
        vec!['.', 't', 's'],
        vec!['.', 'j', 's', 'x'],
        vec!['.', 'm', 'j', 's'],
        vec!['.', 'c', 'j', 's'],
        vec!['.', 'j', 's'],
        vec!['.', 'm', 't', 's'],
        vec!['.', 'c', 't', 's'],
    ];
    assert(views(exts@) =~= strip_exts());
    let mut i: usize = 0;
    while i < exts.len()
        invariant
            i <= exts.len(),
            views(exts@) == strip_exts(),
            strip_known_ext_spec(p@) == strip_ext_from(p@, strip_exts(), i as int),
        decreases exts.len() - i,
    {
        assert(views(exts@)[i as int] == exts@[i as int]@);
        if ends_with(p, &exts[i]) {
            return slice_of(p, 0, p.len() - exts[i].len());
        }
        i += 1;
    }
    slice_of(p, 0, p.len())
}

/// `strip_known_ext` on a string.
pub fn strip_known_ext(p: &str) -> (r: String)
    ensures
        r@ == strip_known_ext_spec(p@),
{
    let v = chars_of(p);
    let r = strip_known_ext_chars(&v);
    string_of(&r)
}

#[verifier::loop_isolation(false)]
fn hit_file_chars(rel: &[char], files: &Vec<String>) -> (r: Option<Vec<char>>)
    ensures
        match r {
            Some(v) => hit_file_spec(rel@, str_views(files@)) == Some(v@),
            None => hit_file_spec(rel@, str_views(files@)) is None,
        },
{
    let ds = vec!['.', '/'];
    assert(ds@ =~= dot_slash());
    let t = strip_prefixes_exec(rel, &ds);
    let r = normalize_chars(&t);
    if contains_text(files, &r) {
        return Some(r);
    }
    let stem = strip_known_ext_chars(&r);
    let exts: Vec<Vec<char>> = vec![
        vec!['t', 's'],
        vec!['t', 's', 'x'],
        vec!['j', 's'],
        vec!['j', 's', 'x'],
        vec!['m', 't', 's'],
        vec!['c', 't', 's'],
        vec!['m', 'j', 's'],
        vec!['c', 'j', 's'],
    ];
    assert(views(exts@) =~= try_exts());
    assert(exts@.len() == 8);
    let mut cands: Vec<Vec<char>> = Vec::new();
    let ghost hc = hit_candidates(stem@);
    let mut i: usize = 0;
    while i < exts.len()
        invariant
            i <= exts.len(),
            views(exts@) == try_exts(),
            hc == hit_candidates(stem@),
            exts@.len() == 8,
            cands@.len() == i,
            forall|q: int| 0 <= q < i ==> #[trigger] cands@[q]@ == hc[q],
        decreases exts.len() - i,
    {
        let mut c = slice_of(&stem, 0, stem.len());
        c.push('.');
        push_all(&mut c, &exts[i]);
        assert(views(exts@)[i as int] == exts@[i as int]@);
        assert(stem@.subrange(0, stem.len() as int) =~= stem@);
        assert(hc.len() == 16);
        assert(hc[i as int] == stem@ + dot() + try_exts()[i as int]);
        assert(c@ =~= hc[i as int]);
        cands.push(c);
        i += 1;
    }
    let idx = vec!['/', 'i', 'n', 'd', 'e', 'x', '.'];
    assert(idx@ =~= index_dot());
    let mut j: usize = 0;
    while j < exts.len()
        invariant
            j <= exts.len(),
            views(exts@) == try_exts(),
            idx@ == index_dot(),
            hc == hit_candidates(stem@),
            exts@.len() == 8,
            cands@.len() == 8 + j,
            forall|q: int| 0 <= q < 8 + j ==> #[trigger] cands@[q]@ == hc[q],
        decreases exts.len() - j,
    {
        let mut c = slice_of(&stem, 0, stem.len());
        push_all(&mut c, &idx);
        push_all(&mut c, &exts[j]);
        assert(views(exts@)[j as int] == exts@[j as int]@);
        assert(stem@.subrange(0, stem.len() as int) =~= stem@);
        assert(c@ =~= hc[8 + j]);
        cands.push(c);
        j += 1;
    }
    assert(views(cands@) =~= hc);
    assert(!str_views(files@).contains(r@));
    let mut k: usize = 0;
    while k < cands.len()
        invariant
            k <= cands.len(),
            hc == hit_candidates(stem@),
            views(cands@) == hc,
            cands@.len() == 16,
            first_known(hit_candidates(stem@), str_views(files@), 0) == first_known(
                hit_candidates(stem@),
                str_views(files@),
                k as int,
            ),
        decreases cands.len() - k,
    {
        assert(views(cands@)[k as int] == cands@[k as int]@);
        if contains_text(files, &cands[k]) {
            assert(first_known(hc, str_views(files@), k as int) == Some(hc[k as int]));
            assert(hit_file_spec(rel@, str_views(files@)) == first_known(hc, str_views(files@), 0));
            let c = slice_of(&cands[k], 0, cands[k].len());
            assert(cands@[k as int]@.subrange(0, cands@[k as int]@.len() as int) =~= cands@[k as int]@);
            return Some(c);
        }
        k += 1;
    }
    None
}

/// The known file a repo-relative path hits (itself, `.ext`, or `/index.ext`).
pub fn hit_file(rel: &str, files: &Vec<String>) -> (r: Option<String>)
    ensures
        match r {
            Some(s) => hit_file_spec(rel@, str_views(files@)) == Some(s@),
            None => hit_file_spec(rel@, str_views(files@)) is None,
        },
{
    let v = chars_of(rel);
    match hit_file_chars(&v, files) {
        Some(h) => Some(string_of(&h)),
        None => None,
    }
}

fn dir_of_chars(f: &[char]) -> (r: Vec<char>)
    ensures
        r@ == dir_of(f@),
{
    match rfind_char_exec(f, '/') {
        Some(i) => {
            proof {
                lemma_rfind_char_range(f@, '/', f@.len() as int);
            }
            slice_of(f, 0, i)
        },
        None => Vec::new(),
    }
}

fn resolve_relative_chars(from: &[char], spec: &[char], files: &Vec<String>) -> (r: Option<Vec<char>>)
    ensures
        match r {
            Some(v) => resolve_relative_spec(from@, spec@, str_views(files@)) == Some(v@),
            None => resolve_relative_spec(from@, spec@, str_views(files@)) is None,
        },
{
    let d = dir_of_chars(from);
    let joined = if d.len() == 0 {
        let ds = vec!['.', '/'];
        assert(ds@ =~= dot_slash());
        strip_prefixes_exec(spec, &ds)
    } else {
        let mut j = slice_of(&d, 0, d.len());
        assert(d@.subrange(0, d.len() as int) =~= d@);
        j.push('/');
        push_all(&mut j, spec);
        assert(j@ =~= d@ + slash() + spec@);
        j
    };
    let n = normalize_chars(&joined);
    hit_file_chars(&n, files)
}

/// Relative + `index` resolution against the known files. Remaps `.js` → `.ts`.
pub fn resolve_relative(from_file: &str, spec: &str, files: &Vec<String>) -> (r: Option<String>)
    ensures
        match r {
            Some(s) => resolve_relative_spec(from_file@, spec@, str_views(files@)) == Some(s@),
            None => resolve_relative_spec(from_file@, spec@, str_views(files@)) is None,
        },
{
    let f = chars_of(from_file);
    let s = chars_of(spec);
    match resolve_relative_chars(&f, &s, files) {
        Some(h) => Some(string_of(&h)),
        None => None,
    }
}

fn split_pkg_chars(spec: &[char]) -> (r: (Vec<char>, Vec<char>))
    ensures
        (r.0@, r.1@) == split_pkg_spec(spec@),
{
    let at = vec!['@'];
    assert(at@ =~= seq!['@']);
    if starts_with(spec, &at) {
        match find_char_exec(spec, '/') {
            None => {
                let mut p = slice_of(spec, 0, spec.len());
                p.push('/');
                assert(p@ =~= spec@ + slash());
                (p, Vec::new())
            },
            Some(i) => {
                proof {
                    lemma_find_char_from_range(spec@, '/', 0);
                }
                let scope = slice_of(spec, 0, i);
                let rest = slice_of(spec, i + 1, spec.len());
                match find_char_exec(&rest, '/') {
                    None => {
                        let mut p = scope;
                        p.push('/');
                        push_all(&mut p, &rest);
                        assert(p@ =~= spec@.subrange(0, i as int) + slash() + rest@);
                        (p, Vec::new())
                    },
                    Some(j) => {
                        proof {
                            lemma_find_char_from_range(rest@, '/', 0);
                        }
                        let mut p = scope;
                        p.push('/');
                        let name = slice_of(&rest, 0, j);
                        push_all(&mut p, &name);
                        let sub = slice_of(&rest, j + 1, rest.len());
                        assert(p@ =~= spec@.subrange(0, i as int) + slash() + rest@.subrange(0, j as int));
                        (p, sub)
                    },
                }
            },
        }
    } else {
        match find_char_exec(spec, '/') {
            Some(i) => {
                proof {
                    lemma_find_char_from_range(spec@, '/', 0);
                }
                (slice_of(spec, 0, i), slice_of(spec, i + 1, spec.len()))
            },
            None => {
                let p = slice_of(spec, 0, spec.len());
                assert(p@ =~= spec@);
                (p, Vec::new())
            },
        }
    }
}

/// Package name and subpath of a bare specifier.
pub fn split_pkg(spec: &str) -> (r: (String, String))
    ensures
        (r.0@, r.1@) == split_pkg_spec(spec@),
{
    let s = chars_of(spec);
    let (a, b) = split_pkg_chars(&s);
    (string_of(&a), string_of(&b))
}

fn map_get_pkg(cfg: &ResolveConfig, k: &[char]) -> (r: Option<Vec<char>>)
    ensures
        match r {
            Some(v) => map_get(cfg@.pkgs, k@) == Some(v@),
            None => map_get(cfg@.pkgs, k@) is None,
        },
{
    let pkgs = &cfg.workspace_pkgs;
    let ghost m = cfg@.pkgs;
    assert(m.subrange(0, m.len() as int) =~= m);
    let mut i: usize = 0;
    while i < pkgs.len()
        invariant
            i <= pkgs.len(),
            m == cfg@.pkgs,
            pkgs == cfg.workspace_pkgs,
            map_get(m, k@) == map_get(m.subrange(i as int, m.len() as int), k@),
        decreases pkgs.len() - i,
    {
        let key = chars_of(pkgs[i].0.as_str());
        let ghost rest = m.subrange(i as int, m.len() as int);
        assert(rest[0] == m[i as int]);
        assert(rest.subrange(1, rest.len() as int) =~= m.subrange(i + 1, m.len() as int));
        if seq_eq(&key, k) {
            return Some(chars_of(pkgs[i].1.as_str()));
        }
        i += 1;
    }
    None
}

fn under_dir_chars(dir: &[char], p: &[char]) -> (r: Vec<char>)
    ensures
        r@ == under_dir(dir@, p@),
{
    let d = vec!['.'];
    assert(d@ =~= dot());
    if seq_eq(dir, &d) {
        slice_of(p, 0, p.len())
    } else {
        let mut r = concat(dir, &vec!['/']);
        push_all(&mut r, p);
        assert(r@ =~= dir@ + slash() + p@);
        r
    }
}

#[verifier::loop_isolation(false)]
fn resolve_package_chars(spec: &[char], cfg: &ResolveConfig, files: &Vec<String>) -> (r: Option<Vec<char>>)
    ensures
        match r {
            Some(v) => resolve_package_spec(spec@, cfg@, str_views(files@)) == Some(v@),
            None => resolve_package_spec(spec@, cfg@, str_views(files@)) is None,
        },
{
    let (pkg, sub) = split_pkg_chars(spec);
    let dir = match map_get_pkg(cfg, &pkg) {
        Some(d) => d,
        None => return None,
    };
    if sub.len() == 0 {
        let entries: Vec<Vec<char>> = vec![
            vec!['s', 'r', 'c', '/', 'i', 'n', 'd', 'e', 'x'],
            vec!['i', 'n', 'd', 'e', 'x'],
            vec!['d', 'i', 's', 't', '/', 'i', 'n', 'd', 'e', 'x'],
            vec!['l', 'i', 'b', '/', 'i', 'n', 'd', 'e', 'x'],
        ];
        assert(views(entries@) =~= pkg_entries());
        let mut i: usize = 0;
        while i < 4
            invariant
                i <= 4,
                entries@.len() == 4,
                views(entries@) == pkg_entries(),
                first_pkg_entry(dir@, str_views(files@), 0) == first_pkg_entry(
                    dir@,
                    str_views(files@),
                    i as int,
                ),
            decreases 4 - i,
        {
            assert(views(entries@)[i as int] == entries@[i as int]@);
            let cand = under_dir_chars(&dir, &entries[i]);
            match hit_file_chars(&cand, files) {
                Some(h) => {
                    assert(first_pkg_entry(dir@, str_views(files@), i as int) == Some(h@));
                    return Some(h);
                },
                None => {},
            }
            i += 1;
        }
        None
    } else {
        let cand = under_dir_chars(&dir, &sub);
        hit_file_chars(&cand, files)
    }
}

/// Workspace-package resolution (`@scope/name[/sub]`).
pub fn resolve_package(spec: &str, cfg: &ResolveConfig, files: &Vec<String>) -> (r: Option<String>)
    ensures
        match r {
            Some(s) => resolve_package_spec(spec@, cfg@, str_views(files@)) == Some(s@),
            None => resolve_package_spec(spec@, cfg@, str_views(files@)) is None,
        },
{
    let s = chars_of(spec);
    match resolve_package_chars(&s, cfg, files) {
        Some(h) => Some(string_of(&h)),
        None => None,
    }
}

fn alias_rest_chars(pattern: &[char], spec: &[char]) -> (r: Option<Vec<char>>)
    ensures
        match r {
            Some(v) => alias_rest(pattern@, spec@) == Some(v@),
            None => alias_rest(pattern@, spec@) is None,
        },
{
    let ss = vec!['/', '*'];
    assert(ss@ =~= seq!['/', '*']);
    if ends_with(pattern, &ss) {
        let prefix = slice_of(pattern, 0, pattern.len() - 1);
        assert(prefix@ =~= pattern@.drop_last());
        if starts_with(spec, &prefix) {
            Some(slice_of(spec, prefix.len(), spec.len()))
        } else {
            None
        }
    } else if seq_eq(spec, pattern) {
        Some(Vec::new())
    } else if starts_with(spec, pattern) && spec.len() > pattern.len() && spec[pattern.len()] == '/' {
        Some(slice_of(spec, pattern.len() + 1, spec.len()))
    } else {
        None
    }
}

fn base_prefix_chars(base: &Option<String>) -> (r: Option<Vec<char>>)
    ensures
        match r {
            Some(v) => base_prefix(opt_view(*base)) == Some(v@),
            None => base_prefix(opt_view(*base)) is None,
        },
{
    match base {
        Some(b) => {
            let bv = chars_of(b.as_str());
            let b2 = strip_trailing_exec(&bv, '/');
            let d = vec!['.'];
            assert(d@ =~= dot());
            if b2.len() == 0 || seq_eq(&b2, &d) {
                None
            } else {
                Some(b2)
            }
        },
        None => None,
    }
}

fn alias_candidate_chars(star: bool, target0: &[char], rest: &[char], base: &Option<String>) -> (r: Vec<char>)
    ensures
        r@ == alias_candidate(star, target0@, rest@, opt_view(*base)),
{
    let ss = vec!['/', '*'];
    assert(ss@ =~= seq!['/', '*']);
    let st = vec!['*'];
    assert(st@ =~= seq!['*']);
    let t1 = if star && ends_with(target0, &ss) {
        slice_of(target0, 0, target0.len() - 2)
    } else if star && ends_with(target0, &st) {
        let v = slice_of(target0, 0, target0.len() - 1);
        assert(v@ =~= target0@.drop_last());
        v
    } else {
        let v = slice_of(target0, 0, target0.len());
        assert(v@ =~= target0@);
        v
    };
    let ds = vec!['.', '/'];
    assert(ds@ =~= dot_slash());
    let t2a = strip_prefixes_exec(&t1, &ds);
    let t2 = strip_trailing_exec(&t2a, '/');
    let sl = vec!['/'];
    assert(sl@ =~= slash());
    let t3 = match base_prefix_chars(base) {
        Some(b) => if !starts_with(&t2, &sl) {
            let mut v = concat(&b, &sl);
            push_all(&mut v, &t2);
            v
        } else {
            t2
        },
        None => t2,
    };
    if rest.len() == 0 {
        t3
    } else if t3.len() == 0 {
        let v = slice_of(rest, 0, rest.len());
        assert(v@ =~= rest@);
        v
    } else {
        let mut v = concat(&t3, &sl);
        push_all(&mut v, rest);
        v
    }
}

#[verifier::loop_isolation(false)]
fn alias_try_chars(spec: &[char], entry: &(String, Vec<String>), base: &Option<String>, files: &Vec<String>) -> (r: Option<Vec<char>>)
    ensures
        match r {
            Some(v) => alias_try(spec@, (entry.0@, str_views(entry.1@)), opt_view(*base), str_views(files@)) == Some(v@),
            None => alias_try(spec@, (entry.0@, str_views(entry.1@)), opt_view(*base), str_views(files@)) is None,
        },
{
    let pattern = chars_of(entry.0.as_str());
    let rest = match alias_rest_chars(&pattern, spec) {
        Some(r) => r,
        None => return None,
    };
    let ss = vec!['/', '*'];
    assert(ss@ =~= seq!['/', '*']);
    let star = ends_with(&pattern, &ss);
    let ghost bv = opt_view(*base);
    let ghost tv = str_views(entry.1@);
    let mut i: usize = 0;
    while i < entry.1.len()
        invariant
            i <= entry.1.len(),
            tv == str_views(entry.1@),
            bv == opt_view(*base),
            alias_targets_hit(star, tv, rest@, bv, str_views(files@), 0) == alias_targets_hit(
                star,
                tv,
                rest@,
                bv,
                str_views(files@),
                i as int,
            ),
        decreases entry.1.len() - i,
    {
        let t = chars_of(entry.1[i].as_str());
        assert(tv[i as int] == t@);
        let cand = alias_candidate_chars(star, &t, &rest, base);
        match hit_file_chars(&cand, files) {
            Some(h) => {
                assert(alias_targets_hit(star, tv, rest@, bv, str_views(files@), i as int) == Some(h@));
                return Some(h);
            },
            None => {},
        }
        i += 1;
    }
    None
}

#[verifier::loop_isolation(false)]
fn resolve_alias_chars(spec: &[char], cfg: &ResolveConfig, files: &Vec<String>) -> (r: Option<Vec<char>>)
    ensures
        match r {
            Some(v) => resolve_alias_spec(spec@, cfg@, str_views(files@)) == Some(v@),
            None => resolve_alias_spec(spec@, cfg@, str_views(files@)) is None,
        },
{
    let ghost c = cfg@;
    // longest pattern length
    let mut maxl: usize = 0;
    let mut i: usize = 0;
    while i < cfg.tsconfig_paths.len()
        invariant
            i <= cfg.tsconfig_paths.len(),
            c == cfg@,
            maxl == max_key_len(c.paths.take(i as int)),
        decreases cfg.tsconfig_paths.len() - i,
    {
        let l = chars_of(cfg.tsconfig_paths[i].0.as_str()).len();
        assert(c.paths.take(i + 1).drop_last() =~= c.paths.take(i as int));
        assert(c.paths.take(i + 1).last() == c.paths[i as int]);
        if l > maxl {
            maxl = l;
        }
        i += 1;
    }
    assert(c.paths.take(c.paths.len() as int) =~= c.paths);
    let mut len = maxl;
    loop
        invariant
            c == cfg@,
            resolve_alias_spec(spec@, c, str_views(files@)) == alias_hit_from_len(
                spec@,
                c,
                str_views(files@),
                len as int,
            ),
        decreases len,
    {
        let mut k: usize = 0;
        while k < cfg.tsconfig_paths.len()
            invariant
                k <= cfg.tsconfig_paths.len(),
                c == cfg@,
                alias_hit_at_len(spec@, c, str_views(files@), len as int, 0) == alias_hit_at_len(
                    spec@,
                    c,
                    str_views(files@),
                    len as int,
                    k as int,
                ),
            decreases cfg.tsconfig_paths.len() - k,
        {
            let entry = &cfg.tsconfig_paths[k];
            assert(c.paths[k as int] == (entry.0@, str_views(entry.1@)));
            let l = chars_of(entry.0.as_str()).len();
            if l == len {
                match alias_try_chars(spec, entry, &cfg.base_url, files) {
                    Some(h) => return Some(h),
                    None => {},
                }
            }
            k += 1;
        }
        assert(alias_hit_at_len(spec@, c, str_views(files@), len as int, k as int) is None);
        assert(alias_hit_from_len(spec@, c, str_views(files@), len as int) == alias_hit_from_len(
            spec@,
            c,
            str_views(files@),
            len - 1,
        ));
        if len == 0 {
            assert(alias_hit_from_len(spec@, c, str_views(files@), -1) is None);
            return None;
        }
        len -= 1;
    }
}

pub fn resolve_module_chars(from: &[char], spec: &[char], files: &Vec<String>, cfg: &ResolveConfig) -> (r: Option<Vec<char>>)
    ensures
        match r {
            Some(v) => resolve_module_spec(from@, spec@, str_views(files@), cfg@) == Some(v@),
            None => resolve_module_spec(from@, spec@, str_views(files@), cfg@) is None,
        },
{
    let d = vec!['.'];
    assert(d@ =~= dot());
    let sl = vec!['/'];
    assert(sl@ =~= slash());
    if starts_with(spec, &d) || starts_with(spec, &sl) {
        return resolve_relative_chars(from, spec, files);
    }
    match resolve_alias_chars(spec, cfg, files) {
        Some(h) => return Some(h),
        None => {},
    }
    match &cfg.base_url {
        Some(b) => {
            let bv = chars_of(b.as_str());
            let b2 = strip_trailing_exec(&bv, '/');
            let cand = if b2.len() == 0 || seq_eq(&b2, &d) {
                slice_of(spec, 0, spec.len())
            } else {
                let mut v = concat(&b2, &sl);
                push_all(&mut v, spec);
                v
            };
            assert(spec@.subrange(0, spec.len() as int) =~= spec@);
            match hit_file_chars(&cand, files) {
                Some(h) => return Some(h),
                None => {},
            }
        },
        None => {},
    }
    resolve_package_chars(spec, cfg, files)
}

/// Resolve any specifier: relative, alias, `baseUrl`, workspace package.
pub fn resolve_module(from_file: &str, spec: &str, files: &Vec<String>, cfg: &ResolveConfig) -> (r: Option<String>)
    ensures
        match r {
            Some(s) => resolve_module_spec(from_file@, spec@, str_views(files@), cfg@) == Some(s@),
            None => resolve_module_spec(from_file@, spec@, str_views(files@), cfg@) is None,
        },
{
    let f = chars_of(from_file);
    let s = chars_of(spec);
    match resolve_module_chars(&f, &s, files, cfg) {
        Some(h) => Some(string_of(&h)),
        None => None,
    }
}

// ------------------------------------------------------------- tsconfig ---

/// Block comments removed, each (from `/*` to the next `*/`) becoming one
/// space; an unterminated `/*` and what follows are kept.
pub open spec fn strip_blocks(s: Seq<char>) -> Seq<char>
    decreases s.len(),
{
    match find(s, "/*"@) {
        None => s,
        Some(i) => match find_from(s, "*/"@, i + 2) {
            None => s,
            Some(k) => {
                proof {
                    lemma_find_from_range(s, "/*"@, 0);
                    lemma_find_from_range(s, "*/"@, i + 2);
                    reveal_strlit("*/");
                    reveal_strlit("/*");
                    reveal_strlit(" ");
                    assert(" "@.len() == 1);
                }
                if 0 <= i && i + 2 <= k && k + 2 <= s.len() {
                    strip_blocks(s.take(i) + " "@ + s.subrange(k + 2, s.len() as int))
                } else {
                    s
                }
            },
        },
    }
}

/// A line cut at its first `//`.
pub open spec fn cut_line_comment(l: Seq<char>) -> Seq<char> {
    match find(l, "//"@) {
        Some(i) => l.take(i),
        None => l,
    }
}

/// JSON-with-comments to JSON: block comments out, then each line cut at
/// `//`, lines joined with newlines.
pub open spec fn strip_jsonc_spec(raw: Seq<char>) -> Seq<char> {
    join(lines(strip_blocks(raw)).map_values(|l: Seq<char>| cut_line_comment(l)), "\n"@)
}

/// Strip `/* */` and `//` comments from a tsconfig text.
pub fn strip_jsonc(raw: &str) -> (r: String)
    ensures
        r@ == strip_jsonc_spec(raw@),
{
    let open = chars_of("/*");
    let close = chars_of("*/");
    let slashes = chars_of("//");
    proof {
        reveal_strlit("*/");
        reveal_strlit("/*");
        reveal_strlit(" ");
    }
    let mut s = chars_of(raw);
    while true
        invariant
            strip_blocks(s@) == strip_blocks(raw@),
            open@ == "/*"@,
            close@ == "*/"@,
        ensures
            strip_blocks(s@) == strip_blocks(raw@),
            strip_blocks(s@) == s@,
        decreases s@.len(),
    {
        proof {
            lemma_find_from_range(s@, "/*"@, 0);
            reveal_strlit("*/");
            reveal_strlit("/*");
            reveal_strlit(" ");
            assert("/*"@.len() == 2 && "*/"@.len() == 2 && " "@.len() == 1);
        }
        let i = match find_exec(s.as_slice(), open.as_slice()) {
            Some(i) => i,
            None => break,
        };
        assert(find(s@, "/*"@) == Some(i as int));
        assert(occurs_at(s@, "/*"@, i as int));
        assert(i + 2 <= s.len());
        proof {
            lemma_find_from_range(s@, "*/"@, i + 2);
        }
        let k = match find_from_exec(s.as_slice(), close.as_slice(), i + 2) {
            Some(k) => k,
            None => break,
        };
        assert(occurs_at(s@, "*/"@, k as int));
        assert(k + 2 <= s.len());
        let mut t = slice_of(s.as_slice(), 0, i);
        t.push(' ');
        let rest = slice_of(s.as_slice(), k + 2, s.len());
        push_all(&mut t, &rest);
        assert(t@ =~= s@.take(i as int) + " "@ + s@.subrange(k + 2, s@.len() as int));
        s = t;
    }
    let ls = lines_exec(&s);
    let mut cut: Vec<Vec<char>> = Vec::new();
    let mut j: usize = 0;
    let ghost lv = views(ls@);
    while j < ls.len()
        invariant
            j <= ls@.len(),
            lv == views(ls@),
            slashes@ == "//"@,
            views(cut@) == lv.take(j as int).map_values(|l: Seq<char>| cut_line_comment(l)),
        decreases ls.len() - j,
    {
        proof {
            lemma_find_from_range(ls@[j as int]@, "//"@, 0);
        }
        let piece = match find_exec(ls[j].as_slice(), slashes.as_slice()) {
            Some(i) => slice_of(ls[j].as_slice(), 0, i),
            None => slice_of(ls[j].as_slice(), 0, ls[j].len()),
        };
        assert(piece@ =~= cut_line_comment(lv[j as int]));
        let ghost c0 = views(cut@);
        cut.push(piece);
        assert(views(cut@) =~= c0.push(cut_line_comment(lv[j as int])));
        assert(lv.take(j + 1) =~= lv.take(j as int).push(lv[j as int]));
        j += 1;
    }
    assert(lv.take(j as int) =~= lv);
    let nl = chars_of("\n");
    let joined = join_exec(&cut, nl.as_slice());
    string_of(joined.as_slice())
}

/// Alias settings applied in order, a later one replacing an earlier one.
pub open spec fn paths_after(
    m: Seq<(Seq<char>, Seq<Seq<char>>)>,
    ps: Seq<(String, Vec<String>)>,
) -> Seq<(Seq<char>, Seq<Seq<char>>)>
    decreases ps.len(),
{
    if ps.len() == 0 {
        m
    } else {
        map_set(paths_after(m, ps.drop_last()), ps.last().0@, str_views(ps.last().1@))
    }
}

impl ResolveConfig {
    /// Take a tsconfig's `compilerOptions`: `baseUrl` without trailing
    /// slashes, and every `paths` alias.
    pub fn apply_compiler_options(&mut self, base_url: Option<&str>, paths: Vec<(String, Vec<String>)>)
        ensures
            final(self)@.base_url == match base_url {
                Some(b) => Some(strip_trailing(b@, '/')),
                None => old(self)@.base_url,
            },
            final(self)@.paths == paths_after(old(self)@.paths, paths@),
            final(self)@.pkgs == old(self)@.pkgs,
    {
        match base_url {
            Some(b) => {
                let v = chars_of(b);
                let t = strip_trailing_exec(v.as_slice(), '/');
                self.set_base_url(Some(string_of(t.as_slice())));
            },
            None => {},
        }
        let ghost ps = paths@;
        let ghost base = self@.base_url;
        let ghost m0 = self@.paths;
        let mut rest = paths;
        let mut i: usize = 0;
        let n = rest.len();
        assert(ps.take(0) =~= Seq::<(String, Vec<String>)>::empty());
        assert(ps.skip(0) =~= ps);
        while rest.len() > 0
            invariant
                i + rest@.len() == n,
                n == ps.len(),
                rest@ == ps.skip(i as int),
                self@.paths == paths_after(m0, ps.take(i as int)),
                self@.base_url == base,
                self@.pkgs == old(self)@.pkgs,
            decreases rest.len(),
        {
            let item = rest.remove(0);
            assert(item == ps[i as int]);
            assert(rest@ =~= ps.skip(i + 1));
            assert(ps.take(i + 1).drop_last() =~= ps.take(i as int));
            assert(ps.take(i + 1).last() == ps[i as int]);
            self.set_path(item.0, item.1);
            i += 1;
        }
        assert(ps.take(n as int) =~= ps);
    }
}


// ------------------------------------------------------------------ laws ---

proof fn lemma_first_known_is_known(cands: Seq<Seq<char>>, files: Seq<Seq<char>>, i: int)
    ensures
        first_known(cands, files, i) matches Some(h) ==> files.contains(h),
    decreases cands.len() - i,
{
    if 0 <= i < cands.len() && !files.contains(cands[i]) {
        lemma_first_known_is_known(cands, files, i + 1);
    }
}

proof fn lemma_hit_file_is_known(rel: Seq<char>, files: Seq<Seq<char>>)
    ensures
        hit_file_spec(rel, files) matches Some(h) ==> files.contains(h),
{
    let r = normalize_spec(strip_prefixes(rel, dot_slash()));
    lemma_first_known_is_known(hit_candidates(strip_known_ext_spec(r)), files, 0);
}

proof fn lemma_pkg_entry_is_known(dir: Seq<char>, files: Seq<Seq<char>>, i: int)
    ensures
        first_pkg_entry(dir, files, i) matches Some(h) ==> files.contains(h),
    decreases 4 - i,
{
    if 0 <= i < 4 {
        lemma_hit_file_is_known(under_dir(dir, pkg_entries()[i]), files);
        lemma_pkg_entry_is_known(dir, files, i + 1);
    }
}

proof fn lemma_alias_targets_known(
    star: bool,
    targets: Seq<Seq<char>>,
    rest: Seq<char>,
    base: Option<Seq<char>>,
    files: Seq<Seq<char>>,
    i: int,
)
    ensures
        alias_targets_hit(star, targets, rest, base, files, i) matches Some(h) ==> files.contains(h),
    decreases targets.len() - i,
{
    if 0 <= i < targets.len() {
        lemma_hit_file_is_known(alias_candidate(star, targets[i], rest, base), files);
        lemma_alias_targets_known(star, targets, rest, base, files, i + 1);
    }
}

proof fn lemma_alias_at_len_known(spec: Seq<char>, cfg: ResolveConfigV, files: Seq<Seq<char>>, len: int, i: int)
    ensures
        alias_hit_at_len(spec, cfg, files, len, i) matches Some(h) ==> files.contains(h),
    decreases cfg.paths.len() - i,
{
    if 0 <= i < cfg.paths.len() {
        let e = cfg.paths[i];
        match alias_rest(e.0, spec) {
            Some(rest) => lemma_alias_targets_known(has_suffix(e.0, seq!['/', '*']), e.1, rest, cfg.base_url, files, 0),
            None => {},
        }
        lemma_alias_at_len_known(spec, cfg, files, len, i + 1);
    }
}

proof fn lemma_alias_from_len_known(spec: Seq<char>, cfg: ResolveConfigV, files: Seq<Seq<char>>, len: int)
    ensures
        alias_hit_from_len(spec, cfg, files, len) matches Some(h) ==> files.contains(h),
    decreases len + 1,
{
    if len >= 0 {
        lemma_alias_at_len_known(spec, cfg, files, len, 0);
        lemma_alias_from_len_known(spec, cfg, files, len - 1);
    }
}

/// Module resolution never invents a file: every hit is one of the known
/// files, and a specifier starting with `.` or `/` is resolved relative to
/// the importing file.
pub proof fn lemma_resolution_hits_known_files(
    from: Seq<char>,
    spec: Seq<char>,
    files: Seq<Seq<char>>,
    cfg: ResolveConfigV,
)
    ensures
        resolve_module_spec(from, spec, files, cfg) matches Some(h) ==> files.contains(h),
        has_prefix(spec, dot()) || has_prefix(spec, slash()) ==> resolve_module_spec(from, spec, files, cfg)
            == resolve_relative_spec(from, spec, files),
{
    let d = dir_of(from);
    let joined = if d.len() == 0 {
        strip_prefixes(spec, dot_slash())
    } else {
        d + slash() + spec
    };
    lemma_hit_file_is_known(normalize_spec(joined), files);
    lemma_alias_from_len_known(spec, cfg, files, max_key_len(cfg.paths));
    match cfg.base_url {
        Some(b) => {
            let b2 = strip_trailing(b, '/');
            let cand = if b2.len() == 0 || b2 == dot() {
                spec
            } else {
                b2 + slash() + spec
            };
            lemma_hit_file_is_known(cand, files);
        },
        None => {},
    }
    let (pkg, sub) = split_pkg_spec(spec);
    match map_get(cfg.pkgs, pkg) {
        Some(dir) => {
            lemma_pkg_entry_is_known(dir, files, 0);
            lemma_hit_file_is_known(under_dir(dir, sub), files);
        },
        None => {},
    }
}

/// A segment `normalize` keeps: not empty, not `.` or `..`, and free of `/`.
pub open spec fn clean_segment(p: Seq<char>) -> bool {
    p.len() > 0 && p != dot() && p != dotdot() && !p.contains('/')
}

proof fn lemma_split_parts_slash_free(s: Seq<char>)
    ensures
        forall|k: int| 0 <= k < split_char(s, '/').len() ==> !(#[trigger] split_char(s, '/')[k]).contains('/'),
    decreases s.len(),
{
    if s.len() > 0 {
        lemma_split_parts_slash_free(s.drop_last());
        let rest = split_char(s.drop_last(), '/');
        crate::text::lemma_split_char_nonempty(s.drop_last(), '/');
        if s.last() != '/' {
            let l = rest.last().push(s.last());
            assert forall|k: int| 0 <= k < split_char(s, '/').len() implies !(#[trigger] split_char(s, '/')[k]).contains('/') by {
                if k == rest.len() - 1 {
                    assert(split_char(s, '/')[k] == l);
                    assert forall|m: int| 0 <= m < l.len() implies l[m] != '/' by {
                        if m < rest.last().len() {
                            assert(l[m] == rest.last()[m]);
                        }
                    }
                } else {
                    assert(split_char(s, '/')[k] == rest[k]);
                }
            }
        } else {
            assert forall|k: int| 0 <= k < split_char(s, '/').len() implies !(#[trigger] split_char(s, '/')[k]).contains('/') by {
                if k < rest.len() {
                    assert(split_char(s, '/')[k] == rest[k]);
                } else {
                    assert(split_char(s, '/')[k] =~= Seq::<char>::empty());
                }
            }
        }
    }
}

proof fn lemma_norm_parts_clean(parts: Seq<Seq<char>>)
    requires
        forall|k: int| 0 <= k < parts.len() ==> !(#[trigger] parts[k]).contains('/'),
    ensures
        forall|k: int| 0 <= k < norm_parts(parts).len() ==> clean_segment(#[trigger] norm_parts(parts)[k]),
    decreases parts.len(),
{
    if parts.len() > 0 {
        assert forall|k: int| 0 <= k < parts.drop_last().len() implies !(#[trigger] parts.drop_last()[k]).contains('/') by {
            assert(parts.drop_last()[k] == parts[k]);
        }
        lemma_norm_parts_clean(parts.drop_last());
        let acc = norm_parts(parts.drop_last());
        let p = parts.last();
        assert(!parts[parts.len() - 1].contains('/'));
        assert forall|k: int| 0 <= k < norm_parts(parts).len() implies clean_segment(#[trigger] norm_parts(parts)[k]) by {
            if k < acc.len() {
                assert(norm_parts(parts)[k] == acc[k]);
            }
        }
    }
}

proof fn lemma_norm_parts_of_clean(parts: Seq<Seq<char>>)
    requires
        forall|k: int| 0 <= k < parts.len() ==> clean_segment(#[trigger] parts[k]),
    ensures
        norm_parts(parts) == parts,
    decreases parts.len(),
{
    if parts.len() > 0 {
        assert forall|k: int| 0 <= k < parts.drop_last().len() implies clean_segment(#[trigger] parts.drop_last()[k]) by {
            assert(parts.drop_last()[k] == parts[k]);
        }
        lemma_norm_parts_of_clean(parts.drop_last());
        assert(clean_segment(parts[parts.len() - 1]));
        assert(parts.drop_last().push(parts.last()) =~= parts);
    }
}

/// Splitting at `/` after appending slash-free text extends the last piece.
proof fn lemma_split_append_plain(x: Seq<char>, b: Seq<char>)
    requires
        !b.contains('/'),
    ensures
        split_char(x + b, '/') == split_char(x, '/').update(
            split_char(x, '/').len() - 1,
            split_char(x, '/').last() + b,
        ),
    decreases b.len(),
{
    crate::text::lemma_split_char_nonempty(x, '/');
    if b.len() == 0 {
        assert(x + b =~= x);
        assert(split_char(x, '/').last() + b =~= split_char(x, '/').last());
        assert(split_char(x, '/').update(split_char(x, '/').len() - 1, split_char(x, '/').last())
            =~= split_char(x, '/'));
    } else {
        let b0 = b.drop_last();
        assert(!b0.contains('/')) by {
            assert forall|m: int| 0 <= m < b0.len() implies b0[m] != '/' by {
                assert(b0[m] == b[m]);
            }
        }
        lemma_split_append_plain(x, b0);
        let s = x + b;
        assert(s.drop_last() =~= x + b0);
        assert(s.last() == b.last());
        assert(b.last() != '/') by {
            assert(b[b.len() - 1] == b.last());
        }
        let r0 = split_char(x + b0, '/');
        crate::text::lemma_split_char_nonempty(x + b0, '/');
        assert(split_char(s, '/') == r0.update(r0.len() - 1, r0.last().push(b.last())));
        assert(split_char(x, '/').last() + b =~= (split_char(x, '/').last() + b0).push(b.last()));
        assert(split_char(s, '/') =~= split_char(x, '/').update(
            split_char(x, '/').len() - 1,
            split_char(x, '/').last() + b,
        ));
    }
}

/// Splitting the `/`-join of slash-free pieces gives the pieces back.
proof fn lemma_split_join(parts: Seq<Seq<char>>)
    requires
        parts.len() >= 1,
        forall|k: int| 0 <= k < parts.len() ==> !(#[trigger] parts[k]).contains('/'),
    ensures
        split_char(join(parts, slash()), '/') == parts,
    decreases parts.len(),
{
    if parts.len() == 1 {
        assert(join(parts, slash()) == parts[0]);
        lemma_split_append_plain(Seq::empty(), parts[0]);
        assert(Seq::<char>::empty() + parts[0] =~= parts[0]);
        assert(split_char(Seq::<char>::empty(), '/') =~= seq![Seq::<char>::empty()]);
        assert(Seq::<char>::empty() + parts[0] =~= parts[0]);
        assert(seq![Seq::<char>::empty()].update(0, Seq::<char>::empty() + parts[0]) =~= parts);
    } else {
        let init = parts.drop_last();
        assert forall|k: int| 0 <= k < init.len() implies !(#[trigger] init[k]).contains('/') by {
            assert(init[k] == parts[k]);
        }
        lemma_split_join(init);
        let a = join(init, slash());
        assert(join(parts, slash()) == a + slash() + parts.last());
        let with_slash = a + slash();
        assert(with_slash.drop_last() =~= a);
        assert(with_slash.last() == '/');
        assert(split_char(with_slash, '/') == split_char(a, '/').push(Seq::<char>::empty()));
        assert(!parts[parts.len() - 1].contains('/'));
        lemma_split_append_plain(with_slash, parts.last());
        assert(Seq::<char>::empty() + parts.last() =~= parts.last());
        assert(split_char(join(parts, slash()), '/') =~= parts);
    }
}

/// `normalize` leaves no empty, `.` or `..` segment (unless the result is
/// empty), and normalizing again changes nothing.
pub proof fn lemma_normalize_is_clean_and_idempotent(path: Seq<char>)
    ensures
        normalize_spec(path).len() == 0 || forall|k: int|
            0 <= k < split_char(normalize_spec(path), '/').len() ==> clean_segment(
                #[trigger] split_char(normalize_spec(path), '/')[k],
            ),
        normalize_spec(normalize_spec(path)) == normalize_spec(path),
{
    lemma_split_parts_slash_free(path);
    let parts = norm_parts(split_char(path, '/'));
    lemma_norm_parts_clean(split_char(path, '/'));
    let r = normalize_spec(path);
    assert(r == join(parts, slash()));
    if parts.len() == 0 {
        assert(r =~= Seq::<char>::empty());
        assert(split_char(r, '/') =~= seq![Seq::<char>::empty()]);
        let one = seq![Seq::<char>::empty()];
        assert(one.drop_last() =~= Seq::<Seq<char>>::empty());
        assert(norm_parts(one.drop_last()) == Seq::<Seq<char>>::empty());
        assert(one.last().len() == 0);
        assert(norm_parts(one) =~= Seq::<Seq<char>>::empty());
        assert(split_char(r, '/') == one);
    } else {
        assert forall|k: int| 0 <= k < parts.len() implies !(#[trigger] parts[k]).contains('/') by {
            assert(clean_segment(parts[k]));
        }
        lemma_split_join(parts);
        lemma_norm_parts_of_clean(parts);
    }
}

} // verus!
