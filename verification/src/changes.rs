//! Symbols touched by a diff: unified-diff text → per-file changed new-side
//! line ranges → the graph nodes whose line span overlaps one of them.

use vstd::prelude::*;
use crate::blast::{blast_spec, from_ids, hop_views, row_views, CallRow, CallRowV, Hop, HopV, MAX_DEPTH};
use crate::model::{NodeRow, NodeRowV};
use crate::order::{key_views, sorted_order, stable_order, KeyV};
use crate::text::{decimal, push_all, push_decimal, push_signed, signed_decimal, str_views};
use crate::trust::{banner, banner_spec, Trust, TrustV};
use crate::text::{
    append_str, chars_of, find_char, find_char_exec, has_prefix, lemma_find_char_from_range,
    lines, lines_exec, parse_i64, parse_i64_exec, seq_eq, slice_of, starts_with, string_of,
    trim_exec, trim_ws, views,
};

verus! {

/// Which diff to inspect.
pub enum ChangeSpec {
    /// Working tree vs index.
    Unstaged,
    /// Index vs HEAD.
    Staged,
    /// Working tree vs an arbitrary ref or range.
    Compare(String),
}

/// A changed file's new-side line ranges, `(start, end)` inclusive, 1-based.
pub struct FileHunks {
    pub file_path: String,
    pub ranges: Vec<(i64, i64)>,
    /// The file is in the diff but no new-side range could be taken from it
    /// (a deleted file, or a hunk header that did not parse).
    pub unmappable: bool,
}

pub ghost struct FileHunksV {
    pub file_path: Seq<char>,
    pub ranges: Seq<(int, int)>,
    pub unmappable: bool,
}

pub open spec fn range_views(r: Seq<(i64, i64)>) -> Seq<(int, int)> {
    r.map_values(|p: (i64, i64)| (p.0 as int, p.1 as int))
}

impl View for FileHunks {
    type V = FileHunksV;

    open spec fn view(&self) -> FileHunksV {
        FileHunksV {
            file_path: self.file_path@,
            ranges: range_views(self.ranges@),
            unmappable: self.unmappable,
        }
    }
}

pub open spec fn hunks_views(v: Seq<FileHunks>) -> Seq<FileHunksV> {
    v.map_values(|f: FileHunks| f@)
}

// ----------------------------------------------------------------- specs ---

/// The new-side `(start, count)` of a `@@ -a[,b] +c[,d] @@` header; a bare
/// `+c` means one line.
pub open spec fn hunk_header(line: Seq<char>) -> Option<(int, int)> {
    if !has_prefix(line, "@@ "@) {
        None
    } else {
        let rest = line.subrange("@@ "@.len() as int, line.len() as int);
        match find_char(rest, '+') {
            None => None,
            Some(p) => {
                let after = rest.subrange(p + 1, rest.len() as int);
                let range = match find_char(after, ' ') {
                    Some(e) => after.subrange(0, e),
                    None => after,
                };
                match find_char(range, ',') {
                    None => match parse_i64(range) {
                        Some(st) => Some((st, 1)),
                        None => None,
                    },
                    Some(c) => match (
                        parse_i64(range.subrange(0, c)),
                        parse_i64(range.subrange(c + 1, range.len() as int)),
                    ) {
                        (Some(st), Some(n)) => Some((st, n)),
                        _ => None,
                    },
                }
            },
        }
    }
}

/// Where a scan over diff lines stands: the files so far, whether the last
/// one takes hunks, and whether every range end so far fits an `i64`.
pub ghost struct HunkScan {
    pub files: Seq<FileHunksV>,
    pub open: bool,
    pub fits: bool,
}

pub open spec fn file_header_path(line: Seq<char>) -> Seq<char> {
    trim_ws(line.subrange("+++ "@.len() as int, line.len() as int))
}

pub open spec fn strip_b(path: Seq<char>) -> Seq<char> {
    if has_prefix(path, "b/"@) {
        path.subrange("b/"@.len() as int, path.len() as int)
    } else {
        path
    }
}

/// One diff line: `+++ <path>` opens a file (`/dev/null` marks a deleted one,
/// which takes no hunks); `@@` adds the new-side range to the open file, a
/// zero count adds nothing, and a header that does not parse marks it.
pub open spec fn hunk_step(st: HunkScan, line: Seq<char>) -> HunkScan {
    if has_prefix(line, "+++ "@) {
        let path = file_header_path(line);
        if path == "/dev/null"@ {
            HunkScan {
                files: st.files.push(
                    FileHunksV { file_path: Seq::empty(), ranges: Seq::empty(), unmappable: true },
                ),
                open: false,
                fits: st.fits,
            }
        } else {
            HunkScan {
                files: st.files.push(
                    FileHunksV { file_path: strip_b(path), ranges: Seq::empty(), unmappable: false },
                ),
                open: true,
                fits: st.fits,
            }
        }
    } else if has_prefix(line, "@@"@) && st.open && st.files.len() > 0 {
        let f = st.files.last();
        match hunk_header(line) {
            Some((s, n)) => if n > 0 {
                HunkScan {
                    files: st.files.update(
                        st.files.len() - 1,
                        FileHunksV { ranges: f.ranges.push((s, s + n - 1)), ..f },
                    ),
                    open: true,
                    fits: st.fits && s + n - 1 <= i64::MAX,
                }
            } else {
                st
            },
            None => HunkScan {
                files: st.files.update(st.files.len() - 1, FileHunksV { unmappable: true, ..f }),
                open: true,
                fits: st.fits,
            },
        }
    } else {
        st
    }
}

pub open spec fn hunk_scan(ls: Seq<Seq<char>>) -> HunkScan
    decreases ls.len(),
{
    if ls.len() == 0 {
        HunkScan { files: Seq::empty(), open: false, fits: true }
    } else {
        hunk_step(hunk_scan(ls.drop_last()), ls.last())
    }
}

/// The files of a unified diff with their new-side changed line ranges.
pub open spec fn parse_hunks_spec(diff: Seq<char>) -> Seq<FileHunksV> {
    hunk_scan(lines(diff)).files
}

/// Every range end that parsing computes fits an `i64`.
pub open spec fn hunks_fit(diff: Seq<char>) -> bool {
    hunk_scan(lines(diff)).fits
}

/// A node overlaps a range when their line spans intersect.
pub open spec fn overlaps_any(n: NodeRowV, ranges: Seq<(i64, i64)>) -> bool {
    exists|k: int|
        0 <= k < ranges.len() && n.start_line <= #[trigger] ranges[k].1 && ranges[k].0
            <= n.end_line
}

pub open spec fn overlap_pred(file: Seq<char>, ranges: Seq<(i64, i64)>) -> spec_fn(NodeRowV) -> bool {
    |n: NodeRowV| n.file_path == file && overlaps_any(n, ranges)
}

pub open spec fn node_views(v: Seq<NodeRow>) -> Seq<NodeRowV> {
    v.map_values(|n: NodeRow| n@)
}

// ---------------------------------------------------------------- lemmas ---

proof fn lemma_scan_fits_prefix(ls: Seq<Seq<char>>, i: int)
    requires
        0 <= i <= ls.len(),
        hunk_scan(ls).fits,
    ensures
        hunk_scan(ls.take(i)).fits,
    decreases ls.len(),
{
    if i == ls.len() {
        assert(ls.take(i) =~= ls);
    } else {
        assert(ls.take(i) =~= ls.drop_last().take(i));
        lemma_scan_fits_prefix(ls.drop_last(), i);
    }
}

proof fn lemma_scan_open_has_file(ls: Seq<Seq<char>>)
    ensures
        hunk_scan(ls).open ==> hunk_scan(ls).files.len() > 0,
    decreases ls.len(),
{
    if ls.len() > 0 {
        lemma_scan_open_has_file(ls.drop_last());
    }
}

// ------------------------------------------------------------------ exec ---

/// Parse one `@@ -a[,b] +c[,d] @@ ...` hunk header into the new-side
/// `(start_line, line_count)`.
pub fn parse_hunk_header(line: &str) -> (r: Option<(i64, i64)>)
    ensures
        match r {
            Some((s, n)) => hunk_header(line@) == Some((s as int, n as int)),
            None => hunk_header(line@) is None,
        },
{
    let l = chars_of(line);
    let pre = chars_of("@@ ");
    if !starts_with(&l, &pre) {
        return None;
    }
    let rest = slice_of(&l, pre.len(), l.len());
    proof {
        lemma_find_char_from_range(rest@, '+', 0);
    }
    let p = match find_char_exec(&rest, '+') {
        Some(p) => p,
        None => {
            return None;
        },
    };
    let after = slice_of(&rest, p + 1, rest.len());
    proof {
        lemma_find_char_from_range(after@, ' ', 0);
    }
    let range = match find_char_exec(&after, ' ') {
        Some(e) => slice_of(&after, 0, e),
        None => after,
    };
    proof {
        lemma_find_char_from_range(range@, ',', 0);
    }
    match find_char_exec(&range, ',') {
        None => match parse_i64_exec(&range) {
            Some(st) => Some((st, 1)),
            None => None,
        },
        Some(c) => {
            let a = slice_of(&range, 0, c);
            let b = slice_of(&range, c + 1, range.len());
            let st = match parse_i64_exec(&a) {
                Some(v) => v,
                None => {
                    return None;
                },
            };
            match parse_i64_exec(&b) {
                Some(n) => Some((st, n)),
                None => None,
            }
        },
    }
}

/// Does every range end that [`parse_hunks`] would compute fit an `i64`?
pub fn hunk_ends_fit(diff: &str) -> (r: bool)
    ensures
        r == hunks_fit(diff@),
{
    let d = chars_of(diff);
    let ls = lines_exec(&d);
    let plus = chars_of("+++ ");
    let at = chars_of("@@");
    let mut open = false;
    let mut nfiles: usize = 0;
    let mut fits = true;
    let mut i: usize = 0;
    while i < ls.len()
        invariant
            i <= ls.len(),
            views(ls@) == lines(diff@),
            plus@ == "+++ "@,
            at@ == "@@"@,
            open == hunk_scan(views(ls@).take(i as int)).open,
            nfiles == hunk_scan(views(ls@).take(i as int)).files.len(),
            nfiles <= i,
            fits == hunk_scan(views(ls@).take(i as int)).fits,
        decreases ls.len() - i,
    {
        let line = &ls[i];
        let ghost pre = views(ls@).take(i as int);
        assert(views(ls@).take(i + 1).drop_last() =~= pre);
        assert(views(ls@)[i as int] == line@);
        proof {
            lemma_scan_open_has_file(pre);
        }
        if starts_with(line, &plus) {
            let path = trim_exec(&slice_of(line, plus.len(), line.len()));
            let dev = chars_of("/dev/null");
            open = !seq_eq(&path, &dev);
            nfiles = nfiles + 1;
        } else if starts_with(line, &at) && open && nfiles > 0 {
            let s = string_of(line);
            match parse_hunk_header(s.as_str()) {
                Some((st, n)) => {
                    if n > 0 {
                        fits = fits && (st as i128) + (n as i128) - 1 <= 9223372036854775807;
                    }
                },
                None => {},
            }
        }
        i += 1;
    }
    assert(views(ls@).take(ls.len() as int) =~= views(ls@));
    fits
}

/// Parse a unified diff (as `git diff --unified=0` prints it) into per-file
/// changed new-side line ranges, `(start, end)` inclusive.
pub fn parse_hunks(diff: &str) -> (r: Vec<FileHunks>)
    requires
        hunks_fit(diff@),
    ensures
        hunks_views(r@) == parse_hunks_spec(diff@),
{
    let d = chars_of(diff);
    let ls = lines_exec(&d);
    let plus = chars_of("+++ ");
    let at = chars_of("@@");
    let mut files: Vec<FileHunks> = Vec::new();
    let mut open = false;
    let mut i: usize = 0;
    while i < ls.len()
        invariant
            i <= ls.len(),
            views(ls@) == lines(diff@),
            hunk_scan(views(ls@)).fits,
            plus@ == "+++ "@,
            at@ == "@@"@,
            hunks_views(files@) == hunk_scan(views(ls@).take(i as int)).files,
            open == hunk_scan(views(ls@).take(i as int)).open,
        decreases ls.len() - i,
    {
        let line = &ls[i];
        let ghost pre = views(ls@).take(i as int);
        let ghost before = hunks_views(files@);
        assert(views(ls@).take(i + 1).drop_last() =~= pre);
        assert(views(ls@)[i as int] == line@);
        proof {
            lemma_scan_open_has_file(pre);
            lemma_scan_fits_prefix(views(ls@), i + 1);
            assert(hunk_scan(views(ls@).take(i + 1)) == hunk_step(hunk_scan(pre), line@));
            assert(range_views(Seq::<(i64, i64)>::empty()) =~= Seq::<(int, int)>::empty());
        }
        if starts_with(line, &plus) {
            let path = trim_exec(&slice_of(line, plus.len(), line.len()));
            let dev = chars_of("/dev/null");
            if seq_eq(&path, &dev) {
                files.push(
                    FileHunks { file_path: String::new(), ranges: Vec::new(), unmappable: true },
                );
                open = false;
                assert(hunks_views(files@) =~= before.push(
                    FileHunksV { file_path: Seq::empty(), ranges: Seq::empty(), unmappable: true },
                ));
            } else {
                let b = chars_of("b/");
                let clean = if starts_with(&path, &b) {
                    slice_of(&path, b.len(), path.len())
                } else {
                    path
                };
                let ghost cv = clean@;
                files.push(
                    FileHunks { file_path: string_of(&clean), ranges: Vec::new(), unmappable: false },
                );
                open = true;
                assert(range_views(Seq::<(i64, i64)>::empty()) =~= Seq::<(int, int)>::empty());
                assert(hunks_views(files@) =~= before.push(
                    FileHunksV { file_path: cv, ranges: Seq::empty(), unmappable: false },
                ));
            }
        } else if starts_with(line, &at) && open && files.len() > 0 {
            let s = string_of(line);
            match parse_hunk_header(s.as_str()) {
                Some((st, n)) => {
                    if n > 0 {
                        let mut f = files.pop().unwrap();
                        let ghost fv = f@;
                        assert(fv == before.last());
                        assert(st + n - 1 <= i64::MAX);
                        let end: i64 = st + (n - 1);
                        f.ranges.push((st, end));
                        assert(range_views(f.ranges@) =~= fv.ranges.push(
                            (st as int, st + n - 1),
                        ));
                        files.push(f);
                        assert(hunks_views(files@) =~= before.update(
                            before.len() - 1,
                            FileHunksV { ranges: fv.ranges.push((st as int, st + n - 1)), ..fv },
                        ));
                    }
                },
                None => {
                    let mut f = files.pop().unwrap();
                    let ghost fv = f@;
                    assert(fv == before.last());
                    f.unmappable = true;
                    files.push(f);
                    assert(hunks_views(files@) =~= before.update(
                        before.len() - 1,
                        FileHunksV { unmappable: true, ..fv },
                    ));
                },
            }
        }
        i += 1;
    }
    assert(views(ls@).take(ls.len() as int) =~= views(ls@));
    files
}

/// The nodes in `file` whose line span intersects one of `ranges`, in order.
pub fn symbols_overlapping<'a>(nodes: &'a [NodeRow], file: &str, ranges: &[(i64, i64)]) -> (r:
    Vec<&'a NodeRow>)
    ensures
        r@.map_values(|n: &NodeRow| n@) == node_views(nodes@).filter(overlap_pred(file@, ranges@)),
{
    let mut out: Vec<&'a NodeRow> = Vec::new();
    let ghost pred = overlap_pred(file@, ranges@);
    let mut i: usize = 0;
    while i < nodes.len()
        invariant
            i <= nodes.len(),
            pred == overlap_pred(file@, ranges@),
            out@.map_values(|n: &NodeRow| n@) == node_views(nodes@).take(i as int).filter(pred),
        decreases nodes.len() - i,
    {
        let n = &nodes[i];
        let ghost before = out@.map_values(|n: &NodeRow| n@);
        assert(node_views(nodes@).take(i + 1).drop_last() =~= node_views(nodes@).take(i as int));
        assert(node_views(nodes@)[i as int] == n@);
        proof {
            reveal(Seq::filter);
        }
        if text_eq(n.file_path.as_str(), file) {
            let mut hit = false;
            let mut k: usize = 0;
            while k < ranges.len()
                invariant
                    k <= ranges.len(),
                    hit == exists|j: int|
                        0 <= j < k && n@.start_line <= #[trigger] ranges@[j].1 && ranges@[j].0
                            <= n@.end_line,
                decreases ranges.len() - k,
            {
                let (rs, re) = ranges[k];
                if n.start_line <= re && rs <= n.end_line {
                    hit = true;
                }
                k += 1;
            }
            if hit {
                out.push(n);
                assert(out@.map_values(|n: &NodeRow| n@) =~= before.push(n@));
            }
        }
        assert(pred(n@) == (n@.file_path == file@ && overlaps_any(n@, ranges@)));
        i += 1;
    }
    assert(node_views(nodes@).take(nodes.len() as int) =~= node_views(nodes@));
    out
}

fn text_eq(a: &str, b: &str) -> (r: bool)
    ensures
        r == (a@ == b@),
{
    let x = chars_of(a);
    let y = chars_of(b);
    seq_eq(&x, &y)
}

/// The extra `git diff` arguments for a change spec.
pub fn diff_args(spec: &ChangeSpec) -> (r: Vec<String>)
    ensures
        match spec {
            ChangeSpec::Unstaged => r@.len() == 0,
            ChangeSpec::Staged => r@.len() == 1 && r@[0]@ == "--cached"@,
            ChangeSpec::Compare(reference) => r@.len() == 1 && r@[0]@ == reference@,
        },
{
    let mut v: Vec<String> = Vec::new();
    match spec {
        ChangeSpec::Unstaged => {},
        ChangeSpec::Staged => {
            let mut s = String::new();
            append_str(&mut s, "--cached");
            v.push(s);
        },
        ChangeSpec::Compare(reference) => {
            let mut s = String::new();
            append_str(&mut s, reference.as_str());
            v.push(s);
        },
    }
    v
}

// ------------------------------------------------------------- report ---

/// Changed symbols so far: their ids (first-seen order), the rows, and
/// whether some of the diff could not be mapped to a symbol.
pub ghost struct Changed {
    pub ids: Seq<Seq<char>>,
    pub rows: Seq<NodeRowV>,
    pub partial: bool,
}

pub open spec fn add_hits(c: Changed, hits: Seq<NodeRowV>) -> Changed
    decreases hits.len(),
{
    if hits.len() == 0 {
        c
    } else {
        let c1 = add_hits(c, hits.drop_last());
        let n = hits.last();
        if c1.ids.contains(n.id) {
            c1
        } else {
            Changed { ids: c1.ids.push(n.id), rows: c1.rows.push(n), partial: c1.partial }
        }
    }
}

/// Walk the diff's files: an unmappable file, or one whose hunks touch no
/// symbol, makes the answer partial; otherwise its overlapping symbols join.
pub open spec fn changed_scan(hunks: Seq<FileHunks>, nodes: Seq<NodeRowV>) -> Changed
    decreases hunks.len(),
{
    if hunks.len() == 0 {
        Changed { ids: Seq::empty(), rows: Seq::empty(), partial: false }
    } else {
        let c = changed_scan(hunks.drop_last(), nodes);
        let fh = hunks.last();
        if fh.unmappable {
            Changed { partial: true, ..c }
        } else {
            let hits = nodes.filter(overlap_pred(fh.file_path@, fh.ranges@));
            if hits.len() == 0 {
                Changed { partial: true, ..c }
            } else {
                add_hits(c, hits)
            }
        }
    }
}

pub open spec fn row_key(n: NodeRowV) -> KeyV {
    (0, n.file_path, n.start_line)
}

pub open spec fn hop_key(h: HopV) -> KeyV {
    (h.depth as int, h.node->Some_0.file_path, h.node->Some_0.start_line)
}

pub open spec fn changed_line(n: NodeRowV) -> Seq<char> {
    "- "@ + n.kind + " `"@ + n.qualified_name + "`  "@ + n.file_path + ":"@ + signed_decimal(
        n.start_line,
    ) + "\n"@
}

pub open spec fn affected_line(h: HopV) -> Seq<char> {
    let n = h.node->Some_0;
    "- depth "@ + decimal(h.depth) + ": "@ + n.kind + " `"@ + n.qualified_name + "`  "@
        + n.file_path + ":"@ + signed_decimal(n.start_line) + "\n"@
}

pub open spec fn concat_all(parts: Seq<Seq<char>>) -> Seq<char>
    decreases parts.len(),
{
    if parts.len() == 0 {
        Seq::empty()
    } else {
        concat_all(parts.drop_last()) + parts.last()
    }
}

pub open spec fn no_overlap_text() -> Seq<char> {
    "- (no symbols overlap the diff)\n"@
}

pub open spec fn no_affected_text() -> Seq<char> {
    "- (none — no resolved callers, or absence ≠ proof)\n"@
}

pub open spec fn partial_text() -> Seq<char> {
    "\npartial: true — some changed files/hunks could not be mapped to symbols (unindexed file, module-scope edit, or unparsed hunk); absence above is not proof of no impact.\n"@
}

/// The changed symbols, ordered by file then line.
pub open spec fn sorted_rows(rows: Seq<NodeRowV>) -> Seq<NodeRowV> {
    sorted_order(rows.map_values(|n: NodeRowV| row_key(n)), rows.len() as int).map_values(
        |i: int| rows[i],
    )
}

/// Their callers that are graph nodes, ordered by depth, file, line.
pub open spec fn affected(calls: Seq<CallRowV>, nodes: Seq<NodeRowV>, ids: Seq<Seq<char>>) -> Seq<HopV> {
    let hs = blast_spec(calls, nodes, ids, MAX_DEPTH as nat).filter(|h: HopV| h.node is Some);
    sorted_order(hs.map_values(|h: HopV| hop_key(h)), hs.len() as int).map_values(|i: int| hs[i])
}

/// The changed + affected body for one repo, or none for an empty diff.
pub open spec fn detect_one_spec(
    hunks: Seq<FileHunks>,
    nodes: Seq<NodeRowV>,
    calls: Seq<CallRowV>,
) -> Option<Seq<char>> {
    if hunks.len() == 0 {
        None
    } else {
        let c = changed_scan(hunks, nodes);
        let rows = sorted_rows(c.rows);
        let aff = affected(calls, nodes, c.ids);
        Some(
            "## changed\n"@ + (if rows.len() == 0 {
                no_overlap_text()
            } else {
                concat_all(rows.map_values(|n: NodeRowV| changed_line(n)))
            }) + "\n## affected (blast)\n"@ + (if aff.len() == 0 {
                no_affected_text()
            } else {
                concat_all(aff.map_values(|h: HopV| affected_line(h)))
            }) + (if c.partial {
                partial_text()
            } else {
                Seq::empty()
            }),
        )
    }
}

pub open spec fn empty_body_spec() -> Seq<char> {
    "## changed\n"@ + no_overlap_text() + "\n## affected (blast)\n"@ + no_affected_text()
}

fn push_str(v: &mut Vec<char>, s: &str)
    ensures
        final(v)@ == old(v)@ + s@,
{
    let c = chars_of(s);
    push_all(v, &c);
}

fn id_in(ids: &Vec<String>, id: &String) -> (r: bool)
    ensures
        r == str_views(ids@).contains(id@),
{
    let x = chars_of(id.as_str());
    let mut i: usize = 0;
    while i < ids.len()
        invariant
            i <= ids@.len(),
            x@ == id@,
            forall|k: int| 0 <= k < i ==> #[trigger] ids@[k]@ != id@,
        decreases ids.len() - i,
    {
        if seq_eq(&chars_of(ids[i].as_str()), &x) {
            assert(str_views(ids@)[i as int] == id@);
            return true;
        }
        i += 1;
    }
    proof {
        if str_views(ids@).contains(id@) {
            let k = choose|k: int| 0 <= k < ids@.len() && str_views(ids@)[k] == id@;
            assert(ids@[k]@ == id@);
        }
    }
    false
}

/// The body of a repo with an empty diff.
pub fn empty_body() -> (r: String)
    ensures
        r@ == empty_body_spec(),
{
    let mut v: Vec<char> = Vec::new();
    push_str(&mut v, "## changed\n");
    push_str(&mut v, "- (no symbols overlap the diff)\n");
    push_str(&mut v, "\n## affected (blast)\n");
    push_str(&mut v, "- (none — no resolved callers, or absence ≠ proof)\n");
    string_of(&v)
}

/// The change report: the trust banner, then the repo's body (or the empty
/// body when the diff touches nothing).
pub fn detect(t: &Trust, section: Option<String>) -> (r: String)
    ensures
        r@ == banner_spec(t@) + "\n\n"@ + match section {
            Some(s) => s@,
            None => empty_body_spec(),
        },
{
    let b = banner(t);
    let mut v = chars_of(b.as_str());
    push_str(&mut v, "\n\n");
    match section {
        Some(s) => push_str(&mut v, s.as_str()),
        None => {
            let e = empty_body();
            push_str(&mut v, e.as_str());
        },
    }
    string_of(&v)
}

fn changed_line_exec(n: &NodeRow, v: &mut Vec<char>)
    ensures
        final(v)@ == old(v)@ + changed_line(n@),
{
    push_str(v, "- ");
    push_str(v, n.kind.as_str());
    push_str(v, " `");
    push_str(v, n.qualified_name.as_str());
    push_str(v, "`  ");
    push_str(v, n.file_path.as_str());
    push_str(v, ":");
    push_signed(v, n.start_line);
    push_str(v, "\n");
}

fn affected_line_exec(h: &Hop, n: &NodeRow, v: &mut Vec<char>)
    requires
        h@.node == Some(n@),
    ensures
        final(v)@ == old(v)@ + affected_line(h@),
{
    push_str(v, "- depth ");
    push_decimal(v, h.depth as u64);
    push_str(v, ": ");
    push_str(v, n.kind.as_str());
    push_str(v, " `");
    push_str(v, n.qualified_name.as_str());
    push_str(v, "`  ");
    push_str(v, n.file_path.as_str());
    push_str(v, ":");
    push_signed(v, n.start_line);
    push_str(v, "\n");
}

proof fn lemma_concat_push(p: Seq<Seq<char>>, x: Seq<char>)
    ensures
        concat_all(p.push(x)) == concat_all(p) + x,
{
    assert(p.push(x).drop_last() =~= p);
}

/// The changed-symbol scan over a diff's files.
fn collect_changed<'a>(hunks: &[FileHunks], nodes: &'a [NodeRow]) -> (r: (Vec<String>, Vec<&'a NodeRow>, bool))
    ensures
        changed_scan(hunks@, node_views(nodes@)) == (Changed {
            ids: str_views(r.0@),
            rows: r.1@.map_values(|n: &NodeRow| n@),
            partial: r.2,
        }),
{
    let ghost nv = node_views(nodes@);
    let mut ids: Vec<String> = Vec::new();
    let mut rows: Vec<&NodeRow> = Vec::new();
    let mut partial = false;
    let mut h: usize = 0;
    assert(hunks@.take(0) =~= Seq::<FileHunks>::empty());
    assert(str_views(ids@) =~= Seq::<Seq<char>>::empty());
    assert(rows@.map_values(|n: &NodeRow| n@) =~= Seq::<NodeRowV>::empty());
    while h < hunks.len()
        invariant
            h <= hunks@.len(),
            nv == node_views(nodes@),
            changed_scan(hunks@.take(h as int), nv) == (Changed {
                ids: str_views(ids@),
                rows: rows@.map_values(|n: &NodeRow| n@),
                partial: partial,
            }),
        decreases hunks.len() - h,
    {
        let fh = &hunks[h];
        assert(hunks@.take(h + 1).drop_last() =~= hunks@.take(h as int));
        assert(hunks@.take(h + 1).last() == *fh);
        if fh.unmappable {
            partial = true;
        } else {
            let hits = symbols_overlapping(nodes, fh.file_path.as_str(), fh.ranges.as_slice());
            let ghost hv = hits@.map_values(|n: &NodeRow| n@);
            assert(nodes@.map_values(|n: NodeRow| n@) == nv);
            if hits.len() == 0 {
                partial = true;
            } else {
                let ghost c0 = Changed {
                    ids: str_views(ids@),
                    rows: rows@.map_values(|n: &NodeRow| n@),
                    partial: partial,
                };
                let mut k: usize = 0;
                while k < hits.len()
                    invariant
                        k <= hits@.len(),
                        hv == hits@.map_values(|n: &NodeRow| n@),
                        add_hits(c0, hv.take(k as int)) == (Changed {
                            ids: str_views(ids@),
                            rows: rows@.map_values(|n: &NodeRow| n@),
                            partial: partial,
                        }),
                    decreases hits.len() - k,
                {
                    let n = hits[k];
                    assert(hv.take(k + 1).drop_last() =~= hv.take(k as int));
                    assert(hv.take(k + 1).last() == n@);
                    if !id_in(&ids, &n.id) {
                        let ghost i0 = str_views(ids@);
                        let ghost r0 = rows@.map_values(|n: &NodeRow| n@);
                        ids.push(n.id.clone());
                        rows.push(n);
                        assert(str_views(ids@) =~= i0.push(n@.id));
                        assert(rows@.map_values(|n: &NodeRow| n@) =~= r0.push(n@));
                    }
                    k += 1;
                }
                assert(hv.take(hits.len() as int) =~= hv);
            }
        }
        h += 1;
    }
    assert(hunks@.take(hunks.len() as int) =~= hunks@);
    (ids, rows, partial)
}

/// The changed lines, ordered by file then line.
fn render_changed(rows: &Vec<&NodeRow>, out: &mut Vec<char>)
    ensures
        final(out)@ == old(out)@ + (if rows@.len() == 0 {
            no_overlap_text()
        } else {
            concat_all(sorted_rows(rows@.map_values(|n: &NodeRow| n@)).map_values(
                |n: NodeRowV| changed_line(n),
            ))
        }),
{
    let ghost c_rows = rows@.map_values(|n: &NodeRow| n@);
    let mut keys: Vec<(u64, Vec<char>, i64)> = Vec::new();
    let mut i: usize = 0;
    while i < rows.len()
        invariant
            i <= rows@.len(),
            key_views(keys@) == rows@.map_values(|n: &NodeRow| n@).take(i as int).map_values(
                |n: NodeRowV| row_key(n),
            ),
        decreases rows.len() - i,
    {
        let ghost k0 = key_views(keys@);
        keys.push((0, chars_of(rows[i].file_path.as_str()), rows[i].start_line));
        assert(key_views(keys@) =~= k0.push(row_key(rows@[i as int]@)));
        assert(rows@.map_values(|n: &NodeRow| n@).take(i + 1) =~= rows@.map_values(
            |n: &NodeRow| n@,
        ).take(i as int).push(rows@[i as int]@));
        i += 1;
    }
    assert(rows@.map_values(|n: &NodeRow| n@).take(rows.len() as int) =~= rows@.map_values(
        |n: &NodeRow| n@,
    ));
    let order = stable_order(&keys);
    proof {
        crate::order::lemma_sorted_order_sorted(key_views(keys@), keys@.len() as int);
    }
    let ghost srt = sorted_rows(c_rows);
    let ghost rv = rows@.map_values(|n: &NodeRow| n@);
    let ghost ord = sorted_order(key_views(keys@), keys@.len() as int);
    assert(srt == ord.map_values(|i: int| rv[i]));
    assert(srt.len() == rows@.len());
    assert forall|q: int| 0 <= q < order@.len() implies 0 <= #[trigger] order@[q] < rows@.len() by {
        assert(order@.map_values(|i: usize| i as int)[q] == ord[q]);
    }
    assert forall|q: int| 0 <= q < srt.len() implies #[trigger] srt[q] == rows@[order@[q] as int]@ by {
        assert(order@.map_values(|i: usize| i as int)[q] == ord[q]);
    }
    let ghost base = out@;
    if rows.len() == 0 {
        push_str(out, "- (no symbols overlap the diff)\n");
    } else {
        let mut j: usize = 0;
        while j < order.len()
            invariant
                j <= order@.len(),
                order@.len() == rows@.len(),
                forall|q: int| 0 <= q < order@.len() ==> 0 <= #[trigger] order@[q] < rows@.len(),
                srt.len() == rows@.len(),
                forall|q: int| 0 <= q < srt.len() ==> #[trigger] srt[q] == rows@[order@[q] as int]@,
                out@ == base + concat_all(srt.take(j as int).map_values(|n: NodeRowV| changed_line(n))),
            decreases order.len() - j,
        {
            let idx = order[j];
            assert(srt[j as int] == rows@[idx as int]@);
            changed_line_exec(rows[idx], out);
            proof {
                lemma_concat_push(srt.take(j as int).map_values(|n: NodeRowV| changed_line(n)), changed_line(srt[j as int]));
            }
            assert(srt.take(j + 1).map_values(|n: NodeRowV| changed_line(n)) =~= srt.take(j as int).map_values(
                |n: NodeRowV| changed_line(n),
            ).push(changed_line(srt[j as int])));
            j += 1;
        }
        assert(srt.take(order.len() as int) =~= srt);
    }
}

/// The affected lines: callers that are graph nodes, ordered by depth, file,
/// line.
fn render_affected(ids: &Vec<String>, nodes: &[NodeRow], calls: &[CallRow], out: &mut Vec<char>)
    ensures
        final(out)@ == old(out)@ + (if affected(row_views(calls@), node_views(nodes@), str_views(ids@)).len() == 0 {
            no_affected_text()
        } else {
            concat_all(affected(row_views(calls@), node_views(nodes@), str_views(ids@)).map_values(
                |h: HopV| affected_line(h),
            ))
        }),
{
    let ghost nv = node_views(nodes@);
    let mut seeds: Vec<&str> = Vec::new();
    let mut s: usize = 0;
    while s < ids.len()
        invariant
            s <= ids@.len(),
            seeds@.map_values(|x: &str| x@) == str_views(ids@).take(s as int),
        decreases ids.len() - s,
    {
        let ghost s0 = seeds@.map_values(|x: &str| x@);
        seeds.push(ids[s].as_str());
        assert(seeds@.map_values(|x: &str| x@) =~= s0.push(ids@[s as int]@));
        assert(str_views(ids@).take(s + 1) =~= str_views(ids@).take(s as int).push(ids@[s as int]@));
        s += 1;
    }
    assert(str_views(ids@).take(ids.len() as int) =~= str_views(ids@));
    let hops = from_ids(calls, nodes, seeds.as_slice(), MAX_DEPTH);
    let ghost all = hop_views(hops@);
    let ghost keep = |h: HopV| h.node is Some;
    let mut kept: Vec<usize> = Vec::new();
    let mut hk: Vec<(u64, Vec<char>, i64)> = Vec::new();
    let mut q: usize = 0;
    while q < hops.len()
        invariant
            q <= hops@.len(),
            all == hop_views(hops@),
            keep == (|h: HopV| h.node is Some),
            kept@.len() == hk@.len(),
            kept@.map_values(|i: usize| all[i as int]) == all.take(q as int).filter(keep),
            forall|t: int| 0 <= t < kept@.len() ==> #[trigger] kept@[t] < q,
            key_views(hk@) == all.take(q as int).filter(keep).map_values(|h: HopV| hop_key(h)),
        decreases hops.len() - q,
    {
        proof {
            reveal(Seq::filter);
        }
        assert(all.take(q + 1).drop_last() =~= all.take(q as int));
        assert(all.take(q + 1).last() == all[q as int]);
        assert(all[q as int] == hops@[q as int]@);
        match &hops[q].node {
            Some(n) => {
                let ghost m0 = kept@.map_values(|i: usize| all[i as int]);
                let ghost k0 = key_views(hk@);
                kept.push(q);
                hk.push((hops[q].depth as u64, chars_of(n.file_path.as_str()), n.start_line));
                assert(kept@.map_values(|i: usize| all[i as int]) =~= m0.push(all[q as int]));
                assert(key_views(hk@) =~= k0.push(hop_key(all[q as int])));
            },
            None => {},
        }
        q += 1;
    }
    assert(all.take(hops.len() as int) =~= all);
    let ghost hs = all.filter(keep);
    let horder = stable_order(&hk);
    proof {
        crate::order::lemma_sorted_order_sorted(key_views(hk@), hk@.len() as int);
    }
    let ghost aff = affected(row_views(calls@), nv, str_views(ids@));
    let ghost hord = sorted_order(key_views(hk@), hk@.len() as int);
    assert(aff == hord.map_values(|i: int| hs[i]));
    assert(hs.len() == kept@.len());
    assert(aff.len() == kept@.len());
    assert forall|t: int| 0 <= t < horder@.len() implies 0 <= #[trigger] horder@[t] < kept@.len() by {
        assert(horder@.map_values(|i: usize| i as int)[t] == hord[t]);
    }
    assert forall|t: int| 0 <= t < aff.len() implies #[trigger] aff[t] == all[kept@[horder@[t] as int] as int]
        && aff[t].node is Some by {
        assert(horder@.map_values(|i: usize| i as int)[t] == hord[t]);
        assert(kept@.map_values(|i: usize| all[i as int])[horder@[t] as int] == all[kept@[horder@[t] as int] as int]);
        all.lemma_filter_pred(keep, horder@[t] as int);
    }
    let ghost base2 = out@;
    if kept.len() == 0 {
        push_str(out, "- (none — no resolved callers, or absence ≠ proof)\n");
    } else {
        let mut j: usize = 0;
        while j < horder.len()
            invariant
                j <= horder@.len(),
                horder@.len() == kept@.len(),
                forall|t: int| 0 <= t < horder@.len() ==> 0 <= #[trigger] horder@[t] < kept@.len(),
                forall|t: int| 0 <= t < kept@.len() ==> #[trigger] kept@[t] < hops@.len(),
                all == hop_views(hops@),
                aff.len() == kept@.len(),
                forall|t: int| 0 <= t < aff.len() ==> #[trigger] aff[t] == all[kept@[horder@[t] as int] as int]
                    && aff[t].node is Some,
                out@ == base2 + concat_all(aff.take(j as int).map_values(|h: HopV| affected_line(h))),
            decreases horder.len() - j,
        {
            let t = horder[j];
            let hi = kept[t];
            assert(aff[j as int] == hops@[hi as int]@);
            let hop = &hops[hi];
            match &hop.node {
                Some(n) => {
                    affected_line_exec(hop, n, out);
                },
                None => {},
            }
            assert(aff.take(j + 1).map_values(|h: HopV| affected_line(h)) =~= aff.take(j as int).map_values(
                |h: HopV| affected_line(h),
            ).push(affected_line(aff[j as int])));
            proof {
                lemma_concat_push(aff.take(j as int).map_values(|h: HopV| affected_line(h)), affected_line(aff[j as int]));
            }
            j += 1;
        }
        assert(aff.take(horder.len() as int) =~= aff);
    }
}

/// Symbols a diff touches, then their blast radius over the `calls` rows,
/// rendered as markdown; none when the diff has no files.
pub fn detect_one(hunks: &[FileHunks], nodes: &[NodeRow], calls: &[CallRow]) -> (r: Option<String>)
    ensures
        match r {
            Some(s) => detect_one_spec(hunks@, node_views(nodes@), row_views(calls@)) == Some(s@),
            None => detect_one_spec(hunks@, node_views(nodes@), row_views(calls@)) is None,
        },
{
    if hunks.len() == 0 {
        return None;
    }
    let (ids, rows, partial) = collect_changed(hunks, nodes);
    let mut out: Vec<char> = Vec::new();
    push_str(&mut out, "## changed\n");
    render_changed(&rows, &mut out);
    push_str(&mut out, "\n## affected (blast)\n");
    render_affected(&ids, nodes, calls, &mut out);
    if partial {
        push_str(&mut out, "\npartial: true — some changed files/hunks could not be mapped to symbols (unindexed file, module-scope edit, or unparsed hunk); absence above is not proof of no impact.\n");
    }
    Some(string_of(&out))
}


// ------------------------------------------------------------------ laws ---

proof fn lemma_add_hits_keeps_partial(c: Changed, hits: Seq<NodeRowV>)
    ensures
        add_hits(c, hits).partial == c.partial,
    decreases hits.len(),
{
    if hits.len() > 0 {
        lemma_add_hits_keeps_partial(c, hits.drop_last());
    }
}

/// Does hunk `fh` map to no symbol (an unmappable file, or ranges that touch
/// none of `nodes`)?
pub open spec fn unmapped(fh: FileHunks, nodes: Seq<NodeRowV>) -> bool {
    fh.unmappable || nodes.filter(overlap_pred(fh.file_path@, fh.ranges@)).len() == 0
}

proof fn lemma_scan_partial(hunks: Seq<FileHunks>, nodes: Seq<NodeRowV>, k: int)
    requires
        0 <= k < hunks.len(),
        unmapped(hunks[k], nodes),
    ensures
        changed_scan(hunks, nodes).partial,
    decreases hunks.len(),
{
    let c = changed_scan(hunks.drop_last(), nodes);
    if k < hunks.len() - 1 {
        assert(hunks.drop_last()[k] == hunks[k]);
        lemma_scan_partial(hunks.drop_last(), nodes, k);
    }
    let fh = hunks.last();
    if !fh.unmappable {
        let hits = nodes.filter(overlap_pred(fh.file_path@, fh.ranges@));
        if hits.len() > 0 {
            lemma_add_hits_keeps_partial(c, hits);
        }
    }
}

/// Absence is not proof: when any file of the diff maps to no symbol, the
/// change report ends by saying it is partial.
pub proof fn lemma_unmapped_hunk_reports_partial(
    hunks: Seq<FileHunks>,
    nodes: Seq<NodeRowV>,
    calls: Seq<CallRowV>,
    k: int,
)
    requires
        0 <= k < hunks.len(),
        unmapped(hunks[k], nodes),
    ensures
        detect_one_spec(hunks, nodes, calls) matches Some(r) && crate::text::has_suffix(r, partial_text()),
{
    lemma_scan_partial(hunks, nodes, k);
    let r = detect_one_spec(hunks, nodes, calls)->Some_0;
    let p = partial_text();
    assert(r.subrange(r.len() - p.len(), r.len() as int) =~= p);
}

} // verus!
