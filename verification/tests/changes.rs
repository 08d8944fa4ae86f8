use codescratch::changes::{diff_args, hunk_ends_fit, parse_hunk_header, parse_hunks, symbols_overlapping, ChangeSpec};
use codescratch::model::NodeRow;

fn node(id: &str, file: &str, start: i64, end: i64) -> NodeRow {
    NodeRow {
        id: id.to_string(),
        kind: "function".to_string(),
        name: id.to_string(),
        qualified_name: id.to_string(),
        file_path: file.to_string(),
        start_line: start,
        end_line: end,
        exported: true,
        signature: String::new(),
    }
}

#[test]
fn parses_single_hunk_header_with_counts() {
    let (start, len) = parse_hunk_header("@@ -12,3 +14,5 @@ fn foo() {").unwrap();
    assert_eq!(start, 14);
    assert_eq!(len, 5);
}

#[test]
fn parses_bare_single_line_hunk_header() {
    let (start, len) = parse_hunk_header("@@ -8 +9 @@").unwrap();
    assert_eq!(start, 9);
    assert_eq!(len, 1);
}

#[test]
fn parses_pure_addition_hunk_header() {
    let (start, len) = parse_hunk_header("@@ -5,0 +6,2 @@").unwrap();
    assert_eq!(start, 6);
    assert_eq!(len, 2);
}

#[test]
fn parses_pure_deletion_hunk_header_as_zero_len() {
    let (start, len) = parse_hunk_header("@@ -5,2 +6,0 @@").unwrap();
    assert_eq!(start, 6);
    assert_eq!(len, 0);
}

#[test]
fn rejects_malformed_header() {
    assert!(parse_hunk_header("@@ nonsense @@").is_none());
}

#[test]
fn parse_hunks_extracts_ranges_per_file() {
    let diff = "\
diff --git a/src/foo.rs b/src/foo.rs
index 111..222 100644
--- a/src/foo.rs
+++ b/src/foo.rs
@@ -10,0 +11,3 @@ fn foo() {
+line1
+line2
+line3
@@ -20,2 +23,1 @@ fn bar() {
-old
-old2
+new
diff --git a/src/baz.rs b/src/baz.rs
index 333..444 100644
--- a/src/baz.rs
+++ b/src/baz.rs
@@ -1,1 +1,1 @@
-old
+new
";
    let hunks = parse_hunks(diff);
    assert_eq!(hunks.len(), 2);
    assert_eq!(hunks[0].file_path, "src/foo.rs");
    assert_eq!(hunks[0].ranges, vec![(11, 13), (23, 23)]);
    assert!(!hunks[0].unmappable);
    assert_eq!(hunks[1].file_path, "src/baz.rs");
    assert_eq!(hunks[1].ranges, vec![(1, 1)]);
}

#[test]
fn parse_hunks_pure_deletion_hunk_yields_no_range() {
    let diff = "\
diff --git a/src/foo.rs b/src/foo.rs
--- a/src/foo.rs
+++ b/src/foo.rs
@@ -10,3 +9,0 @@ fn foo() {
-line1
-line2
-line3
";
    let hunks = parse_hunks(diff);
    assert_eq!(hunks.len(), 1);
    assert!(hunks[0].ranges.is_empty());
    assert!(!hunks[0].unmappable);
}

#[test]
fn parse_hunks_deleted_file_marked_unmappable() {
    let diff = "\
diff --git a/src/gone.rs b/src/gone.rs
deleted file mode 100644
--- a/src/gone.rs
+++ /dev/null
@@ -1,5 +0,0 @@
-stuff
";
    let hunks = parse_hunks(diff);
    assert_eq!(hunks.len(), 1);
    assert!(hunks[0].unmappable);
}

#[test]
fn overlap_detects_intersecting_ranges() {
    let nodes = vec![
        node("a", "src/foo.rs", 1, 5),
        node("b", "src/foo.rs", 10, 20),
        node("c", "src/foo.rs", 25, 30),
        node("d", "src/other.rs", 10, 20),
    ];
    let hits = symbols_overlapping(&nodes, "src/foo.rs", &[(18, 22)]);
    assert_eq!(hits.len(), 1);
    assert_eq!(hits[0].id, "b");
}

#[test]
fn overlap_matches_exact_boundary_touch() {
    let nodes = vec![node("a", "src/foo.rs", 10, 20)];
    let hits = symbols_overlapping(&nodes, "src/foo.rs", &[(20, 25)]);
    assert_eq!(hits.len(), 1);
}

#[test]
fn overlap_ignores_other_files() {
    let nodes = vec![node("a", "src/foo.rs", 1, 100)];
    let hits = symbols_overlapping(&nodes, "src/bar.rs", &[(1, 100)]);
    assert!(hits.is_empty());
}

#[test]
fn overlap_none_when_ranges_dont_touch() {
    let nodes = vec![node("a", "src/foo.rs", 1, 5)];
    let hits = symbols_overlapping(&nodes, "src/foo.rs", &[(10, 20)]);
    assert!(hits.is_empty());
}

#[test]
fn header_with_signed_and_huge_numbers() {
    assert_eq!(parse_hunk_header("@@ -1 +-3,+2 @@"), Some((-3, 2)));
    assert!(parse_hunk_header("@@ -1 +99999999999999999999 @@").is_none());
    assert!(parse_hunk_header("@@ -1 +,2 @@").is_none());
    assert!(parse_hunk_header("@ -1 +1 @@").is_none());
}

#[test]
fn hunk_before_any_file_header_is_ignored() {
    let diff = "@@ -1 +1,2 @@\n+++ b/x.rs\n@@ bad @@\n";
    let hunks = parse_hunks(diff);
    assert_eq!(hunks.len(), 1);
    assert_eq!(hunks[0].file_path, "x.rs");
    assert!(hunks[0].ranges.is_empty());
    assert!(hunks[0].unmappable);
}

#[test]
fn range_end_overflow_is_detected() {
    assert!(hunk_ends_fit("+++ b/a\n@@ -1 +9223372036854775807,1 @@\n"));
    assert!(!hunk_ends_fit("+++ b/a\n@@ -1 +9223372036854775807,2 @@\n"));
    assert!(hunk_ends_fit("@@ -1 +9223372036854775807,2 @@\n"));
}

#[test]
fn diff_args_per_spec() {
    assert!(diff_args(&ChangeSpec::Unstaged).is_empty());
    assert_eq!(diff_args(&ChangeSpec::Staged), vec!["--cached".to_string()]);
    assert_eq!(diff_args(&ChangeSpec::Compare("HEAD~1".into())), vec!["HEAD~1".to_string()]);
}

use codescratch::blast::CallRow;
use codescratch::changes::{detect, detect_one, empty_body, FileHunks};
use codescratch::trust::Trust;

fn fh(path: &str, ranges: Vec<(i64, i64)>, unmappable: bool) -> FileHunks {
    FileHunks { file_path: path.into(), ranges, unmappable }
}

fn crow(src: &str, dst: &str) -> CallRow {
    CallRow {
        src_id: src.into(),
        dst_id: dst.into(),
        file_path: "x.ts".into(),
        line: 1,
        conf: "strong".into(),
        reason: "same-file".into(),
    }
}

#[test]
fn detect_one_none_for_empty_diff() {
    assert_eq!(detect_one(&[], &[], &[]), None);
}

#[test]
fn detect_one_renders_changed_affected_and_partial() {
    let nodes = vec![
        node("b", "src/z.ts", 30, 40),
        node("a", "src/a.ts", 5, 9),
        node("caller", "src/c.ts", 2, 3),
    ];
    let calls = vec![crow("caller", "a"), crow("ghost", "b")];
    let hunks = vec![
        fh("src/z.ts", vec![(35, 35)], false),
        fh("src/a.ts", vec![(1, 6), (8, 8)], false),
        fh("", vec![], true),
    ];
    let out = detect_one(&hunks, &nodes, &calls).unwrap();
    assert_eq!(
        out,
        "## changed\n- function `a`  src/a.ts:5\n- function `b`  src/z.ts:30\n\n## affected (blast)\n- depth 1: function `caller`  src/c.ts:2\n\npartial: true — some changed files/hunks could not be mapped to symbols (unindexed file, module-scope edit, or unparsed hunk); absence above is not proof of no impact.\n"
    );
}

#[test]
fn detect_one_without_overlap_says_so() {
    let nodes = vec![node("a", "src/a.ts", 5, 9)];
    let out = detect_one(&[fh("src/a.ts", vec![(20, 21)], false)], &nodes, &[]).unwrap();
    assert!(out.starts_with("## changed\n- (no symbols overlap the diff)\n"), "{out}");
    assert!(out.contains("- (none — no resolved callers, or absence ≠ proof)\n"), "{out}");
    assert!(out.contains("partial: true"), "{out}");
}

#[test]
fn detect_prefixes_the_banner() {
    let t = Trust {
        trust: "fresh".into(),
        coverage: "exhaustive".into(),
        resolve: "ok".into(),
        files: 1,
        nodes: 2,
        edges: 3,
    };
    let out = detect(&t, None);
    assert!(out.starts_with("trust: fresh"), "{out}");
    assert!(out.ends_with(&format!("\n\n{}", empty_body())), "{out}");
    assert_eq!(
        empty_body(),
        "## changed\n- (no symbols overlap the diff)\n\n## affected (blast)\n- (none — no resolved callers, or absence ≠ proof)\n"
    );
    assert_eq!(detect(&t, Some("X".into())), "trust: fresh · coverage: exhaustive · resolve: ok  (1 files, 2 symbols, 3 edges)\n\nX");
}
