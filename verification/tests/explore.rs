use codescratch::blast::CallRow;
use codescratch::explore::{
    blast_by_depth, budget, callee_line, heritage_line, line_window, render_view, route_line,
    ExploreView,
};
use codescratch::model::NodeRow;

fn node(id: &str, qn: &str, file: &str, line: i64) -> NodeRow {
    NodeRow {
        id: id.to_string(),
        kind: "function".to_string(),
        name: qn.to_string(),
        qualified_name: qn.to_string(),
        file_path: file.to_string(),
        start_line: line,
        end_line: line + 2,
        exported: false,
        signature: String::new(),
    }
}

fn call(src: &str, dst: &str, file: &str, line: i64, conf: &str) -> CallRow {
    CallRow {
        src_id: src.to_string(),
        dst_id: dst.to_string(),
        file_path: file.to_string(),
        line,
        conf: conf.to_string(),
        reason: "same-file".to_string(),
    }
}

fn view_fixture() -> ExploreView {
    ExploreView {
        node: NodeRow {
            id: "f#foo@1".into(),
            kind: "function".into(),
            name: "foo".into(),
            qualified_name: "foo".into(),
            file_path: "src/a.ts".into(),
            start_line: 1,
            end_line: 3,
            exported: true,
            signature: "function foo()".into(),
        },
        snippet: Some("export function foo() { return 1; }".into()),
        spine: vec![],
        members: vec![],
        heritage: vec![],
        blast: vec![(1, vec!["bar  src/b.ts:2  [same-file]".into()])],
        callees: vec![],
        routes: vec!["step_in  flow:bar  src/b.ts:0".into()],
    }
}

#[test]
fn render_view_keeps_frozen_section_order() {
    let s = render_view(&view_fixture());
    let spine = s.find("**call-path spine**").unwrap();
    let blast = s.find("**callers ← (blast radius)**").unwrap();
    let calls = s.find("**calls →**").unwrap();
    let routes = s.find("**routes / processes**").unwrap();
    assert!(spine < blast && blast < calls && calls < routes, "{s}");
    assert!(s.contains("[exported]"));
    assert!(s.contains("depth 1:"));
    assert!(s.contains("step_in"));
}

#[test]
fn budget_truncates_on_char_boundary() {
    let s = budget("abcdefghij", 4);
    assert!(s.starts_with("abcd"));
    assert!(s.contains("truncated"));
}

#[test]
fn render_view_exact_text_of_the_fixture() {
    let s = render_view(&view_fixture());
    let expected = "## function `foo`  (src/a.ts:1-3)  [exported]\n\
`function foo()`\n\
\n```\nexport function foo() { return 1; }\n```\n\
\n**call-path spine**\n- (leaf — no named callees)\n\
\n**callers ← (blast radius)**\ndepth 1:\n- bar  src/b.ts:2  [same-file]\n\
\n**calls →**\n- (none captured)\n\
\n**routes / processes**\n- step_in  flow:bar  src/b.ts:0\n";
    assert_eq!(s, expected);
}

#[test]
fn render_view_empty_sections_have_placeholders() {
    let mut v = view_fixture();
    v.node.exported = false;
    v.node.signature = String::new();
    v.snippet = None;
    v.blast = vec![];
    v.routes = vec![];
    v.members = vec![node("m", "m", "src/a.ts", 2)];
    v.heritage = vec!["extends Base  [import]".into()];
    let s = render_view(&v);
    assert!(!s.contains("[exported]"));
    assert!(!s.contains("```"));
    assert!(s.contains("\n**members**\n- function `m`  :2\n"));
    assert!(s.contains("\n**heritage**\n- extends Base  [import]\n"));
    assert!(s.contains("- (no resolved callers — absence ≠ proof; weak/dynamic calls may be missed)\n"));
    assert!(s.ends_with("\n**routes / processes**\n- (none)\n"));
}

#[test]
fn budget_keeps_short_text_whole() {
    assert_eq!(budget("abc", 3), "abc");
    assert_eq!(budget("", 0), "");
}

#[test]
fn budget_exact_truncation_text() {
    assert_eq!(budget("abcdefghij", 4), "abcd\n… [truncated to 4 bytes]");
}

#[test]
fn budget_never_splits_a_multibyte_char() {
    // "é" is two bytes: a cut after one byte must back off to the boundary.
    let s = budget("aé", 2);
    assert_eq!(s, "a\n… [truncated to 2 bytes]");
}

#[test]
fn line_window_selects_inclusive_lines() {
    let src = "l1\nl2\nl3\nl4\n";
    assert_eq!(line_window(src, 2, 3), "l2\nl3");
    assert_eq!(line_window(src, 0, 1), "l1");
    assert_eq!(line_window(src, 4, 2), "l4");
    assert_eq!(line_window(src, 9, 12), "");
}

#[test]
fn blast_by_depth_groups_hops_by_depth() {
    let nodes = vec![
        node("a", "A", "src/a.ts", 1),
        node("b", "B", "src/b.ts", 5),
        node("c", "C", "src/c.ts", 9),
    ];
    let rows = vec![
        call("b", "c", "src/b.ts", 6, "strong"),
        call("a", "b", "src/a.ts", 2, "weak"),
    ];
    let r = blast_by_depth(&rows, &nodes, "c", 3);
    assert_eq!(
        r,
        vec![
            (1usize, vec!["B  src/b.ts:6  [same-file]".to_string()]),
            (2usize, vec!["A  src/a.ts:2  [same-file]  ⟨weak⟩".to_string()]),
        ]
    );
}

#[test]
fn blast_by_depth_names_unknown_caller_module() {
    let nodes = vec![node("c", "C", "src/c.ts", 9)];
    let rows = vec![call("file:src/x.ts", "c", "src/x.ts", 1, "strong")];
    let r = blast_by_depth(&rows, &nodes, "c", 1);
    assert_eq!(r, vec![(1usize, vec!["<module>  src/x.ts:1  [same-file]".to_string()])]);
}

#[test]
fn blast_by_depth_empty_without_callers() {
    let nodes = vec![node("c", "C", "src/c.ts", 9)];
    let r = blast_by_depth(&[], &nodes, "c", 3);
    assert!(r.is_empty());
}

#[test]
fn callee_line_formats_target_and_marks() {
    let t = Some(("B".to_string(), "src/b.ts".to_string(), 5i64));
    assert_eq!(callee_line(t, "b", true, "strong", "import"), "B (src/b.ts:5)  [import]");
    assert_eq!(callee_line(None, "x.y", false, "weak", "unresolved"), "`x.y`  [unresolved]  ⟨unresolved⟩");
    assert_eq!(callee_line(None, "z", true, "weak", "global"), "`z`  [global]  ⟨weak⟩");
}

#[test]
fn heritage_and_route_lines() {
    assert_eq!(heritage_line("extends", "Base", "weak", "global"), "extends Base  [global]  ⟨weak⟩");
    assert_eq!(heritage_line("implements", "I", "strong", "import"), "implements I  [import]");
    assert_eq!(route_line("step_in", "flow:bar", "src/b.ts", 0), "step_in  flow:bar  src/b.ts:0");
}

use codescratch::explore::{SpineHop, SpineWalk};

fn hop(dst: Option<&str>, raw: &str, resolved: bool, name: Option<&str>) -> Option<SpineHop> {
    Some(SpineHop {
        dst: dst.map(|s| s.to_string()),
        raw: raw.to_string(),
        resolved,
        dst_name: name.map(|s| s.to_string()),
    })
}

#[test]
fn spine_follows_first_calls_until_an_open_hop() {
    let mut w = SpineWalk::new("a#foo@1");
    assert_eq!(w.next_query().as_deref(), Some("a#foo@1"));
    w.step(hop(Some("a#bar@5"), "bar", true, Some("Bar.bar")));
    assert_eq!(w.next_query().as_deref(), Some("a#bar@5"));
    w.step(hop(None, "x.y", false, None));
    assert!(w.next_query().is_none());
    assert_eq!(w.finish("foo"), vec!["foo → Bar.bar  `bar` → x.y  `x.y`".to_string()]);
}

#[test]
fn spine_allows_one_unnamed_bridge_only() {
    let mut w = SpineWalk::new("a");
    w.step(hop(Some("b"), "b", false, Some("b")));
    assert_eq!(w.next_query().as_deref(), Some("b"));
    w.step(hop(Some("c"), "<anon>", true, Some("<anon>")));
    assert!(w.next_query().is_none());
    assert_eq!(w.finish("A"), vec!["A → b  `b`".to_string()]);
}

#[test]
fn spine_stops_on_a_cycle_and_after_four_hops() {
    let mut w = SpineWalk::new("a");
    w.step(hop(Some("b"), "b", true, Some("B")));
    w.step(hop(Some("a"), "a", true, Some("A")));
    assert!(w.next_query().is_none());
    assert_eq!(w.finish("A"), vec!["A → B  `b` → A  `a`".to_string()]);
    let mut w = SpineWalk::new("n0");
    for k in 1..=4 {
        let id = format!("n{k}");
        w.step(hop(Some(&id), &id, true, Some(&id)));
    }
    assert!(w.next_query().is_none());
    assert_eq!(w.path.len(), 4);
}

#[test]
fn spine_without_calls_is_empty() {
    let mut w = SpineWalk::new("a");
    w.step(None);
    assert!(w.next_query().is_none());
    assert!(w.finish("A").is_empty());
}
