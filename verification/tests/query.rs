use codescratch::explore::ExploreView;
use codescratch::model::NodeRow;
use codescratch::query::{explore_text, search_body, search_text, suggestions, Explored};

fn row(name: &str, exported: bool) -> NodeRow {
    NodeRow {
        id: format!("src/a.ts#{name}@3"),
        kind: "function".into(),
        name: name.into(),
        qualified_name: name.into(),
        file_path: "src/a.ts".into(),
        start_line: 3,
        end_line: 4,
        exported,
        signature: String::new(),
    }
}

#[test]
fn search_body_lists_hits_with_export_star() {
    let b = search_body("get", None, &[Some(row("getUser", true)), None, Some(row("getAll", false))]);
    assert_eq!(b, "★ function getUser  src/a.ts:3\n  function getAll  src/a.ts:3\n");
    let g = search_body("get", Some("api"), &[Some(row("getUser", true))]);
    assert_eq!(g, "[api] ★ function getUser  src/a.ts:3\n");
}

#[test]
fn search_body_reports_no_match() {
    assert_eq!(search_body("zz", None, &[]), "no symbol matching `zz`.");
    assert_eq!(search_body("zz", Some("api"), &[]), "[api] no symbol matching `zz`.\n");
    assert_eq!(search_body("zz", None, &[None]), "");
}

#[test]
fn search_text_puts_banner_first() {
    assert_eq!(search_text("B", "x\n"), "B\n\nx\n");
}

#[test]
fn suggestions_skip_the_no_match_line_and_cap_at_eight() {
    assert!(suggestions("no symbol matching `x`.").is_empty());
    let body: String = (0..10).map(|i| format!("line{i}\n")).collect();
    let s = suggestions(&body);
    assert_eq!(s.len(), 8);
    assert_eq!(s[0], "line0");
    assert_eq!(suggestions("a\n\nb\n"), vec!["a".to_string(), "b".to_string()]);
}

#[test]
fn explore_text_missing_with_nearby() {
    let e = Explored::Missing { suggestions: vec!["★ function getUser  src/a.ts:3".into()] };
    assert_eq!(
        explore_text("B", "getUsr", &e),
        "B\n\nno symbol named `getUsr`. try `search getUsr` for fuzzy matches.\n\n**nearby**\n- ★ function getUser  src/a.ts:3\n"
    );
    let e = Explored::Missing { suggestions: vec![] };
    assert_eq!(explore_text("B", "q", &e), "B\n\nno symbol named `q`. try `search q` for fuzzy matches.");
}

#[test]
fn explore_text_found_renders_view_after_banner() {
    let v = ExploreView {
        node: row("foo", false),
        snippet: None,
        spine: vec![],
        members: vec![],
        heritage: vec![],
        blast: vec![],
        callees: vec![],
        routes: vec![],
    };
    let s = explore_text("B", "foo", &Explored::Found(v));
    assert!(s.starts_with("B\n\n## function `foo`  (src/a.ts:3-4)\n"));
}
