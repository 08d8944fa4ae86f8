use codescratch::query::Explored;
use codescratch::scope::{Member, Scope};
use codescratch::trust::{missing, Trust};

fn t(trust: &str, files: i64) -> Trust {
    Trust {
        trust: trust.into(),
        coverage: "exhaustive".into(),
        resolve: "ok".into(),
        files,
        nodes: 2,
        edges: 3,
    }
}

fn member(label: &str, trust: Trust, err: Option<&str>) -> Member {
    Member { label: label.into(), trust, err: err.map(|e| e.to_string()) }
}

fn two() -> Scope {
    Scope { roots: vec!["/w/a".into(), "/w/b".into()] }
}

#[test]
fn group_status_lists_members_and_merges_worst() {
    let ms = vec![member("a", t("fresh", 1), None), member("b", missing(), Some("no db"))];
    let s = two().status(&ms).unwrap();
    assert_eq!(
        s,
        "trust: missing · coverage: exhaustive · resolve: ok  (1 files, 2 symbols, 3 edges)  [group: 2 repos]\n\n\
- a: trust: fresh · coverage: exhaustive · resolve: ok  (1 files, 2 symbols, 3 edges)\n\
- b: unavailable (no db)"
    );
}

#[test]
fn single_status_is_the_banner_or_the_error() {
    let one = Scope { roots: vec!["/w/a".into()] };
    assert_eq!(
        one.status(&[member("a", t("stale", 4), None)]).unwrap(),
        "trust: stale · coverage: exhaustive · resolve: ok  (4 files, 2 symbols, 3 edges)"
    );
    assert_eq!(one.status(&[member("a", missing(), Some("boom"))]), Err("boom".to_string()));
}

#[test]
fn group_changes_skips_clean_members() {
    let ms = vec![member("a", t("fresh", 1), None), member("b", t("fresh", 1), None)];
    let s = two()
        .changes(&ms, &[Ok(None), Ok(Some("**changed**".into()))])
        .unwrap();
    assert!(s.ends_with("\n\n# repo `b`\n\n**changed**"), "{s}");
    let clean = two().changes(&ms, &[Ok(None), Ok(None)]).unwrap();
    assert!(clean.ends_with("no symbols overlap the diff in any group repo."), "{clean}");
    let err = two().changes(&ms, &[Err("git".into()), Ok(None)]).unwrap();
    assert!(err.ends_with("# repo `a`\n\n- unavailable (git)"), "{err}");
}

#[test]
fn group_search_labels_hits_and_errors() {
    let ms = vec![member("a", t("fresh", 1), None), member("b", missing(), Some("gone"))];
    let s = two().search("q", &ms, &[Ok(vec![]), Ok(vec![])]).unwrap();
    assert!(s.ends_with("[a] no symbol matching `q`.\n- b: unavailable (gone)"), "{s}");
    let e = two()
        .search("q", &[member("a", t("fresh", 1), None), member("b", t("fresh", 1), None)], &[Err("x".into()), Ok(vec![])])
        .unwrap();
    assert!(e.contains("- a: error (x)\n[b] no symbol matching `q`."), "{e}");
}

#[test]
fn group_explore_reports_misses() {
    let ms = vec![member("a", t("fresh", 1), None), member("b", t("fresh", 1), None)];
    let s = two()
        .explore("foo", &ms, &[Ok(Explored::Missing { suggestions: vec![] }), Err("bad".into())])
        .unwrap();
    assert!(
        s.ends_with("no symbol named `foo` in any group repo. try `search foo`.\n\nnot found in: a, b (error: bad)"),
        "{s}"
    );
}
