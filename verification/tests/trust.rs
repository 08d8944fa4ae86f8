use codescratch::trust::{
    banner, banner_group, compute_from, freshness, merge, missing, render_group, repo_label,
    resolve_label, trust_rank, Trust,
};

fn t(trust: &str, coverage: &str, resolve: &str) -> Trust {
    Trust {
        trust: trust.into(),
        coverage: coverage.into(),
        resolve: resolve.into(),
        files: 1,
        nodes: 2,
        edges: 3,
    }
}

#[test]
fn merge_takes_worst_axis_and_sums_counts() {
    let m = merge(&[t("fresh", "exhaustive", "ok"), t("stale", "sampled", "partial")]);
    assert_eq!(m.trust, "stale");
    assert_eq!(m.coverage, "sampled");
    assert_eq!(m.resolve, "partial");
    assert_eq!((m.files, m.nodes, m.edges), (2, 4, 6));
}

#[test]
fn merge_ranks_missing_worst_and_empty_is_missing() {
    let m = merge(&[t("rebuilding", "exhaustive", "ok"), t("missing", "exhaustive", "ok")]);
    assert_eq!(m.trust, "missing");
    assert_eq!(merge(&[]).trust, "missing");
}

#[test]
fn group_banner_shows_repo_count() {
    let b = banner_group(&t("fresh", "exhaustive", "ok"), 3);
    assert!(b.contains("[group: 3 repos]"), "{b}");
}

#[test]
fn omitting_an_unreadable_member_would_hide_it_so_missing_must_be_merged() {
    let fresh = [t("fresh", "exhaustive", "ok"), t("fresh", "exhaustive", "ok")];
    assert_eq!(merge(&fresh).trust, "fresh");
    let with_dead = [t("fresh", "exhaustive", "ok"), missing()];
    assert_eq!(merge(&with_dead).trust, "missing");
}

#[test]
fn render_group_puts_banner_then_body() {
    let out = render_group(&[t("fresh", "exhaustive", "ok")], 2, "- a\n- b\n");
    assert!(out.starts_with("trust: fresh"), "{out}");
    assert!(out.contains("[group: 2 repos]"), "{out}");
    assert!(out.contains("- a\n- b"), "{out}");
}

#[test]
fn banner_exact_text() {
    let mut x = t("fresh", "exhaustive", "ok");
    x.files = 12;
    x.nodes = -3;
    x.edges = 0;
    assert_eq!(
        banner(&x),
        "trust: fresh · coverage: exhaustive · resolve: ok  (12 files, -3 symbols, 0 edges)"
    );
}

#[test]
fn render_group_with_empty_body_is_only_the_banner() {
    let out = render_group(&[t("stale", "exhaustive", "ok")], 1, "");
    assert_eq!(
        out,
        "trust: stale · coverage: exhaustive · resolve: ok  (1 files, 2 symbols, 3 edges)  [group: 1 repos]"
    );
    let out2 = render_group(&[], 0, "body \n\n");
    assert!(out2.starts_with("trust: missing"), "{out2}");
    assert!(out2.ends_with("[group: 0 repos]\n\nbody"), "{out2}");
}

#[test]
fn equal_rank_keeps_the_last_member() {
    let m = merge(&[t("gone", "exhaustive", "ok"), t("missing", "exhaustive", "ok")]);
    assert_eq!(m.trust, "missing");
    let m2 = merge(&[t("missing", "exhaustive", "ok"), t("gone", "exhaustive", "ok")]);
    assert_eq!(m2.trust, "gone");
    assert_eq!(trust_rank("gone"), 3);
    assert_eq!(trust_rank("fresh"), 0);
}

#[test]
fn freshness_axis_cases() {
    assert_eq!(freshness(0, "rebuilding", Some("a"), Some("a")), "missing");
    assert_eq!(freshness(3, "rebuilding", Some("a"), Some("a")), "rebuilding");
    assert_eq!(freshness(3, "", Some("a"), Some("b")), "stale");
    assert_eq!(freshness(3, "", Some("a"), Some("a")), "fresh");
    assert_eq!(freshness(3, "", None, Some("a")), "stale");
    assert_eq!(freshness(3, "", Some("a"), None), "fresh");
    assert_eq!(freshness(3, "", None, None), "fresh");
}

#[test]
fn resolve_axis_counts() {
    // two in-repo edges, both bound; honest labels are not counted
    assert_eq!(resolve_label(2, 2), "ok");
    // two unresolved in-repo calls and one bound one
    assert_eq!(resolve_label(3, 1), "partial");
    assert_eq!(resolve_label(0, 0), "ok");
    assert_eq!(resolve_label(5, 3), "ok");
    assert_eq!(resolve_label(5, 2), "partial");
}

#[test]
fn compute_from_assembles_axes() {
    let x = compute_from(4, 5, 6, "", Some("h"), Some("h"), None, 10, 9);
    assert_eq!(x.trust, "fresh");
    assert_eq!(x.coverage, "exhaustive");
    assert_eq!(x.resolve, "ok");
    assert_eq!((x.files, x.nodes, x.edges), (4, 5, 6));
    let y = compute_from(4, 5, 6, "", Some("h"), Some("g"), Some("sampled"), 10, 1);
    assert_eq!(y.trust, "stale");
    assert_eq!(y.coverage, "sampled");
    assert_eq!(y.resolve, "partial");
}

#[test]
fn repo_label_is_the_directory_name() {
    assert_eq!(repo_label("/home/me/proj"), "proj");
    assert_eq!(repo_label("/home/me/proj/"), "proj");
    assert_eq!(repo_label("/home/me/proj/."), "proj");
    assert_eq!(repo_label("/home/me/.."), "/home/me/..");
    assert_eq!(repo_label("/"), "/");
    assert_eq!(repo_label("rel"), "rel");
}
