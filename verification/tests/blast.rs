use codescratch::blast::{from_ids, CallRow, MAX_DEPTH};
use codescratch::model::NodeRow;

fn node(id: &str, file: &str, line: i64) -> NodeRow {
    NodeRow {
        id: id.into(),
        kind: "function".into(),
        name: id.into(),
        qualified_name: id.into(),
        file_path: file.into(),
        start_line: line,
        end_line: line,
        exported: true,
        signature: String::new(),
    }
}

fn call(src: &str, dst: &str, file: &str, line: i64, conf: &str, reason: &str) -> CallRow {
    CallRow {
        src_id: src.into(),
        dst_id: dst.into(),
        file_path: file.into(),
        line,
        conf: conf.into(),
        reason: reason.into(),
    }
}

/// C calls B calls A.
fn chain() -> (Vec<NodeRow>, Vec<CallRow>) {
    (
        vec![node("a", "a.ts", 1), node("b", "b.ts", 2), node("c", "c.ts", 3)],
        vec![
            call("b", "a", "b.ts", 10, "strong", "same-file"),
            call("c", "b", "c.ts", 20, "weak", "unique-global"),
        ],
    )
}

#[test]
fn seeds_are_excluded_and_depths_count_hops() {
    let (nodes, rows) = chain();
    let hops = from_ids(&rows, &nodes, &["a"], 4);
    assert_eq!(hops.len(), 2, "{hops:?}");
    assert_eq!(hops[0].src_id, "b");
    assert_eq!(hops[0].depth, 1);
    assert_eq!(hops[0].line, 10);
    assert_eq!(hops[0].reason, "same-file");
    assert_eq!(hops[1].src_id, "c");
    assert_eq!(hops[1].depth, 2);
    assert_eq!(hops[1].conf, "weak");
}

#[test]
fn max_depth_stops_the_walk() {
    let (nodes, rows) = chain();
    let hops = from_ids(&rows, &nodes, &["a"], 1);
    assert_eq!(hops.len(), 1);
    assert_eq!(hops[0].src_id, "b");
}

#[test]
fn diamond_first_visit_wins() {
    let nodes = vec![node("a", "a.ts", 1), node("b", "b.ts", 2), node("c", "c.ts", 3), node("d", "d.ts", 4)];
    let rows = vec![
        call("b", "a", "b.ts", 1, "strong", "same-file"),
        call("c", "a", "c.ts", 1, "strong", "same-file"),
        call("d", "b", "d.ts", 1, "strong", "same-file"),
        call("d", "c", "d.ts", 2, "strong", "same-file"),
    ];
    let hops = from_ids(&rows, &nodes, &["a"], 4);
    let d_hits: Vec<_> = hops.iter().filter(|h| h.src_id == "d").collect();
    assert_eq!(d_hits.len(), 1, "diamond must not emit d twice: {hops:?}");
    assert_eq!(d_hits[0].depth, 2);
    assert_eq!(d_hits[0].line, 1);
}

#[test]
fn missing_node_still_emits_a_hop() {
    let nodes = vec![node("a", "a.ts", 1)];
    let rows = vec![call("ghost", "a", "mod.ts", 4, "weak", "unresolved")];
    let hops = from_ids(&rows, &nodes, &["a"], 4);
    assert_eq!(hops.len(), 1);
    assert!(hops[0].node.is_none());
    assert_eq!(hops[0].src_id, "ghost");
    assert_eq!(hops[0].file_path, "mod.ts");
    assert_eq!(hops[0].line, 4);
}

#[test]
fn empty_seeds_or_no_callers_is_empty() {
    let nodes = vec![node("a", "a.ts", 1)];
    assert!(from_ids(&[], &nodes, &["a"], 4).is_empty());
    assert!(from_ids(&[], &nodes, &[], 4).is_empty());
}

#[test]
fn cycle_back_to_a_seed_is_not_reported() {
    let nodes = vec![node("a", "a.ts", 1), node("b", "b.ts", 2)];
    let rows = vec![call("b", "a", "b.ts", 1, "strong", "same-file"), call("a", "b", "a.ts", 2, "strong", "same-file")];
    let hops = from_ids(&rows, &nodes, &["a"], MAX_DEPTH);
    assert_eq!(hops.len(), 1);
    assert_eq!(hops[0].src_id, "b");
    assert_eq!(hops[0].node.as_ref().map(|n| n.file_path.as_str()), Some("b.ts"));
    assert!(from_ids(&rows, &nodes, &["a"], 0).is_empty());
}
