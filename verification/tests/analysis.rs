use codescratch::analysis::{aggregate_conf, entrypoint_processes, CallEdge};
use codescratch::communities::{ids_strictly_sorted, label_propagation_communities, symbol_calls};

fn e(src: &str, dst: &str, conf: &str) -> CallEdge {
    CallEdge { src: src.into(), dst: dst.into(), conf: conf.into() }
}

/// Triangle a-b-c, chain e0 -> e1 -> e2 -> e3 (last edge weak), isolated d.
fn graph() -> (Vec<String>, Vec<CallEdge>) {
    let mut ids: Vec<String> = ["f.ts#a@1", "f.ts#b@2", "f.ts#c@3", "f.ts#d@4", "f.ts#e0@10", "f.ts#e1@11", "f.ts#e2@12", "f.ts#e3@13"]
        .iter()
        .map(|s| s.to_string())
        .collect();
    ids.sort();
    let calls = vec![
        e("f.ts#a@1", "f.ts#b@2", "strong"),
        e("f.ts#b@2", "f.ts#c@3", "strong"),
        e("f.ts#c@3", "f.ts#a@1", "strong"),
        e("f.ts#e0@10", "f.ts#e1@11", "strong"),
        e("f.ts#e1@11", "f.ts#e2@12", "strong"),
        e("f.ts#e2@12", "f.ts#e3@13", "weak"),
    ];
    (ids, calls)
}

#[test]
fn analysis_materializes_community_with_correct_members() {
    let (ids, calls) = graph();
    assert!(ids_strictly_sorted(&ids));
    let calls = symbol_calls(&ids, &calls);
    let cs = label_propagation_communities(&ids, &calls);
    assert_eq!(cs.len(), 1);
    assert_eq!(cs[0].members, vec!["f.ts#a@1".to_string(), "f.ts#b@2".to_string(), "f.ts#c@3".to_string()]);
    assert_eq!(cs[0].members.len(), 3);
    assert_eq!(cs[0].conf, "strong");
    assert_eq!(cs[0].hub, "f.ts#a@1");
}

#[test]
fn analysis_materializes_process_with_ordered_steps() {
    let (ids, calls) = graph();
    let calls = symbol_calls(&ids, &calls);
    let ps = entrypoint_processes(&ids, &calls);
    assert_eq!(ps.len(), 1);
    assert_eq!(ps[0].entrypoint, "f.ts#e0@10");
    assert_eq!(
        ps[0].steps,
        vec!["f.ts#e0@10".to_string(), "f.ts#e1@11".to_string(), "f.ts#e2@12".to_string(), "f.ts#e3@13".to_string()]
    );
    assert_eq!(ps[0].conf, "weak");
}

#[test]
fn analysis_isolated_symbol_is_not_an_entrypoint_or_community_member() {
    let (ids, calls) = graph();
    let calls = symbol_calls(&ids, &calls);
    let cs = label_propagation_communities(&ids, &calls);
    let ps = entrypoint_processes(&ids, &calls);
    assert!(cs.iter().all(|c| !c.members.contains(&"f.ts#d@4".to_string())));
    assert!(ps.iter().all(|p| !p.steps.contains(&"f.ts#d@4".to_string())));
}

#[test]
fn analysis_is_deterministic() {
    let (ids, calls) = graph();
    let calls = symbol_calls(&ids, &calls);
    let a = label_propagation_communities(&ids, &calls);
    let b = label_propagation_communities(&ids, &calls);
    assert_eq!(a.len(), b.len());
    assert_eq!(a[0].members, b[0].members);
    let p = entrypoint_processes(&ids, &calls);
    let q = entrypoint_processes(&ids, &calls);
    assert_eq!(p[0].steps, q[0].steps);
}

#[test]
fn aggregate_conf_never_upgrades_weak() {
    assert_eq!(aggregate_conf(&vec![]), "strong");
    assert_eq!(aggregate_conf(&vec!["strong".into(), "strong".into()]), "strong");
    assert_eq!(aggregate_conf(&vec!["strong".into(), "weak".into()]), "weak");
    assert_eq!(aggregate_conf(&vec!["".into()]), "weak");
}

#[test]
fn calls_outside_the_symbols_are_dropped() {
    let ids = vec!["a".to_string(), "b".to_string()];
    let calls = vec![e("a", "b", "strong"), e("a", "route:/x", "strong"), e("zz", "b", "weak")];
    let kept = symbol_calls(&ids, &calls);
    assert_eq!(kept.len(), 1);
    assert_eq!(kept[0].dst, "b");
    assert!(!ids_strictly_sorted(&["b".to_string(), "a".to_string()]));
    assert!(!ids_strictly_sorted(&["a".to_string(), "a".to_string()]));
}

#[test]
fn process_follows_smallest_unvisited_callee_and_stops_on_cycles() {
    let ids: Vec<String> = ["m", "x", "y", "z"].iter().map(|s| s.to_string()).collect();
    let calls = vec![e("m", "y", "strong"), e("m", "x", "strong"), e("x", "y", "strong"), e("y", "x", "strong"), e("y", "z", "strong")];
    let ps = entrypoint_processes(&ids, &calls);
    assert_eq!(ps.len(), 1);
    assert_eq!(ps[0].steps, vec!["m".to_string(), "x".to_string(), "y".to_string(), "z".to_string()]);
    assert_eq!(ps[0].conf, "strong");
}

#[test]
fn a_path_is_not_a_community() {
    let ids: Vec<String> = ["p", "q", "r", "s"].iter().map(|s| s.to_string()).collect();
    let calls = vec![e("p", "q", "strong"), e("q", "r", "strong"), e("r", "s", "strong")];
    assert!(label_propagation_communities(&ids, &calls).is_empty());
}

#[test]
fn weak_inside_edge_makes_the_community_weak() {
    let ids: Vec<String> = ["a", "b", "c", "d"].iter().map(|s| s.to_string()).collect();
    let calls = vec![
        e("a", "b", "strong"),
        e("b", "c", "weak"),
        e("c", "a", "strong"),
        e("a", "d", "strong"),
        e("d", "b", "strong"),
        e("a", "a", "strong"),
    ];
    let cs = label_propagation_communities(&ids, &calls);
    assert_eq!(cs.len(), 1);
    assert_eq!(cs[0].conf, "weak");
    assert_eq!(cs[0].hub, "a");
}
