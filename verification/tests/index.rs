use codescratch::index::{build_graph, is_dirty, route_label, route_node_id, scan_file, Scanned};
use codescratch::model::{Lang, RouteFact};
use codescratch::module::ResolveConfig;
use codescratch::walk::Entry;

fn scan(rel: &str, src: &str) -> Scanned {
    scan_file(rel, src.to_string(), 1, src.len() as i64, Lang::Ts)
}

fn entry(rel: &str, mtime: i64, size: i64) -> Entry {
    Entry { rel: rel.to_string(), abs: format!("/r/{rel}"), mtime_ms: mtime, size, lang: Lang::Ts }
}

#[test]
fn scan_hashes_the_text_with_blake3() {
    let s = scan_file("a.ts", String::new(), 7, 0, Lang::Ts);
    assert_eq!(s.hash, "af1349b9f5f9a1a6a0404dea36dcc9499bcb25c9adc112b7cc9a93cae41f3262");
    assert_eq!(s.hash.len(), 64);
    assert_eq!(s.path, "a.ts");
    assert_eq!(s.language, "ts");
    assert_eq!(s.mtime_ms, 7);
    let t = scan_file("a.ts", "x".to_string(), 7, 1, Lang::Ts);
    assert_ne!(t.hash, s.hash);
    assert_ne!(t.hash, "x");
}

#[test]
fn graph_resolves_across_files_and_keeps_scan_order() {
    let a = scan("src/a.ts", "export function helper() { return 1; }\n");
    let b = scan("src/b.ts", "import { helper } from \"./a\";\nexport function main() { helper(); }\n");
    let g = build_graph(&[a, b], &ResolveConfig::default());
    let names: Vec<&str> = g.symbols.iter().map(|s| s.name.as_str()).collect();
    assert_eq!(names, vec!["helper", "main"]);
    assert_eq!(g.bindings.len(), 1);
    let call = g.edges.iter().find(|e| e.kind == "calls").unwrap();
    assert_eq!(call.src_id, "src/b.ts#main@2");
    assert_eq!(call.dst_id.as_deref(), Some("src/a.ts#helper@1"));
    assert_eq!(call.reason, "import-binding");
    assert_eq!(call.conf, "strong");
}

#[test]
fn graph_points_routes_at_their_handler_symbol() {
    let src = "function listUsers(req, res) { res.send(1); }\napp.get('/users', listUsers);\n";
    let a = scan("src/app.ts", src);
    let g = build_graph(&[a], &ResolveConfig::default());
    assert_eq!(g.routes.len(), 1);
    assert_eq!(g.routes[0].method, "GET");
    assert_eq!(g.routes[0].handler_id, "src/app.ts#listUsers@1");
}

#[test]
fn graph_appends_heuristic_edges_after_resolved_ones() {
    let src = "\nexport function listen() { bus.on('ready', go); }\nexport function fire() { bus.emit('ready'); }\nexport function go() {}\n";
    let a = scan("src/a.ts", src);
    let g = build_graph(&[a], &ResolveConfig::default());
    let last = g.edges.last().unwrap();
    assert_eq!(last.provenance, "heuristic");
    assert_eq!(last.reason, "event-emit-on");
}

#[test]
fn route_rows() {
    let r = RouteFact {
        method: "GET".into(),
        path: "/users".into(),
        handler_id: "h".into(),
        file_path: "src/app.ts".into(),
        line: 3,
    };
    assert_eq!(route_node_id(&r), "src/app.ts#route:GET:/users");
    assert_eq!(route_label(&r), "GET /users");
}

#[test]
fn dirty_gate_matches_stat() {
    let ents = vec![entry("a.ts", 1, 10), entry("b.ts", 2, 20)];
    let db = vec![("a.ts".to_string(), 1i64, 10i64), ("b.ts".to_string(), 2, 20)];
    assert!(!is_dirty(&db, &ents));
    let changed = vec![entry("a.ts", 1, 11), entry("b.ts", 2, 20)];
    assert!(is_dirty(&db, &changed));
    let added = vec![entry("a.ts", 1, 10), entry("b.ts", 2, 20), entry("c.ts", 3, 30)];
    assert!(is_dirty(&db, &added));
    let removed = vec![entry("a.ts", 1, 10)];
    assert!(is_dirty(&db, &removed));
    assert!(!is_dirty(&[], &[]));
}
