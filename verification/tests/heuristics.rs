use codescratch::heuristics::{enclosing_at, extra_edges, extract_event_arg};
use codescratch::model::{FileFacts, RawCall, Symbol};

fn sym(id: &str, name: &str, kind: &str, start: usize, end: usize) -> Symbol {
    Symbol {
        id: id.into(),
        kind: kind.into(),
        name: name.into(),
        qualified_name: name.into(),
        file_path: "src/a.ts".into(),
        start_line: start,
        end_line: end,
        exported: true,
        signature: String::new(),
    }
}

fn call(from: &str, name: &str, member: bool, line: usize) -> RawCall {
    RawCall { from_id: from.into(), name: name.into(), member, line, file_path: "src/a.ts".into() }
}

#[test]
fn event_emit_on_from_given_facts() {
    let src = "\nexport function listen() { bus.on('ready', go); }\nexport function fire() { bus.emit('ready'); }\nexport function go() {}\n";
    let mut f = FileFacts::default();
    f.symbols = vec![
        sym("src/a.ts#listen@2", "listen", "function", 2, 2),
        sym("src/a.ts#fire@3", "fire", "function", 3, 3),
        sym("src/a.ts#go@4", "go", "function", 4, 4),
    ];
    f.calls = vec![call("src/a.ts#listen@2", "on", true, 2), call("src/a.ts#fire@3", "emit", true, 3)];
    let edges = extra_edges("src/a.ts", src, &f);
    assert_eq!(edges.len(), 1, "{edges:?}");
    let e = &edges[0];
    assert_eq!(e.kind, "dispatches");
    assert_eq!(e.reason, "event-emit-on");
    assert_eq!(e.provenance, "heuristic");
    assert_eq!(e.src_id, "src/a.ts#fire@3");
    assert_eq!(e.raw_name, "emit:ready");
    assert_eq!(e.dst_id, None);
    assert!(!e.resolved);
    assert_eq!(e.line, 3);
}

#[test]
fn setstate_to_render_from_given_facts() {
    let src = "class Box {\n  setState(s) {}\n  tick() { this.setState({ n: 1 }); }\n  render() { return 1; }\n}\n";
    let mut f = FileFacts::default();
    f.symbols = vec![
        sym("src/a.ts#Box@1", "Box", "class", 1, 5),
        sym("src/a.ts#setState@2", "setState", "method", 2, 2),
        sym("src/a.ts#tick@3", "tick", "method", 3, 3),
        sym("src/a.ts#render@4", "render", "method", 4, 4),
    ];
    f.calls = vec![call("src/a.ts#tick@3", "setState", true, 3), call("src/a.ts#tick@3", "set", true, 3)];
    let edges = extra_edges("src/a.ts", src, &f);
    assert_eq!(edges.len(), 1, "{edges:?}");
    assert_eq!(edges[0].reason, "setState-render");
    assert_eq!(edges[0].provenance, "heuristic");
    assert_eq!(edges[0].dst_id.as_deref(), Some("src/a.ts#render@4"));
}

#[test]
fn callback_arg_needs_a_local_callee_other_than_the_caller() {
    let mut f = FileFacts::default();
    f.symbols = vec![sym("src/a.ts#run@1", "run", "function", 1, 3), sym("src/a.ts#cb@5", "cb", "function", 5, 5)];
    f.calls = vec![
        call("src/a.ts#run@1", "cb", false, 2),
        call("src/a.ts#cb@5", "cb", false, 5),
        call("src/a.ts#run@1", "cb", true, 2),
        call("src/a.ts#run@1", "other", false, 2),
    ];
    let edges = extra_edges("src/a.ts", "", &f);
    assert_eq!(edges.len(), 1, "{edges:?}");
    assert_eq!(edges[0].reason, "callback-arg");
    assert_eq!(edges[0].src_id, "src/a.ts#run@1");
    assert_eq!(edges[0].dst_id.as_deref(), Some("src/a.ts#cb@5"));
    assert!(edges[0].resolved);
    assert_eq!(edges[0].conf, "weak");
}

#[test]
fn event_arg_and_enclosing_symbol() {
    let l: Vec<char> = "x.on(  \"go\", f)".chars().collect();
    assert_eq!(extract_event_arg(&l, ".on(").map(|v| v.into_iter().collect::<String>()), Some("go".to_string()));
    let l2: Vec<char> = "x.on('', f)".chars().collect();
    assert_eq!(extract_event_arg(&l2, ".on("), None);
    let l3: Vec<char> = "x.on(name)".chars().collect();
    assert_eq!(extract_event_arg(&l3, ".on("), None);
    let mut f = FileFacts::default();
    f.symbols = vec![sym("o", "o", "class", 1, 10), sym("i", "i", "method", 3, 5), sym("j", "j", "method", 3, 4)];
    assert_eq!(enclosing_at(&f, "src/a.ts", 4), "j");
    assert_eq!(enclosing_at(&f, "src/a.ts", 7), "o");
    assert_eq!(enclosing_at(&f, "src/a.ts", 11), "src/a.ts#<module>");
}
