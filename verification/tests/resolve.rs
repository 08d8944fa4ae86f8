use codescratch::model::{Edge, ImportBinding, Lang, RawCall, Symbol};
use codescratch::module::{self, ResolveConfig};
use codescratch::resolve::{resolve, resolve_with, resolve_with_heritage};

fn sym(id: &str, name: &str, file: &str, kind: &str, exported: bool) -> Symbol {
    Symbol {
        id: id.into(),
        kind: kind.into(),
        name: name.into(),
        qualified_name: name.into(),
        file_path: file.into(),
        start_line: 1,
        end_line: 2,
        exported,
        signature: String::new(),
    }
}

fn call(from: &str, name: &str, member: bool, file: &str) -> RawCall {
    RawCall { from_id: from.into(), name: name.into(), member, line: 1, file_path: file.into() }
}

fn call_edge(edges: &[Edge]) -> &Edge {
    edges.iter().find(|e| e.kind == "calls").expect("a call edge")
}

fn files_of(names: &[&str]) -> Vec<String> {
    names.iter().map(|s| s.to_string()).collect()
}

#[test]
fn same_file_beats_global() {
    let syms = vec![
        sym("a.ts#foo@1", "foo", "a.ts", "function", false),
        sym("a.ts#c@1", "c", "a.ts", "function", false),
    ];
    let calls = vec![call("a.ts#c@1", "foo", false, "a.ts")];
    let e = &resolve(&syms, &calls, &[], &Vec::new())[..];
    let e = call_edge(e);
    assert_eq!(e.reason, "same-file");
    assert_eq!(e.conf, "strong");
    assert_eq!(e.dst_id.as_deref(), Some("a.ts#foo@1"));
}

#[test]
fn import_binding_resolves_cross_file() {
    let syms = vec![
        sym("util.ts#helper@1", "helper", "util.ts", "function", true),
        sym("a.ts#c@1", "c", "a.ts", "function", false),
    ];
    let calls = vec![call("a.ts#c@1", "helper", false, "a.ts")];
    let binds = vec![ImportBinding {
        file_path: "a.ts".into(),
        local_name: "helper".into(),
        source_module: "./util".into(),
        imported_name: "helper".into(),
        kind: "named".into(),
    }];
    let files = files_of(&["util.ts", "a.ts"]);
    let edges = resolve(&syms, &calls, &binds, &files);
    let e = call_edge(&edges);
    assert_eq!(e.reason, "import-binding");
    assert_eq!(e.conf, "strong");
    assert_eq!(e.dst_id.as_deref(), Some("util.ts#helper@1"));
}

#[test]
fn receiver_unknown_is_weak() {
    let syms = vec![
        sym("a.ts#save@1", "save", "a.ts", "method", false),
        sym("a.ts#c@1", "c", "a.ts", "function", false),
    ];
    let calls = vec![call("a.ts#c@1", "save", true, "a.ts")];
    let edges = resolve(&syms, &calls, &[], &Vec::new());
    let e = call_edge(&edges);
    assert_eq!(e.reason, "receiver-unknown");
    assert_eq!(e.conf, "weak");
}

#[test]
fn unresolved_stays_open_never_faked() {
    let syms = vec![sym("a.ts#c@1", "c", "a.ts", "function", false)];
    let calls = vec![call("a.ts#c@1", "mystery", false, "a.ts")];
    let edges = resolve(&syms, &calls, &[], &Vec::new());
    let e = call_edge(&edges);
    assert_eq!(e.reason, "unresolved");
    assert!(!e.resolved);
}

#[test]
fn contains_edge_links_class_to_method() {
    let syms = vec![
        sym("a.ts#Box@1", "Box", "a.ts", "class", true),
        Symbol { qualified_name: "Box.open".into(), ..sym("a.ts#open@2", "open", "a.ts", "method", false) },
    ];
    let edges = resolve(&syms, &[], &[], &Vec::new());
    assert!(edges.iter().any(|e| e.kind == "contains"
        && e.src_id == "a.ts#Box@1"
        && e.dst_id.as_deref() == Some("a.ts#open@2")));
}

#[test]
fn relative_resolution_finds_index() {
    let files = files_of(&["src/util/index.ts"]);
    assert_eq!(
        module::resolve_relative("src/a.ts", "./util", &files).as_deref(),
        Some("src/util/index.ts")
    );
}

#[test]
fn normalize_collapses_dotdot() {
    assert_eq!(module::normalize("src/foo/../bar"), "src/bar");
}

#[test]
fn js_specifier_remaps_to_ts() {
    let files = files_of(&["src/lib/math.ts"]);
    assert_eq!(
        module::resolve_relative("src/a.ts", "./lib/math.js", &files).as_deref(),
        Some("src/lib/math.ts")
    );
}

#[test]
fn alias_path_resolves() {
    let mut cfg = ResolveConfig::default();
    cfg.set_path("@/*".into(), vec!["src/*".into()]);
    let files = files_of(&["src/lib/math.ts", "src/a.ts"]);
    assert_eq!(
        module::resolve_module("src/a.ts", "@/lib/math.js", &files, &cfg).as_deref(),
        Some("src/lib/math.ts")
    );
}

#[test]
fn workspace_pkg_resolves_src_index() {
    let mut cfg = ResolveConfig::default();
    cfg.set_workspace_pkg("@medium/core".into(), "packages/core".into());
    let files = files_of(&["packages/core/src/index.ts"]);
    assert_eq!(
        module::resolve_module("src/a.ts", "@medium/core", &files, &cfg).as_deref(),
        Some("packages/core/src/index.ts")
    );
}

#[test]
fn star_reexport_barrel_follows_to_source() {
    let files = files_of(&["src/lib/math.ts", "src/lib/barrel.ts", "src/a.ts"]);
    let syms = vec![
        sym("src/lib/math.ts#add@1", "add", "src/lib/math.ts", "function", true),
        sym("src/a.ts#c@1", "c", "src/a.ts", "function", false),
    ];
    let calls = vec![call("src/a.ts#c@1", "plus", false, "src/a.ts")];
    let binds = vec![
        ImportBinding {
            file_path: "src/lib/barrel.ts".into(),
            local_name: "*".into(),
            source_module: "./math.js".into(),
            imported_name: "*".into(),
            kind: "star-reexport".into(),
        },
        ImportBinding {
            file_path: "src/a.ts".into(),
            local_name: "plus".into(),
            source_module: "./lib/barrel.js".into(),
            imported_name: "add".into(),
            kind: "named".into(),
        },
    ];
    let edges = resolve(&syms, &calls, &binds, &files);
    let e = call_edge(&edges);
    assert_eq!(e.reason, "import-binding");
    assert_eq!(e.conf, "strong");
    assert_eq!(e.dst_id.as_deref(), Some("src/lib/math.ts#add@1"));
}

#[test]
fn alias_import_binding_is_strong() {
    let mut cfg = ResolveConfig::default();
    cfg.set_path("@/*".into(), vec!["src/*".into()]);
    let files = files_of(&["src/lib/math.ts", "src/a.ts"]);
    let syms = vec![
        sym("src/lib/math.ts#add@1", "add", "src/lib/math.ts", "function", true),
        sym("src/a.ts#c@1", "c", "src/a.ts", "function", false),
    ];
    let calls = vec![call("src/a.ts#c@1", "sum", false, "src/a.ts")];
    let binds = vec![ImportBinding {
        file_path: "src/a.ts".into(),
        local_name: "sum".into(),
        source_module: "@/lib/math.js".into(),
        imported_name: "add".into(),
        kind: "named".into(),
    }];
    let edges = resolve_with(&syms, &calls, &binds, &files, &cfg);
    let e = call_edge(&edges);
    assert_eq!(e.reason, "import-binding");
    assert_eq!(e.dst_id.as_deref(), Some("src/lib/math.ts#add@1"));
}

fn heritage(src: &str, raw: &str, file: &str) -> Edge {
    Edge {
        src_id: src.into(),
        dst_id: None,
        kind: "extends".into(),
        raw_name: raw.into(),
        resolved: false,
        conf: "weak".into(),
        reason: "unresolved".into(),
        provenance: "ast".into(),
        file_path: file.into(),
        line: 1,
    }
}

fn heritage_edge(edges: &[Edge]) -> &Edge {
    edges.iter().find(|e| e.kind == "extends").expect("an extends edge")
}

#[test]
fn heritage_unique_global_beats_same_file_when_unique() {
    let files = files_of(&["a.ts"]);
    let edges = resolve_with_heritage(
        &[sym("a.ts#Animal@1", "Animal", "a.ts", "class", true)],
        &[],
        &[],
        &[heritage("a.ts#Cat@1", "Animal", "a.ts")],
        &files,
        &ResolveConfig::default(),
    );
    let e = heritage_edge(&edges);
    assert_eq!(e.reason, "unique-global");
    assert_eq!(e.conf, "weak");
    assert_eq!(e.dst_id.as_deref(), Some("a.ts#Animal@1"));
}

#[test]
fn heritage_same_file_when_name_is_not_unique() {
    let files = files_of(&["a.ts", "b.ts"]);
    let edges = resolve_with_heritage(
        &[
            sym("a.ts#Animal@1", "Animal", "a.ts", "class", true),
            sym("b.ts#Animal@1", "Animal", "b.ts", "class", true),
        ],
        &[],
        &[],
        &[heritage("a.ts#Cat@1", "Animal", "a.ts")],
        &files,
        &ResolveConfig::default(),
    );
    let e = heritage_edge(&edges);
    assert_eq!(e.reason, "same-file");
    assert_eq!(e.conf, "strong");
    assert_eq!(e.dst_id.as_deref(), Some("a.ts#Animal@1"));
}

#[test]
fn heritage_import_binding_beats_unique_global() {
    let files = files_of(&["a.ts", "lib.ts"]);
    let binds = vec![ImportBinding {
        file_path: "a.ts".into(),
        local_name: "Animal".into(),
        source_module: "./lib".into(),
        imported_name: "Animal".into(),
        kind: "named".into(),
    }];
    let edges = resolve_with_heritage(
        &[sym("lib.ts#Animal@1", "Animal", "lib.ts", "class", true)],
        &[],
        &binds,
        &[heritage("a.ts#Cat@1", "Animal", "a.ts")],
        &files,
        &ResolveConfig::default(),
    );
    let e = heritage_edge(&edges);
    assert_eq!(e.reason, "import-binding");
    assert_eq!(e.conf, "strong");
    assert_eq!(e.dst_id.as_deref(), Some("lib.ts#Animal@1"));
}

#[test]
fn unique_global_and_external_import_labels() {
    let syms = vec![
        sym("b.ts#only@1", "only", "b.ts", "function", true),
        sym("a.ts#c@1", "c", "a.ts", "function", false),
    ];
    let calls = vec![call("a.ts#c@1", "only", false, "a.ts"), call("a.ts#c@1", "get", false, "a.ts")];
    let binds = vec![ImportBinding {
        file_path: "a.ts".into(),
        local_name: "get".into(),
        source_module: "lodash".into(),
        imported_name: "get".into(),
        kind: "named".into(),
    }];
    let edges = resolve(&syms, &calls, &binds, &files_of(&["a.ts", "b.ts"]));
    let cs: Vec<&Edge> = edges.iter().filter(|e| e.kind == "calls").collect();
    assert_eq!(cs.len(), 2);
    assert_eq!(cs[0].reason, "unique-global");
    assert_eq!(cs[0].conf, "weak");
    assert_eq!(cs[1].reason, "external-import");
    assert!(!cs[1].resolved);
}

use codescratch::module::strip_jsonc;

#[test]
fn strip_jsonc_removes_block_and_line_comments() {
    let raw = "{\n  /* a\n  b */ \"x\": 1, // trailing\n  \"y\": \"http://z\"\n}\n";
    assert_eq!(strip_jsonc(raw), "{\n    \"x\": 1, \n  \"y\": \"http:\n}");
    assert_eq!(strip_jsonc("a /* open"), "a /* open");
}

#[test]
fn compiler_options_trim_base_url_and_set_aliases() {
    let mut cfg = ResolveConfig::default();
    cfg.apply_compiler_options(Some("src//"), vec![("@/*".to_string(), vec!["src/*".to_string()]), ("@/*".to_string(), vec!["lib/*".to_string()])]);
    assert_eq!(cfg.base_url.as_deref(), Some("src"));
    assert_eq!(cfg.tsconfig_paths, vec![("@/*".to_string(), vec!["lib/*".to_string()])]);
}

#[test]
fn normalize_twice_is_normalize_once_and_leaves_clean_segments() {
    for p in ["src/./a/../b//c.ts", "../x", "./", "a/b/../../..", "/abs/./p"] {
        let once = module::normalize(p);
        assert_eq!(module::normalize(&once), once);
        if !once.is_empty() {
            assert!(once.split('/').all(|s| !s.is_empty() && s != "." && s != ".."), "{once}");
        }
    }
}

#[test]
fn extension_of_each_language_maps_back() {
    for l in [Lang::Ts, Lang::Tsx, Lang::Js, Lang::Py] {
        assert_eq!(Lang::from_path(&format!("f.{}", l.as_str())), Some(l));
    }
}
