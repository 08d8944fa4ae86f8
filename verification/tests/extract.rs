use codescratch::extract::parse::parse_syntax;
use codescratch::model::Lang;
use codescratch::extract::extract;
use codescratch::heuristics::extra_edges;

#[test]
fn extracts_symbols_calls_imports() {
    let src = r#"
import { helper } from "./util";
export function greet(name: string) {
  return helper(name);
}
class Box {
  open() { return greet("x"); }
}
"#;
    let f = extract("src/a.ts", src);
    assert!(
        f.symbols
            .iter()
            .any(|s| s.name == "greet" && s.exported && s.kind == "function"),
        "exported function greet"
    );
    assert!(
        f.symbols.iter().any(|s| s.name == "Box" && s.kind == "class"),
        "class Box"
    );
    assert!(
        f.symbols
            .iter()
            .any(|s| s.qualified_name == "Box.open" && s.kind == "method"),
        "method Box.open"
    );
    assert!(
        f.calls.iter().any(|c| c.name == "helper" && !c.member),
        "call helper"
    );
    assert!(
        f.imports.iter().any(|b| b.local_name == "helper"
            && b.source_module == "./util"
            && b.kind == "named"),
        "named import helper"
    );
}

#[test]
fn arrow_const_is_a_function_symbol() {
    let f = extract(
        "src/a.ts",
        "export const add = (a: number, b: number) => a + b;",
    );
    assert!(f
        .symbols
        .iter()
        .any(|s| s.name == "add" && s.kind == "function" && s.exported));
}

#[test]
fn star_reexport_binding() {
    let f = extract("src/lib/barrel.ts", "export * from \"./math.js\";");
    assert!(
        f.imports
            .iter()
            .any(|b| b.kind == "star-reexport" && b.source_module.contains("math")),
        "star-reexport binding: {:?}",
        f.imports
    );
}

#[test]
fn class_heritage_is_collected_in_the_same_walk() {
    let src = "class Cat extends Animal implements Pet, Named {}";
    let f = extract("src/a.ts", src);
    let cat = f.symbols.iter().find(|s| s.name == "Cat").expect("Cat");
    assert!(
        f.heritage.iter().any(|e| {
            e.src_id == cat.id
                && e.kind == "extends"
                && e.raw_name == "Animal"
                && e.provenance == "ast"
        }),
        "extends Animal: {:?}",
        f.heritage
    );
    assert!(
        f.heritage
            .iter()
            .any(|e| e.kind == "implements" && e.raw_name == "Pet"),
        "implements Pet: {:?}",
        f.heritage
    );
    assert!(
        f.heritage
            .iter()
            .any(|e| e.kind == "implements" && e.raw_name == "Named"),
        "implements Named: {:?}",
        f.heritage
    );
}

#[test]
fn extracts_module_function() {
    let src = r#"
def greet(name):
    return name
"#;
    let f = extract("src/a.py", src);
    assert!(
        f.symbols.iter().any(|s| s.name == "greet"
            && s.kind == "function"
            && s.exported
            && s.qualified_name == "greet"),
        "module-level function greet: {:?}",
        f.symbols
    );
}

#[test]
fn class_and_method_qualified_name() {
    let src = r#"
class Box:
    def open(self):
        return 1
"#;
    let f = extract("src/a.py", src);
    assert!(
        f.symbols.iter().any(|s| s.name == "Box" && s.kind == "class" && s.exported),
        "class Box: {:?}",
        f.symbols
    );
    assert!(
        f.symbols.iter().any(|s| s.qualified_name == "Box.open"
            && s.kind == "method"
            && !s.exported),
        "method Box.open (not exported): {:?}",
        f.symbols
    );
}

#[test]
fn calls_member_and_non_member() {
    let src = r#"
def run():
    helper()
    obj.method()
"#;
    let f = extract("src/a.py", src);
    assert!(
        f.calls.iter().any(|c| c.name == "helper" && !c.member),
        "non-member call helper: {:?}",
        f.calls
    );
    assert!(
        f.calls.iter().any(|c| c.name == "method" && c.member),
        "member call obj.method: {:?}",
        f.calls
    );
}

#[test]
fn from_import_binding() {
    let src = "from pkg.util import helper as h, other\n";
    let f = extract("src/a.py", src);
    assert!(
        f.imports.iter().any(|b| b.local_name == "h"
            && b.imported_name == "helper"
            && b.source_module == "pkg.util"
            && b.kind == "named"),
        "aliased from-import: {:?}",
        f.imports
    );
    assert!(
        f.imports.iter().any(|b| b.local_name == "other"
            && b.imported_name == "other"
            && b.source_module == "pkg.util"
            && b.kind == "named"),
        "plain from-import: {:?}",
        f.imports
    );
}

#[test]
fn plain_import_and_aliased_import() {
    let src = "import os\nimport numpy as np\n";
    let f = extract("src/a.py", src);
    assert!(
        f.imports.iter().any(|b| b.local_name == "os"
            && b.source_module == "os"
            && b.imported_name == "*"
            && b.kind == "namespace"),
        "plain import os: {:?}",
        f.imports
    );
    assert!(
        f.imports.iter().any(|b| b.local_name == "np"
            && b.source_module == "numpy"
            && b.imported_name == "*"
            && b.kind == "namespace"),
        "aliased import numpy as np: {:?}",
        f.imports
    );
}

#[test]
fn event_emit_on_is_heuristic() {
    let src = r#"
export function listen() { bus.on('ready', go); }
export function fire() { bus.emit('ready'); }
export function go() {}
"#;
    let f = extract("src/a.ts", src);
    let edges = extra_edges("src/a.ts", src, &f);
    assert!(
        edges.iter().any(|e| e.kind == "dispatches"
            && e.reason == "event-emit-on"
            && e.provenance == "heuristic"),
        "expected emit/on dispatch: {edges:?}"
    );
}

#[test]
fn setstate_to_render_is_heuristic() {
    let src = r#"
class Box {
  setState(s: unknown) { this.state = s; }
  tick() { this.setState({ n: 1 }); }
  render() { return 1; }
}
"#;
    let f = extract("src/a.ts", src);
    let edges = extra_edges("src/a.ts", src, &f);
    assert!(
        edges
            .iter()
            .any(|e| e.reason == "setState-render" && e.provenance == "heuristic"),
        "expected setState→render: {edges:?}"
    );
}

#[test]
fn symbol_rows_ids_and_signature() {
    let src = "\nexport function greet(name: string) {\n  return name;\n}\n";
    let f = extract("src/a.ts", src);
    let g = f.symbols.iter().find(|s| s.name == "greet").unwrap();
    assert_eq!(g.id, "src/a.ts#greet@2");
    assert_eq!(g.start_line, 2);
    assert_eq!(g.end_line, 4);
    assert_eq!(g.signature, "function greet(name: string)");
}

#[test]
fn python_signature_stops_at_colon() {
    let f = extract("m.py", "def f(a, b):\n    return a\n");
    let s = f.symbols.iter().find(|s| s.name == "f").unwrap();
    assert_eq!(s.signature, "def f(a, b)");
}

#[test]
fn module_level_call_uses_module_id() {
    let f = extract("src/m.ts", "boot();\n");
    assert_eq!(f.calls.len(), 1);
    assert_eq!(f.calls[0].from_id, "src/m.ts#<module>");
    assert_eq!(f.calls[0].line, 1);
}

#[test]
fn unknown_language_has_no_facts() {
    let f = extract("README.md", "# hello");
    assert!(f.symbols.is_empty() && f.calls.is_empty() && f.imports.is_empty());
    assert!(f.extra.is_empty() && f.routes.is_empty());
}

#[test]
fn default_and_namespace_imports_and_named_reexport() {
    let src = "import React, * as NS from 'react';\nexport { a as b } from \"./x\";\n";
    let f = extract("src/a.ts", src);
    assert!(f.imports.iter().any(|b| b.local_name == "React" && b.kind == "default" && b.imported_name == "default"));
    assert!(f.imports.iter().any(|b| b.local_name == "NS" && b.kind == "namespace" && b.imported_name == "*"));
    assert!(f.imports.iter().any(|b| b.local_name == "b" && b.imported_name == "a" && b.kind == "named-reexport" && b.source_module == "./x"));
    assert!(!f.imports.iter().any(|b| b.kind == "star-reexport"));
}

#[test]
fn nested_function_encloses_its_calls() {
    let src = "function outer() { inner(); }\n";
    let f = extract("src/a.ts", src);
    assert_eq!(f.calls.len(), 1);
    assert_eq!(f.calls[0].from_id, "src/a.ts#outer@1");
}

#[test]
fn syntax_tree_is_one_rooted_tree() {
    let src = "function a() { return b(1); }\nclass C extends D {}\n";
    let t = parse_syntax(Lang::Ts, src).unwrap();
    assert!(!t.nodes.is_empty());
    assert_eq!(t.nodes[0].kind, "program");
    assert!(t.nodes[0].parent.is_none());
    assert!(t.nodes[0].field.is_none());
    for (i, n) in t.nodes.iter().enumerate().skip(1) {
        let p = n.parent.expect("every node but the root has a parent");
        assert!(p < i);
        assert!(t.nodes[p].children.contains(&i));
    }
    for (i, n) in t.nodes.iter().enumerate() {
        for &c in &n.children {
            assert_eq!(t.nodes[c].parent, Some(i));
        }
    }
}

#[test]
fn parse_syntax_keeps_node_text_and_rows() {
    let src = "def f(x):\n    return g(x)\n";
    let t = parse_syntax(Lang::Py, src).unwrap();
    assert_eq!(t.nodes[0].kind, "module");
    assert_eq!(t.nodes[0].text, src);
    let call = t.nodes.iter().find(|n| n.kind == "call").unwrap();
    assert_eq!(call.text, "g(x)");
    assert_eq!((call.start_row, call.end_row), (1, 1));
    let name = t.nodes.iter().find(|n| n.field.as_deref() == Some("name")).unwrap();
    assert_eq!(name.text, "f");
}
