use codescratch::mcp::{error_text, listed, method_of, tool_of, unknown_tool_text, Method, Tool};

#[test]
fn default_tools_are_explore_and_status() {
    assert_eq!(listed(None), vec!["explore".to_string(), "status".to_string()]);
    assert_eq!(listed(Some("")), vec!["explore".to_string(), "status".to_string()]);
}

#[test]
fn search_is_listed_only_when_asked_for() {
    assert_eq!(
        listed(Some("foo, search ,bar")),
        vec!["explore".to_string(), "status".to_string(), "search".to_string()]
    );
    assert_eq!(listed(Some("explore,status")), vec!["explore".to_string(), "status".to_string()]);
    assert_eq!(listed(Some("searching")), vec!["explore".to_string(), "status".to_string()]);
}

#[test]
fn methods_and_tools_are_recognised() {
    assert_eq!(method_of("initialize"), Method::Initialize);
    assert_eq!(method_of("tools/list"), Method::ToolsList);
    assert_eq!(method_of("tools/call"), Method::ToolsCall);
    assert_eq!(method_of("ping"), Method::Ping);
    assert_eq!(method_of("resources/list"), Method::NotFound);
    assert_eq!(tool_of("explore"), Tool::Explore);
    assert_eq!(tool_of("status"), Tool::Status);
    assert_eq!(tool_of("search"), Tool::Search);
    assert_eq!(tool_of("nope"), Tool::Unknown("nope".to_string()));
}

#[test]
fn reply_texts() {
    assert_eq!(unknown_tool_text("nope"), "unknown tool `nope`");
    assert_eq!(error_text("boom"), "error: boom");
}
