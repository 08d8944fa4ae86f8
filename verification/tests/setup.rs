use codescratch::setup::{mcp_candidates, skill_destinations, SKILL_MD};

#[test]
fn include_skill_is_nonempty() {
    assert!(SKILL_MD.contains("codescratch explore"));
}

#[test]
fn skill_goes_under_each_harness() {
    let d = skill_destinations("/home/u");
    assert_eq!(d[0], ("/home/u/.pi/agent".to_string(), "/home/u/.pi/agent/skills/codescratch".to_string()));
    assert_eq!(d.len(), 1);
}

#[test]
fn mcp_candidates_cover_user_repo_codex_and_children() {
    let v = mcp_candidates("/h", "/r", Some("/cx"), &["/r/app".to_string()]);
    assert_eq!(
        v,
        vec![
            "/h/.cursor/mcp.json",
            "/h/.opencode/mcp.json",
            "/h/.pi/agent/mcp.json",
            "/h/.config/mcp/mcp.json",
            "/r/.mcp.json",
            "/r/.pi/mcp.json",
            "/r/.codex/mcp.json",
            "/cx/mcp.json",
            "/r/app/.pi/mcp.json",
            "/r/app/.mcp.json",
        ]
    );
    assert_eq!(mcp_candidates("/h", "/r", None, &[]).len(), 7);
}
