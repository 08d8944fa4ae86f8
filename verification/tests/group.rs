use codescratch::group::{
    added_text, infer_in, list_text, named_roots_in, pick_group, removed_group_text, removed_text,
    roots, roots_text, GroupError, Registry,
};
use codescratch::scope::{ensure_failures, explore_group_body, Scope};

#[test]
fn roots_errors_on_unknown_group() {
    let reg = Registry::default();
    assert!(reg.roots("nope").is_err());
}

#[test]
fn single_root_is_not_a_group() {
    let s = Scope { roots: vec!["/repo".to_string()] };
    assert!(!s.is_group());
    assert_eq!(s.roots().len(), 1);
}

#[test]
fn many_roots_is_a_group() {
    let s = Scope { roots: vec!["/a".to_string(), "/b".to_string()] };
    assert!(s.is_group());
}

#[test]
fn resolve_errors_on_unknown_group() {
    let reg = Registry::default();
    assert!(Scope::resolve(Some("definitely-not-a-real-group"), None, &reg, "/repo").is_err());
}

#[test]
fn resolve_without_group_uses_the_single_root() {
    let reg = Registry::default();
    let s = Scope::resolve(None, None, &reg, "/repo").unwrap();
    assert!(!s.is_group());
    assert_eq!(s.roots()[0], "/repo");
}

#[test]
fn add_dedupes_roots_and_keeps_names_sorted() {
    let mut reg = Registry::default();
    reg.add_canonical("svc", "/x/a");
    reg.add_canonical("svc", "/x/a/");
    assert_eq!(reg.roots("svc").unwrap().len(), 1);
    reg.add_canonical("two", "/y");
    reg.add_canonical("one", "/z");
    let listed = reg.list();
    let names: Vec<&str> = listed.iter().map(|(n, _)| n.as_str()).collect();
    assert_eq!(names, vec!["one", "svc", "two"]);
}

#[test]
fn remove_root_and_remove_group_work() {
    let mut reg = Registry::default();
    reg.add_canonical("multi", "/p/a");
    reg.add_canonical("multi", "/p/b");
    assert_eq!(reg.roots("multi").unwrap().len(), 2);
    reg.remove_root_paths("multi", "/p/a", "/p/a").unwrap();
    assert_eq!(reg.roots("multi").unwrap(), vec!["/p/b".to_string()]);
    reg.remove_group("multi").unwrap();
    assert!(reg.roots("multi").is_err());
    assert_eq!(reg.remove_group("multi"), Err(GroupError::NoSuchGroup("multi".into())));
    assert!(reg.remove_root_paths("multi", "/p/b", "/p/b").is_err());
}

#[test]
fn named_roots_errors_on_empty_group() {
    let mut reg = Registry::default();
    reg.add_canonical("g", "/r");
    reg.remove_root_paths("g", "/r", "/r").unwrap();
    let e = named_roots_in(&reg, "g").unwrap_err();
    assert_eq!(
        e.message(),
        "group 'g' has no roots (add one: codescratch group add --group g --root <path>)"
    );
    assert_eq!(roots(Some("zz"), &reg, "/r").unwrap_err().message(), "no such group: zz");
}

#[test]
fn infer_member_parent_and_ambiguous() {
    let mut reg = Registry::default();
    reg.add_canonical("k", "/p/app");
    reg.add_canonical("k", "/p/api");
    assert_eq!(infer_in(&reg, "/p/app"), vec!["/p/app".to_string()]);
    assert_eq!(infer_in(&reg, "/p"), vec!["/p/app".to_string(), "/p/api".to_string()]);
    reg.add_canonical("other", "/p/extra");
    assert_eq!(infer_in(&reg, "/p"), vec!["/p".to_string()]);
    assert_eq!(infer_in(&reg, "/elsewhere"), vec!["/elsewhere".to_string()]);
}

#[test]
fn list_and_messages() {
    let mut reg = Registry::default();
    assert_eq!(list_text(&reg), "no groups defined");
    reg.add_canonical("b", "/r1");
    reg.add_canonical("a", "/r2");
    reg.add_canonical("a", "/r3");
    assert_eq!(list_text(&reg), "a (2 roots)\n  /r2\n  /r3\nb (1 root)\n  /r1");
    assert_eq!(roots_text("a", &reg.roots("a").unwrap()), "/r2\n/r3");
    assert_eq!(roots_text("e", &vec![]), "'e' has no roots");
    assert_eq!(added_text("/r", "g", 1), "added /r to 'g' (1 root total)");
    assert_eq!(added_text("/r", "g", 3), "added /r to 'g' (3 roots total)");
    assert_eq!(removed_text("/r", "g"), "removed /r from 'g'");
    assert_eq!(removed_group_text("g"), "removed group 'g'");
}

#[test]
fn group_name_from_flag_or_environment() {
    assert_eq!(pick_group(Some("x"), Some("y")), Some("x".to_string()));
    assert_eq!(pick_group(None, Some("y")), Some("y".to_string()));
    assert_eq!(pick_group(Some("  "), Some("y")), None);
    assert_eq!(pick_group(None, None), None);
}

#[test]
fn group_bodies() {
    let hits = vec!["# repo `a`\n\nA".to_string(), "# repo `b`\n\nB".to_string()];
    let misses = vec!["c".to_string()];
    assert_eq!(
        explore_group_body("f", &hits, &misses),
        "# repo `a`\n\nA\n---\n\n# repo `b`\n\nB\nnot found in: c\n"
    );
    assert_eq!(
        explore_group_body("f", &vec![], &vec![]),
        "no symbol named `f` in any group repo. try `search f`.\n"
    );
    assert_eq!(ensure_failures(&vec![]), None);
    assert_eq!(
        ensure_failures(&vec!["/a: x".to_string(), "/b: y".to_string()]),
        Some("2 repo(s) failed: /a: x; /b: y".to_string())
    );
}

use codescratch::group::{parse_command, run_in as run_group, GroupCommand, Store};

fn dispatch(reg: &mut Registry, action: &str, group: Option<&str>, root: Option<&str>) -> Result<(String, bool), GroupError> {
    let cmd = parse_command(action, group, root)?;
    let target = root.unwrap_or("").to_string();
    run_group(&cmd, reg, &target)
}

#[test]
fn command_dispatch_covers_all_actions_in_memory() {
    let mut reg = Registry::new();
    let (msg, save) = dispatch(&mut reg, "list", None, None).unwrap();
    assert!(msg.contains("no groups"));
    assert!(!save);
    let (msg, save) = dispatch(&mut reg, "add", Some("cli-group"), Some("/w/app")).unwrap();
    assert_eq!(msg, "added /w/app to 'cli-group' (1 root total)");
    assert!(save);
    let (msg, _) = dispatch(&mut reg, "add", Some("cli-group"), Some("/w/app")).unwrap();
    assert_eq!(msg, "added /w/app to 'cli-group' (1 root total)");
    let (msg, _) = dispatch(&mut reg, "roots", Some("cli-group"), None).unwrap();
    assert_eq!(msg, "/w/app");
    let (msg, _) = dispatch(&mut reg, "remove", Some("cli-group"), Some("/w/app")).unwrap();
    assert_eq!(msg, "removed /w/app from 'cli-group'");
    let (msg, _) = dispatch(&mut reg, "roots", Some("cli-group"), None).unwrap();
    assert_eq!(msg, "'cli-group' has no roots");
    let (msg, _) = dispatch(&mut reg, "rm-group", Some("cli-group"), None).unwrap();
    assert_eq!(msg, "removed group 'cli-group'");
    assert_eq!(
        dispatch(&mut reg, "roots", Some("cli-group"), None).unwrap_err(),
        GroupError::NoSuchGroup("cli-group".into())
    );
    assert_eq!(
        dispatch(&mut reg, "bogus-action", None, None).unwrap_err(),
        GroupError::UnknownAction("bogus-action".into())
    );
}

#[test]
fn commands_name_the_missing_flag() {
    assert_eq!(
        parse_command("add", Some("g"), None).err().unwrap(),
        GroupError::MissingArg("add".into(), "root".into())
    );
    assert_eq!(
        parse_command("remove", None, Some("/x")).err().unwrap(),
        GroupError::MissingArg("remove".into(), "group".into())
    );
    assert!(matches!(parse_command("list", None, None), Ok(GroupCommand::List)));
    assert_eq!(
        GroupError::MissingArg("add".into(), "root".into()).message(),
        "add requires --root"
    );
}

#[test]
fn store_paths() {
    let s = Store::new("/home/u/.codescratch".into());
    assert_eq!(s.path(), "/home/u/.codescratch/groups.json");
    assert_eq!(s.tmp_path(), "/home/u/.codescratch/groups.json.tmp");
}

#[test]
fn added_root_is_printed_by_roots_and_version_is_kept() {
    let mut reg = Registry::default();
    reg.version = 3;
    dispatch(&mut reg, "add", Some("g"), Some("/w/app")).unwrap();
    let (out, changed) = dispatch(&mut reg, "roots", Some("g"), None).unwrap();
    assert!(!changed);
    assert!(out.lines().any(|l| l == "/w/app"), "{out}");
    assert_eq!(reg.version, 3);
}
