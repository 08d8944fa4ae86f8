use codescratch::watch::{flush_message, WatchState};
use codescratch::git::{diff_failure, head_of};
use codescratch::walk::tracked_lang;
use codescratch::watch::{
    owning_root, relevant, should_flush, to_repo_relative, QUICK_PATH_MAX_FILES, QUICK_PATH_MS,
};
use std::time::Duration;

fn ms(d: Duration) -> u128 {
    d.as_millis()
}

#[test]
fn no_flush_when_nothing_pending() {
    assert!(!should_flush(0, ms(Duration::from_secs(10))));
}

#[test]
fn quick_path_flushes_small_batch_after_300ms() {
    assert!(!should_flush(1, ms(Duration::from_millis(299))));
    assert!(should_flush(1, ms(Duration::from_millis(300))));
    assert!(should_flush(2, ms(Duration::from_millis(300))));
}

#[test]
fn large_batch_waits_for_full_debounce() {
    assert!(!should_flush(3, ms(Duration::from_millis(300))));
    assert!(!should_flush(3, ms(Duration::from_millis(1_999))));
    assert!(should_flush(3, ms(Duration::from_millis(2_000))));
}

#[test]
fn quick_path_boundary_is_exactly_two_files() {
    assert!(should_flush(QUICK_PATH_MAX_FILES, QUICK_PATH_MS));
    assert!(!should_flush(QUICK_PATH_MAX_FILES + 1, QUICK_PATH_MS));
}

#[test]
fn relevant_ignores_codescratch_and_git_dirs() {
    assert!(!relevant(".codescratch/graph.db"));
    assert!(!relevant(".git/HEAD"));
    assert!(relevant("src/main.ts"));
}

#[test]
fn relevant_ignores_unrecognized_languages() {
    assert!(!relevant("README.md"));
    assert!(!relevant("Cargo.lock"));
    assert!(relevant("src/app.py"));
}

#[test]
fn to_repo_relative_strips_root_and_normalizes() {
    assert_eq!(to_repo_relative("/repo", "/repo/src/main.ts"), Some("src/main.ts".to_string()));
}

#[test]
fn to_repo_relative_none_outside_root() {
    assert_eq!(to_repo_relative("/repo", "/other/main.ts"), None);
}

#[test]
fn owning_root_picks_the_repo_containing_the_path() {
    let roots = vec!["/a".to_string(), "/b".to_string()];
    let (root, rel) = owning_root(&roots, "/b/src/x.ts").unwrap();
    assert_eq!(root, &"/b".to_string());
    assert_eq!(rel, "src/x.ts");
}

#[test]
fn owning_root_none_for_untracked_or_outside_paths() {
    let roots = vec!["/a".to_string()];
    assert!(owning_root(&roots, "/elsewhere/x.ts").is_none());
    assert!(owning_root(&roots, "/a/README.md").is_none());
    assert!(owning_root(&roots, "/a/.git/HEAD").is_none());
}

#[test]
fn tracked_skips_git_and_store_keeps_source() {
    assert!(tracked_lang("src/a.ts").is_some());
    assert!(tracked_lang(".codescratch/x.ts").is_none());
    assert!(tracked_lang(".git/hooks/pre-commit.ts").is_none());
    assert!(tracked_lang("README.md").is_none());
}

#[test]
fn repo_relative_is_component_wise() {
    assert_eq!(to_repo_relative("/repo", "/repository/x.ts"), None);
    assert_eq!(to_repo_relative("/repo/", "/repo/src/x.ts"), Some("src/x.ts".to_string()));
    assert_eq!(to_repo_relative("/repo", "/repo"), Some(String::new()));
    assert_eq!(to_repo_relative("/repo", "/repo/a\\b.ts"), Some("a/b.ts".to_string()));
    assert_eq!(to_repo_relative("/repo", "repo/x.ts"), None);
}

#[test]
fn owning_root_prefers_first_root_that_tracks_the_file() {
    let roots = vec!["/a".to_string(), "/a/sub".to_string()];
    let (root, rel) = owning_root(&roots, "/a/sub/x.py").unwrap();
    assert_eq!(root, "/a");
    assert_eq!(rel, "sub/x.py");
}

#[test]
fn pending_sets_are_kept_per_repo() {
    let mut st = WatchState::new(2);
    st.note(1, "src/a.ts".to_string(), 1_000);
    st.note(1, "src/a.ts".to_string(), 1_050);
    st.note(1, "src/b.ts".to_string(), 1_100);
    assert_eq!(st.repos[1].files, vec!["src/a.ts".to_string(), "src/b.ts".to_string()]);
    assert_eq!(st.repos[1].first_at_ms, Some(1_000));
    assert!(st.repos[0].files.is_empty());
    assert_eq!(st.repos[0].first_at_ms, None);
    // 299 ms after the first change: not yet due.
    assert!(st.take_due(1_299).is_empty());
    let due = st.take_due(1_300);
    assert_eq!(due.len(), 1);
    assert_eq!((due[0].repo, due[0].files), (1, 2));
    assert!(st.repos[1].files.is_empty());
    assert_eq!(st.repos[1].first_at_ms, None);
}

#[test]
fn large_pending_set_waits_for_the_full_debounce() {
    let mut st = WatchState::new(1);
    st.note(0, "a.ts".to_string(), 0);
    st.note(0, "b.ts".to_string(), 10);
    st.note(0, "c.ts".to_string(), 20);
    assert!(st.take_due(1_999).is_empty());
    let due = st.take_due(2_000);
    assert_eq!((due[0].repo, due[0].files), (0, 3));
}

#[test]
fn flush_message_names_the_repo_only_when_several_are_watched() {
    assert_eq!(flush_message(1, "/w/api", false), "\u{21bb} 1 file changed \u{2192} ensure");
    assert_eq!(flush_message(3, "/w/api", true), "\u{21bb} 3 files changed in api \u{2192} ensure");
}

#[test]
fn head_is_the_trimmed_output_of_a_successful_rev_parse() {
    let sha = "0123456789abcdef0123456789abcdef01234567";
    assert_eq!(head_of(true, &format!("{sha}\n")), Some(sha.to_string()));
    assert_eq!(head_of(false, sha), None);
    assert_eq!(head_of(true, "  \n"), None);
    assert_eq!(diff_failure("fatal: bad revision\n"), "git diff failed: fatal: bad revision");
}
