use codescratch::db::{db_path, dir, lock_path};
use codescratch::host::{ensure_many, lock_body, lock_is_stale, LOCK_TTL_MS};

#[test]
fn lock_body_is_pid_and_time() {
    assert_eq!(lock_body(42, 1700000000000), "42:1700000000000\n");
}

#[test]
fn lock_staleness_follows_the_ttl() {
    let now: u128 = 1_000_000;
    assert!(!lock_is_stale(Some("42:1000000\n"), now));
    assert!(!lock_is_stale(Some(&format!("42:{}", now - LOCK_TTL_MS)), now));
    assert!(lock_is_stale(Some(&format!("42:{}", now - LOCK_TTL_MS - 1)), now));
    assert!(!lock_is_stale(Some("42:2000000"), now));
    assert!(lock_is_stale(None, now));
    assert!(lock_is_stale(Some("garbage"), now));
    assert!(lock_is_stale(Some("42:abc"), now));
    assert!(lock_is_stale(Some("42:-5"), now));
    assert!(!lock_is_stale(Some("  7:+999999 "), now));
}

#[test]
fn ensure_many_collects_every_failure() {
    assert_eq!(ensure_many(&[("/a".into(), Ok(())), ("/b".into(), Ok(()))]), Ok(()));
    assert_eq!(
        ensure_many(&[("/a".into(), Err("locked".into())), ("/b".into(), Ok(())), ("/c".into(), Err("io".into()))]),
        Err("2 repo(s) failed: /a: locked; /c: io".to_string())
    );
}

#[test]
fn store_paths_under_the_repo() {
    assert_eq!(dir("/r"), "/r/.codescratch");
    assert_eq!(dir("/r/"), "/r/.codescratch");
    assert_eq!(db_path("/r"), "/r/.codescratch/graph.db");
    assert_eq!(lock_path("/r"), "/r/.codescratch/ensure.lock");
}
