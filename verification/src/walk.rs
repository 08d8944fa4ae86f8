//! Which repo-relative paths the indexer and the watcher care about: one
//! predicate, so a skip rule cannot drift between the two.

use vstd::prelude::*;
use crate::model::{lang_of_path, Lang};
use crate::text::{chars_of, has_prefix, starts_with};

verus! {

/// One source file the indexer cares about (contents are not read here).
#[derive(Debug, Clone)]
pub struct Entry {
    /// Repo-relative, forward slashes.
    pub rel: String,
    /// Where the file is on disk.
    pub abs: String,
    pub mtime_ms: i64,
    pub size: i64,
    pub lang: Lang,
}

/// Not the graph store, not `.git/`, and a known source language.
pub open spec fn tracked_lang_spec(rel: Seq<char>) -> Option<Lang> {
    if has_prefix(rel, ".codescratch/"@) || has_prefix(rel, ".git/"@) {
        None
    } else {
        lang_of_path(rel)
    }
}

/// The language of a repo-relative path the indexer tracks, if it does.
pub fn tracked_lang(rel: &str) -> (r: Option<Lang>)
    ensures
        r == tracked_lang_spec(rel@),
{
    let p = chars_of(rel);
    let store = chars_of(".codescratch/");
    let git = chars_of(".git/");
    if starts_with(&p, &store) || starts_with(&p, &git) {
        return None;
    }
    Lang::from_path(rel)
}

} // verus!
