//! What the library makes of git's replies: the current HEAD from the output of
//! `git rev-parse HEAD`, and the message of a failed `git diff`.

use vstd::prelude::*;
use crate::text::{chars_of, string_of, trim_exec, trim_ws};

verus! {

/// HEAD as `git rev-parse HEAD` reports it: its trimmed output, when the
/// command succeeded and printed something; otherwise none (not a git tree).
pub open spec fn head_spec(succeeded: bool, stdout: Seq<char>) -> Option<Seq<char>> {
    if !succeeded || trim_ws(stdout).len() == 0 {
        None
    } else {
        Some(trim_ws(stdout))
    }
}

/// The current HEAD from the exit status and standard output of
/// `git rev-parse HEAD`.
pub fn head_of(succeeded: bool, stdout: &str) -> (r: Option<String>)
    ensures
        match r {
            Some(h) => head_spec(succeeded, stdout@) == Some(h@),
            None => head_spec(succeeded, stdout@) is None,
        },
{
    if !succeeded {
        return None;
    }
    let cs = chars_of(stdout);
    let t = trim_exec(&cs);
    if t.len() == 0 {
        None
    } else {
        Some(string_of(&t))
    }
}

pub open spec fn diff_failure_spec(stderr: Seq<char>) -> Seq<char> {
    "git diff failed: "@ + trim_ws(stderr)
}

/// The error reported when `git diff` exits with failure.
pub fn diff_failure(stderr: &str) -> (r: String)
    ensures
        r@ == diff_failure_spec(stderr@),
{
    let cs = chars_of(stderr);
    let t = trim_exec(&cs);
    let mut out = chars_of("git diff failed: ");
    crate::text::push_all(&mut out, &t);
    string_of(&out)
}

} // verus!
