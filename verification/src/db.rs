//! Where a repo's graph store lives: `<root>/.codescratch/`, with the
//! database and the ensure lock inside.

use vstd::prelude::*;
use crate::text::{chars_of, push_all, string_of};

verus! {

/// The store's schema version, kept in its `meta` table.
pub const SCHEMA_VERSION: &'static str = "2";

/// `Path::join` for a relative name: appended after a `/` unless the base
/// is empty or already ends with one.
pub open spec fn join_name(base: Seq<char>, name: Seq<char>) -> Seq<char> {
    if base.len() == 0 {
        name
    } else if base.last() == '/' {
        base + name
    } else {
        base + "/"@ + name
    }
}

pub fn join_path(base: &str, name: &str) -> (r: String)
    ensures
        r@ == join_name(base@, name@),
{
    let mut v = chars_of(base);
    let n = chars_of(name);
    if v.len() > 0 && v[v.len() - 1] != '/' {
        v.push('/');
    }
    push_all(&mut v, &n);
    proof {
        reveal_strlit("/");
    }
    assert(v@ =~= join_name(base@, name@));
    string_of(&v)
}

/// `<root>/.codescratch`.
pub fn dir(root: &str) -> (r: String)
    ensures
        r@ == join_name(root@, ".codescratch"@),
{
    join_path(root, ".codescratch")
}

/// `<root>/.codescratch/graph.db`.
pub fn db_path(root: &str) -> (r: String)
    ensures
        r@ == join_name(join_name(root@, ".codescratch"@), "graph.db"@),
{
    let d = dir(root);
    join_path(d.as_str(), "graph.db")
}

/// `<root>/.codescratch/ensure.lock`.
pub fn lock_path(root: &str) -> (r: String)
    ensures
        r@ == join_name(join_name(root@, ".codescratch"@), "ensure.lock"@),
{
    let d = dir(root);
    join_path(d.as_str(), "ensure.lock")
}

} // verus!
