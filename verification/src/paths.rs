//! Paths as `Path::components` sees Unix paths: equality, parents and
//! prefixes are decided on components, not on raw text.

use vstd::prelude::*;
use crate::text::{chars_of, has_prefix, seq_eq, split_char, split_char_exec, starts_with, views};

verus! {

/// A path's components, as `Path::components` sees a Unix path: the root (as
/// `/`) when it is absolute, or `.` when it begins with a `.` piece, then each
/// non-empty piece that is not `.`.
pub open spec fn components(p: Seq<char>) -> Seq<Seq<char>> {
    let parts = split_char(p, '/').filter(|c: Seq<char>| c.len() > 0 && c != "."@);
    if p.len() > 0 && p[0] == '/' {
        seq!["/"@] + parts
    } else if p == "."@ || has_prefix(p, "./"@) {
        seq!["."@] + parts
    } else {
        parts
    }
}

/// Two paths are equal when their components are (`Path`'s `==`).
pub open spec fn same_path(a: Seq<char>, b: Seq<char>) -> bool {
    components(a) == components(b)
}

/// The components of `Path::parent`: none for an empty path or the root.
pub open spec fn parent_components(p: Seq<char>) -> Option<Seq<Seq<char>>> {
    let c = components(p);
    if c.len() == 0 || (c.len() == 1 && c[0] == "/"@) {
        None
    } else {
        Some(c.drop_last())
    }
}

/// The components joined with `/`.
pub open spec fn join_slash(cs: Seq<Seq<char>>) -> Seq<char>
    decreases cs.len(),
{
    if cs.len() == 0 {
        Seq::empty()
    } else if cs.len() == 1 {
        cs[0]
    } else {
        join_slash(cs.drop_last()) + seq!['/'] + cs.last()
    }
}

pub fn components_exec(p: &[char]) -> (r: Vec<Vec<char>>)
    ensures
        views(r@) == components(p@),
{
    let parts = split_char_exec(p, '/');
    let dot = chars_of(".");
    let ghost pred = |c: Seq<char>| c.len() > 0 && c != "."@;
    let mut out: Vec<Vec<char>> = Vec::new();
    let dot_slash = chars_of("./");
    if p.len() > 0 && p[0] == '/' {
        out.push(chars_of("/"));
    } else if seq_eq(p, &dot) || starts_with(p, &dot_slash) {
        out.push(chars_of("."));
    }
    let ghost base = views(out@);
    let mut i: usize = 0;
    while i < parts.len()
        invariant
            i <= parts.len(),
            dot@ == "."@,
            pred == (|c: Seq<char>| c.len() > 0 && c != "."@),
            views(parts@) == split_char(p@, '/'),
            views(out@) == base + views(parts@).take(i as int).filter(pred),
        decreases parts.len() - i,
    {
        let ghost vs = views(parts@);
        let ghost before = views(out@);
        assert(vs.take(i + 1).drop_last() =~= vs.take(i as int));
        assert(vs[i as int] == parts@[i as int]@);
        proof {
            reveal(Seq::filter);
        }
        if parts[i].len() > 0 && !seq_eq(&parts[i], &dot) {
            let c = crate::text::slice_of(&parts[i], 0, parts[i].len());
            assert(c@ =~= parts@[i as int]@);
            out.push(c);
            assert(views(out@) =~= before.push(parts@[i as int]@));
        } else {
            assert(views(out@) =~= before);
        }
        i += 1;
    }
    assert(views(parts@).take(parts.len() as int) =~= views(parts@));
    proof {
        if p@.len() > 0 && p@[0] == '/' {
            assert(base =~= seq!["/"@]);
        } else if p@ == "."@ || has_prefix(p@, "./"@) {
            assert(base =~= seq!["."@]);
        } else {
            assert(base =~= Seq::<Seq<char>>::empty());
        }
    }
    assert(views(out@) =~= components(p@));
    out
}

/// Do two paths have the same components?
pub fn same_path_exec(a: &str, b: &str) -> (r: bool)
    ensures
        r == same_path(a@, b@),
{
    let x = components_exec(&chars_of(a));
    let y = components_exec(&chars_of(b));
    components_eq(&x, &y)
}

fn components_eq(x: &Vec<Vec<char>>, y: &Vec<Vec<char>>) -> (r: bool)
    ensures
        r == (views(x@) == views(y@)),
{
    if x.len() != y.len() {
        return false;
    }
    let mut i: usize = 0;
    while i < x.len()
        invariant
            i <= x.len() == y.len(),
            forall|k: int| 0 <= k < i ==> views(x@)[k] == views(y@)[k],
        decreases x.len() - i,
    {
        assert(views(x@)[i as int] == x@[i as int]@);
        assert(views(y@)[i as int] == y@[i as int]@);
        if !seq_eq(&x[i], &y[i]) {
            return false;
        }
        i += 1;
    }
    assert(views(x@) =~= views(y@));
    true
}

/// Is `parent` what `Path::parent` gives for `child`?
pub fn is_parent_of(parent: &str, child: &str) -> (r: bool)
    ensures
        r == (parent_components(child@) == Some(components(parent@))),
{
    let cv = chars_of(child);
    let pv = chars_of(parent);
    let c = components_exec(&cv);
    let p = components_exec(&pv);
    let root = chars_of("/");
    if c.len() == 0 {
        return false;
    }
    assert(views(c@)[0] == c@[0]@);
    if c.len() == 1 && seq_eq(&c[0], &root) {
        return false;
    }
    if p.len() != c.len() - 1 {
        assert(views(c@).drop_last().len() != views(p@).len());
        return false;
    }
    let mut i: usize = 0;
    while i < p.len()
        invariant
            i <= p.len(),
            p.len() + 1 == c.len(),
            views(c@) == components(child@),
            views(p@) == components(parent@),
            c.len() >= 2 || views(c@)[0] != "/"@,
            forall|k: int| 0 <= k < i ==> views(c@)[k] == views(p@)[k],
        decreases p.len() - i,
    {
        assert(views(c@)[i as int] == c@[i as int]@);
        assert(views(p@)[i as int] == p@[i as int]@);
        if !seq_eq(&c[i], &p[i]) {
            assert(views(c@).drop_last()[i as int] != views(p@)[i as int]);
            return false;
        }
        i += 1;
    }
    assert(views(c@).drop_last() =~= views(p@));
    true
}

} // verus!
