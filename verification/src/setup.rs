//! Install-time pieces: the agent skill text, where it is written, and the
//! MCP config files from which a leftover `codescratch` server entry is
//! removed.

use vstd::prelude::*;
use crate::db::{join_name, join_path};

verus! {

/// The skill an agent reads: use the graph before grepping identifiers.
pub const SKILL_MD: &'static str = "---\nname: codescratch\ndescription: TS/JS structure graph. Prefer over grep/rg for where a symbol is defined, who calls it, or blast radius. CLI only — codescratch explore|search|status|changes.\n---\n\nGraph lives in `<repo>/.codescratch/graph.db`. Host keeps it fresh (`ensure` / `watch`). Do not reindex every turn.\n\n```\ncodescratch status                         # trust × coverage × resolve\ncodescratch explore <Symbol>               # snippet + calls + callers (blast)\ncodescratch search <name>                  # fuzzy find\ncodescratch changes                        # git diff → symbols + blast\ncodescratch ensure                         # catch-up if banner says trust: stale\n```\n\n`--group NAME` fans out over that group's repos (each keeps its own db). Omit it: cwd is one repo, unless cwd is the unique parent of a registered group (e.g. `/kabana` → group `kabana`).\n\nRead the banner on every answer. Three axes, do not mix them:\n- `trust:` freshness only (`fresh` / `stale` / `rebuilding` / `missing`). `stale` = HEAD moved since last `ensure`. Run `ensure`. Never treat `resolve:` as stale.\n- `coverage:` how much was walked (`exhaustive` / `sampled`).\n- `resolve:` in-repo bind rate (`ok` / `partial`). Weak / unbound calls. Not freshness.\n`conf=weak` on an edge is a name guess. Auth/money/deletes: read source anyway. Graph misses `import()`, DI, proxies.\n\nNever `reindex` unless trust is stuck. `rg`/`grep` for a single identifier (`Foo`) is a miss — `explore Foo` first. Strings, regex, `TODO`, path filters: grep is fine.\n";

fn join2(base: &str, a: &str, b: &str) -> (r: String)
    ensures
        r@ == join_name(join_name(base@, a@), b@),
{
    let x = join_path(base, a);
    join_path(x.as_str(), b)
}

fn join3(base: &str, a: &str, b: &str, c: &str) -> (r: String)
    ensures
        r@ == join_name(join_name(join_name(base@, a@), b@), c@),
{
    let x = join2(base, a, b);
    join_path(x.as_str(), c)
}

/// Where the skill goes for the Pi harness: (the harness directory that
/// must already exist, the skill directory inside it).
pub fn skill_destinations(home: &str) -> (r: Vec<(String, String)>)
    ensures
        r@.len() == 1,
        r@[0].0@ == join_name(join_name(home@, ".pi"@), "agent"@),
        r@[0].1@ == join_name(join_name(join_name(join_name(home@, ".pi"@), "agent"@), "skills"@), "codescratch"@),
{
    let pi = join2(home, ".pi", "agent");
    let pi_dir = join2(pi.as_str(), "skills", "codescratch");
    let mut v: Vec<(String, String)> = Vec::new();
    v.push((pi, pi_dir));
    v
}

/// The MCP config files a leftover `codescratch` server entry is stripped
/// from: the user-level ones under `home`, the repo's own, `$CODEX_HOME`'s
/// when set, and those of each child directory of the root.
pub fn mcp_candidates(home: &str, root: &str, codex_home: Option<&str>, child_dirs: &[String]) -> (r: Vec<String>)
    ensures
        r@.len() == 7 + (if codex_home is Some { 1int } else { 0int }) + 2 * child_dirs@.len(),
        r@[0]@ == join_name(join_name(home@, ".cursor"@), "mcp.json"@),
        r@[1]@ == join_name(join_name(home@, ".opencode"@), "mcp.json"@),
        r@[2]@ == join_name(join_name(join_name(home@, ".pi"@), "agent"@), "mcp.json"@),
        r@[3]@ == join_name(join_name(join_name(home@, ".config"@), "mcp"@), "mcp.json"@),
        r@[4]@ == join_name(root@, ".mcp.json"@),
        r@[5]@ == join_name(join_name(root@, ".pi"@), "mcp.json"@),
        r@[6]@ == join_name(join_name(root@, ".codex"@), "mcp.json"@),
        codex_home matches Some(c) ==> r@[7]@ == join_name(c@, "mcp.json"@),
        forall|k: int|
            0 <= k < child_dirs@.len() ==> {
                let b = 7 + (if codex_home is Some { 1int } else { 0int });
                &&& r@[b + 2 * k]@ == join_name(join_name((#[trigger] child_dirs@[k])@, ".pi"@), "mcp.json"@)
                &&& r@[b + 2 * k + 1]@ == join_name(child_dirs@[k]@, ".mcp.json"@)
            },
{
    let mut v: Vec<String> = Vec::new();
    v.push(join2(home, ".cursor", "mcp.json"));
    v.push(join2(home, ".opencode", "mcp.json"));
    v.push(join3(home, ".pi", "agent", "mcp.json"));
    v.push(join3(home, ".config", "mcp", "mcp.json"));
    v.push(join_path(root, ".mcp.json"));
    v.push(join2(root, ".pi", "mcp.json"));
    v.push(join2(root, ".codex", "mcp.json"));
    match codex_home {
        Some(c) => v.push(join_path(c, "mcp.json")),
        None => {},
    }
    let ghost b: int = 7 + (if codex_home is Some { 1int } else { 0int });
    let mut k: usize = 0;
    while k < child_dirs.len()
        invariant
            k <= child_dirs@.len(),
            b == 7 + (if codex_home is Some { 1int } else { 0int }),
            v@.len() == b + 2 * k,
            v@[0]@ == join_name(join_name(home@, ".cursor"@), "mcp.json"@),
            v@[1]@ == join_name(join_name(home@, ".opencode"@), "mcp.json"@),
            v@[2]@ == join_name(join_name(join_name(home@, ".pi"@), "agent"@), "mcp.json"@),
            v@[3]@ == join_name(join_name(join_name(home@, ".config"@), "mcp"@), "mcp.json"@),
            v@[4]@ == join_name(root@, ".mcp.json"@),
            v@[5]@ == join_name(join_name(root@, ".pi"@), "mcp.json"@),
            v@[6]@ == join_name(join_name(root@, ".codex"@), "mcp.json"@),
            codex_home matches Some(c) ==> v@[7]@ == join_name(c@, "mcp.json"@),
            forall|j: int|
                0 <= j < k ==> {
                    &&& v@[b + 2 * j]@ == join_name(join_name((#[trigger] child_dirs@[j])@, ".pi"@), "mcp.json"@)
                    &&& v@[b + 2 * j + 1]@ == join_name(child_dirs@[j]@, ".mcp.json"@)
                },
        decreases child_dirs.len() - k,
    {
        v.push(join2(child_dirs[k].as_str(), ".pi", "mcp.json"));
        v.push(join_path(child_dirs[k].as_str(), ".mcp.json"));
        k += 1;
    }
    v
}

} // verus!
