//! Decisions of the stdio JSON-RPC server: which tools are listed, which
//! method a request names, which tool a call names. The transport (reading
//! lines, building and writing JSON) stays with the program.

use vstd::prelude::*;
use crate::text::{chars_of, seq_eq, split_char, split_char_exec, string_of, text_is, trim_exec, trim_ws, views};

verus! {

/// Is `search` among the comma-separated names of `extra`?
pub open spec fn asks_for_search(extra: Seq<char>) -> bool {
    exists|k: int|
        0 <= k < split_char(extra, ',').len() && trim_ws(#[trigger] split_char(extra, ',')[k])
            == "search"@
}

/// Tools listed by `tools/list`: `explore` and `status` always, `search` only
/// when the extra-tools setting names it.
pub open spec fn listed_spec(extra: Option<Seq<char>>) -> Seq<Seq<char>> {
    let base = seq!["explore"@, "status"@];
    match extra {
        Some(e) => if asks_for_search(e) {
            base.push("search"@)
        } else {
            base
        },
        None => base,
    }
}

/// The tools to list, from the value of the extra-tools setting (if set).
pub fn listed(extra: Option<&str>) -> (r: Vec<String>)
    ensures
        crate::text::str_views(r@) == listed_spec(match extra {
            Some(e) => Some(e@),
            None => None,
        }),
{
    let mut v: Vec<String> = Vec::new();
    v.push(string_of(&chars_of("explore")));
    v.push(string_of(&chars_of("status")));
    let ghost base = crate::text::str_views(v@);
    assert(base =~= seq!["explore"@, "status"@]);
    match extra {
        None => {},
        Some(e) => {
            let cs = chars_of(e);
            let parts = split_char_exec(&cs, ',');
            let want = chars_of("search");
            let mut found = false;
            let mut k: usize = 0;
            while k < parts.len()
                invariant
                    k <= parts@.len(),
                    views(parts@) == split_char(e@, ','),
                    want@ == "search"@,
                    found <==> exists|m: int|
                        0 <= m < k && trim_ws(#[trigger] split_char(e@, ',')[m]) == "search"@,
                decreases parts@.len() - k,
            {
                let t = trim_exec(&parts[k]);
                assert(views(parts@)[k as int] == parts@[k as int]@);
                if seq_eq(&t, &want) {
                    found = true;
                }
                k += 1;
            }
            if found {
                v.push(string_of(&want));
                assert(crate::text::str_views(v@) =~= base.push("search"@));
            }
        },
    }
    v
}

/// The JSON-RPC methods the server answers.
#[derive(Debug, Clone, Copy, PartialEq, Eq)]
pub enum Method {
    Initialize,
    ToolsList,
    ToolsCall,
    Ping,
    NotFound,
}

pub open spec fn method_spec(m: Seq<char>) -> Method {
    if m == "initialize"@ {
        Method::Initialize
    } else if m == "tools/list"@ {
        Method::ToolsList
    } else if m == "tools/call"@ {
        Method::ToolsCall
    } else if m == "ping"@ {
        Method::Ping
    } else {
        Method::NotFound
    }
}

/// Which method a request's `method` field names.
pub fn method_of(m: &str) -> (r: Method)
    ensures
        r == method_spec(m@),
{
    if text_is(m, "initialize") {
        Method::Initialize
    } else if text_is(m, "tools/list") {
        Method::ToolsList
    } else if text_is(m, "tools/call") {
        Method::ToolsCall
    } else if text_is(m, "ping") {
        Method::Ping
    } else {
        Method::NotFound
    }
}

/// The tools a `tools/call` can name.
#[derive(Debug, Clone, PartialEq, Eq)]
pub enum Tool {
    Status,
    Explore,
    Search,
    Unknown(String),
}

/// Which tool a `tools/call` names.
pub fn tool_of(name: &str) -> (r: Tool)
    ensures
        name@ == "status"@ ==> r == Tool::Status,
        name@ == "explore"@ ==> r == Tool::Explore,
        name@ == "search"@ ==> r == Tool::Search,
        name@ != "status"@ && name@ != "explore"@ && name@ != "search"@ ==> (r matches Tool::Unknown(
            n,
        ) && n@ == name@),
{
    proof {
        reveal_strlit("status");
        reveal_strlit("explore");
        reveal_strlit("search");
        assert("explore"@.len() != "status"@.len());
        assert("explore"@.len() != "search"@.len());
        assert("search"@[1] != "status"@[1]);
    }
    if text_is(name, "status") {
        Tool::Status
    } else if text_is(name, "explore") {
        Tool::Explore
    } else if text_is(name, "search") {
        Tool::Search
    } else {
        Tool::Unknown(string_of(&chars_of(name)))
    }
}

/// The reply text for a call of a tool the server does not have.
pub fn unknown_tool_text(name: &str) -> (r: String)
    ensures
        r@ == "unknown tool `"@ + name@ + "`"@,
{
    let mut out = chars_of("unknown tool `");
    crate::text::push_all(&mut out, &chars_of(name));
    out.push('`');
    proof {
        reveal_strlit("`");
    }
    string_of(&out)
}

/// The reply text when a tool failed.
pub fn error_text(e: &str) -> (r: String)
    ensures
        r@ == "error: "@ + e@,
{
    let mut out = chars_of("error: ");
    crate::text::push_all(&mut out, &chars_of(e));
    string_of(&out)
}

} // verus!
