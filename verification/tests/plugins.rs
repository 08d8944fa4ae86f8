use codescratch::plugins::express::ExpressPlugin;
use codescratch::plugins::next::{file_to_route, NextPlugin};
use codescratch::plugins::{collect, RoutePlugin};

#[test]
fn extracts_app_get() {
    let src = r#"
import express from "express";
const app = express();
function listUsers(req, res) { res.send(1); }
app.get('/users', listUsers);
app.post("/users/:id", (req, res) => {});
"#;
    let rs = ExpressPlugin.routes("src/app.ts", src);
    assert!(rs.iter().any(|r| r.method == "GET" && r.path == "/users"));
    assert!(rs.iter().any(|r| r.method == "POST" && r.path == "/users/:id"));
}

#[test]
fn app_page_becomes_get_route() {
    let rs = NextPlugin.routes("src/app/users/[id]/page.tsx", "export default function Page() {}");
    assert_eq!(rs.len(), 1);
    assert_eq!(rs[0].method, "GET");
    assert_eq!(rs[0].path, "/users/:id");
}

#[test]
fn route_ts_exports_verbs() {
    let src = "export async function GET() {}\nexport async function POST() {}";
    let rs = NextPlugin.routes("app/api/hello/route.ts", src);
    assert!(rs.iter().any(|r| r.method == "GET" && r.path == "/api/hello"));
    assert!(rs.iter().any(|r| r.method == "POST"));
}

#[test]
fn express_route_fields_are_exact() {
    let src = "  router.delete(`/x`, ctrl.remove)\nfoo.get = 1\n.get('/nope', h)\napp.use(\"/m\", async (req) => {})";
    let rs = ExpressPlugin.routes("r.ts", src);
    assert_eq!(rs.len(), 2);
    assert_eq!(rs[0].method, "DELETE");
    assert_eq!(rs[0].path, "/x");
    assert_eq!(rs[0].handler_id, "r.ts#remove@1");
    assert_eq!(rs[0].line, 1);
    assert_eq!(rs[1].method, "USE");
    assert_eq!(rs[1].handler_id, "r.ts#<anon>@4");
}

#[test]
fn next_routes_skip_groups_and_map_catch_all() {
    assert_eq!(file_to_route("app/(shop)/@modal/docs/[...slug]/page.tsx").as_deref(), Some("/docs/:slug*"));
    assert_eq!(file_to_route("app/page.tsx").as_deref(), Some("/"));
    assert_eq!(file_to_route("src\\app\\a\\page.js").as_deref(), Some("/a"));
    assert_eq!(file_to_route("lib/page.tsx"), None);
    assert_eq!(file_to_route("app/a/layout.tsx"), None);
    let rs = NextPlugin.routes("app/page.tsx", "const x = 1;\nconst Page = () => 1");
    assert_eq!(rs[0].handler_id, "app/page.tsx#Page@2");
    let rs = NextPlugin.routes("app/page.tsx", "");
    assert_eq!(rs[0].handler_id, "app/page.tsx#<module>");
}

#[test]
fn collect_runs_both_plugins_in_order() {
    let src = "export const GET = 1;\napp.get('/e', h);";
    let rs = collect("app/x/route.ts", src);
    assert_eq!(rs.len(), 2);
    assert_eq!(rs[0].method, "GET");
    assert_eq!(rs[0].path, "/e");
    assert_eq!(rs[1].method, "GET");
    assert_eq!(rs[1].path, "/x");
    assert_eq!(rs[1].handler_id, "app/x/route.ts#GET@1");
}
