//! Framework route plugins: each reads one source file's text and reports the
//! routes it declares. The core stays unaware of the frameworks.

pub mod express;
pub mod next;

use vstd::prelude::*;
use crate::model::{RouteFact, RouteFactV};
use crate::plugins::express::{express_routes, ExpressPlugin};
use crate::plugins::next::{next_routes, NextPlugin};

verus! {

/// A framework route plugin: the routes one source file declares.
pub trait RoutePlugin {
    fn routes(&self, path: &str, src: &str) -> Vec<RouteFact>;
}

pub open spec fn route_views(v: Seq<RouteFact>) -> Seq<RouteFactV> {
    v.map_values(|r: RouteFact| r@)
}

/// Every plugin's routes for one file: Express first, then Next.
pub fn collect(path: &str, src: &str) -> (r: Vec<RouteFact>)
    ensures
        route_views(r@) == express_routes(path@, src@) + next_routes(path@, src@),
{
    let mut a = ExpressPlugin.routes(path, src);
    let mut b = NextPlugin.routes(path, src);
    let ghost av = route_views(a@);
    let ghost bv = route_views(b@);
    a.append(&mut b);
    assert(route_views(a@) =~= av + bv);
    a
}

} // verus!
