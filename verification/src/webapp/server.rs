//! The routes of the first version's server.

use crate::server::http::{routes_well_formed, Endpoint, Route};
use vstd::prelude::*;

verus! {

/// The routes of the server: `/` to the root page, `/health` to the health
/// check.
pub fn routes() -> (r: Vec<Route>)
    ensures
        r@.len() == 2,
        r@[0].path@ == "/"@,
        r@[0].endpoint == Endpoint::Root,
        r@[1].path@ == "/health"@,
        r@[1].endpoint == Endpoint::Health,
        routes_well_formed(r@),
{
    let r = vec![
        Route { path: "/", endpoint: Endpoint::Root },
        Route { path: "/health", endpoint: Endpoint::Health },
    ];
    proof {
        reveal_strlit("/");
        reveal_strlit("/health");
        assert(r@[0].path@.len() != r@[1].path@.len());
        assert(r@[0].path@[0] == '/' && r@[1].path@[0] == '/');
    }
    r
}

}
