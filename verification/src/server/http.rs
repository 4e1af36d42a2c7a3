//! The routes of the HTTP service, and the reply of its root.

use vstd::prelude::*;

verus! {

/// The handlers that routes lead to.
#[derive(Clone, Copy, Debug, PartialEq, Eq)]
pub enum Endpoint {
    /// The root page, answered by `root`.
    Root,
    /// The health check, answered by `health_check`.
    Health,
}

/// A route: requests with the method GET on `path` go to `endpoint`.
#[derive(Clone, Copy, Debug)]
pub struct Route {
    pub path: &'static str,
    pub endpoint: Endpoint,
}

/// The paths of `routes` all begin with `/`, and no two are the same: a
/// router accepts each of them once.
pub open spec fn routes_well_formed(routes: Seq<Route>) -> bool {
    &&& forall|i: int|
        0 <= i < routes.len() ==> #[trigger] routes[i].path@.len() > 0 && routes[i].path@[0]
            == '/'
    &&& forall|i: int, j: int|
        0 <= i < j < routes.len() ==> #[trigger] routes[i].path@ != #[trigger] routes[j].path@
}

/// A character that a header name may hold when it is given as a static
/// string: a lowercase ASCII letter, a digit, or one of ``!"#$%&'*+-.^_`|~``.
pub open spec fn is_static_header_name_char(c: char) -> bool {
    ||| 'a' <= c && c <= 'z'
    ||| '0' <= c && c <= '9'
    ||| c == '!' || c == '"' || c == '#' || c == '$' || c == '%' || c == '&' || c == '\''
    ||| c == '*' || c == '+' || c == '-' || c == '.' || c == '^' || c == '_' || c == '`'
    ||| c == '|' || c == '~'
}

/// `s` is a valid header name in lowercase: one character or more, fewer
/// than 65536, each a header-name character.
pub open spec fn is_static_header_name(s: Seq<char>) -> bool {
    &&& 0 < s.len() < 65536
    &&& forall|i: int| 0 <= i < s.len() ==> is_static_header_name_char(#[trigger] s[i])
}

/// The name of the request-id header that the service passes from request to
/// response: `x-request-id`, in the lowercase form that a header name made
/// from a static string must take.
pub fn request_id_header() -> (r: &'static str)
    ensures
        r@ == "x-request-id"@,
        is_static_header_name(r@),
{
    let r = "x-request-id";
    proof {
        reveal_strlit("x-request-id");
    }
    r
}

/// The reply of the root page: the text `Hello, World!`.
pub fn root() -> (r: &'static str)
    ensures
        r@ == "Hello, World!"@,
{
    "Hello, World!"
}

/// The routes of the service: `/` to the root page, `/health` to the health
/// check.
pub fn routes() -> (r: Vec<Route>)
    ensures
        r@.len() == 2,
        r@[0].path@ == "/"@,
        r@[0].endpoint == Endpoint::Root,
        r@[1].path@ == "/health"@,
        r@[1].endpoint == Endpoint::Health,
        routes_well_formed(r@),
{
    let r = vec![
        Route { path: "/", endpoint: Endpoint::Root },
        Route { path: "/health", endpoint: Endpoint::Health },
    ];
    proof {
        reveal_strlit("/");
        reveal_strlit("/health");
        assert(r@[0].path@.len() != r@[1].path@.len());
        assert(r@[0].path@[0] == '/' && r@[1].path@[0] == '/');
    }
    r
}

}
