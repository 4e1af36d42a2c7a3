//! Route handlers of the first version.

use crate::server::route_handler::HealthReply;
use vstd::prelude::*;

verus! {

/// The health check endpoint: status 200 OK, a `Content-Type: text/plain`
/// header, and the body `Healthy`.
pub fn health_check() -> (r: HealthReply)
    ensures
        r.0 == 200,
        r.1[0].0@ == "Content-Type"@,
        r.1[0].1@ == "text/plain"@,
        r.2@ == "Healthy"@,
{
    (200, [("Content-Type", "text/plain")], "Healthy")
}

}
