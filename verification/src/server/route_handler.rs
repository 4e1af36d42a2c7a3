//! Route handlers.

use vstd::prelude::*;

verus! {

/// The reply of the health check: status, headers, body.
pub type HealthReply = (u16, [(&'static str, &'static str); 1], &'static str);

/// The health check endpoint: status 200 OK, a `Content-Type: text/plain`
/// header, and the body `Healthy`, whenever the service runs.
pub fn health_check() -> (r: HealthReply)
    ensures
        r.0 == 200,
        r.1[0].0@ == "Content-Type"@,
        r.1[0].1@ == "text/plain"@,
        r.2@ == "Healthy"@,
{
    (200, [("Content-Type", "text/plain")], "Healthy")
}

}
