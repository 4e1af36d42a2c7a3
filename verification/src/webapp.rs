//! The first version of the web service: one route, on a fixed address.

pub mod route_handler;
pub mod server;

use crate::address::{law_socket_parse_text, socket_text, Ipv4Address, SocketAddress};
use crate::server::http::{routes_well_formed, Endpoint, Route};
use vstd::prelude::*;

verus! {

/// The address that `boostrap` listens on: 127.0.0.1 port 3000.
pub fn bootstrap_address() -> (r: SocketAddress)
    ensures
        r.ip.octets[0] == 127,
        r.ip.octets[1] == 0,
        r.ip.octets[2] == 0,
        r.ip.octets[3] == 1,
        r.port == 3000,
{
    let text = "127.0.0.1:3000";
    proof {
        reveal_strlit("127.0.0.1:3000");
        let a = SocketAddress { ip: Ipv4Address { octets: [127u8, 0u8, 0u8, 1u8] }, port: 3000 };
        reveal_with_fuel(crate::address::decimal_text, 4);
        assert(socket_text(a) =~= text@);
        law_socket_parse_text(a);
    }
    SocketAddress::parse(text).unwrap()
}

/// The routes that `boostrap` serves: `/` to the root page.
pub fn routes() -> (r: Vec<Route>)
    ensures
        r@.len() == 1,
        r@[0].path@ == "/"@,
        r@[0].endpoint == Endpoint::Root,
        routes_well_formed(r@),
{
    let r = vec![Route { path: "/", endpoint: Endpoint::Root }];
    proof {
        reveal_strlit("/");
    }
    r
}

}
