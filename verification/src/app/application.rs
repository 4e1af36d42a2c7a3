//! The application's settings: what it is called, and where it listens.

use crate::address::{ipv4_text, law_ipv4_parse_text, Ipv4Address, SocketAddress};
use vstd::prelude::*;

verus! {

/// The settings of the service: its name, version and description, and the
/// IPv4 address and port that it listens on.
#[derive(Debug)]
pub struct Application {
    name: String,
    version: String,
    description: String,
    ip: Ipv4Address,
    port: u16,
}

/// What an `Application` holds, as mathematical values.
pub ghost struct ApplicationView {
    pub name: Seq<char>,
    pub version: Seq<char>,
    pub description: Seq<char>,
    pub ip: Ipv4Address,
    pub port: u16,
}

impl View for Application {
    type V = ApplicationView;

    closed spec fn view(&self) -> ApplicationView {
        ApplicationView {
            name: self.name@,
            version: self.version@,
            description: self.description@,
            ip: self.ip,
            port: self.port,
        }
    }
}

/// The settings of a new application: the service `zero2prod`, version
/// `0.1.0`, listening on 127.0.0.1 port 8080.
pub open spec fn is_default_application(v: ApplicationView) -> bool {
    &&& v.name == "zero2prod"@
    &&& v.version == "0.1.0"@
    &&& v.description == "A simple web application"@
    &&& v.ip.octets[0] == 127
    &&& v.ip.octets[1] == 0
    &&& v.ip.octets[2] == 0
    &&& v.ip.octets[3] == 1
    &&& v.port == 8080
}

impl Application {
    /// An application with the default settings.
    pub fn new() -> (r: Application)
        ensures
            is_default_application(r@),
    {
        Application::default()
    }

    /// The same settings, listening on `ip`.
    pub fn ip(self, ip: Ipv4Address) -> (r: Application)
        ensures
            r@ == (ApplicationView { ip, ..self@ }),
    {
        let mut app = self;
        app.ip = ip;
        app
    }

    /// The same settings, listening on `port`.
    pub fn port(self, port: u16) -> (r: Application)
        ensures
            r@ == (ApplicationView { port, ..self@ }),
    {
        let mut app = self;
        app.port = port;
        app
    }

    /// The socket address to listen on: the settings' IP address and port.
    pub fn bind(&self) -> (r: SocketAddress)
        ensures
            r.ip == self@.ip,
            r.port == self@.port,
    {
        SocketAddress::new(self.ip, self.port)
    }
}

impl Default for Application {
    fn default() -> (r: Application)
        ensures
            is_default_application(r@),
    {
        let text = "127.0.0.1";
        proof {
            reveal_strlit("127.0.0.1");
            let lo = Ipv4Address { octets: [127u8, 0u8, 0u8, 1u8] };
            reveal_with_fuel(crate::address::decimal_text, 3);
            assert(ipv4_text(lo) =~= text@);
            law_ipv4_parse_text(lo);
        }
        let ip = Ipv4Address::parse(text).unwrap();
        let name = String::from_str("zero2prod");
        let version = String::from_str("0.1.0");
        let description = String::from_str("A simple web application");
        Application { name, version, description, ip, port: 8080 }
    }
}

}
