use zero2prod::address::{Ipv4Address, SocketAddress};

fn ip(a: u8, b: u8, c: u8, d: u8) -> Ipv4Address {
    Ipv4Address::new(a, b, c, d)
}

#[test]
fn ipv4_parses_dotted_decimal() {
    assert_eq!(Ipv4Address::parse("127.0.0.1"), Some(ip(127, 0, 0, 1)));
    assert_eq!(Ipv4Address::parse("0.0.0.0"), Some(ip(0, 0, 0, 0)));
    assert_eq!(Ipv4Address::parse("255.255.255.255"), Some(ip(255, 255, 255, 255)));
    assert_eq!(Ipv4Address::parse("83.164.160.102"), Some(ip(83, 164, 160, 102)));
    assert_eq!(Ipv4Address::parse("127.0.0.0"), Some(ip(127, 0, 0, 0)));
}

#[test]
fn ipv4_rejects_malformed_text() {
    for text in [
        "", "1", "1.2.3", "1.2.3.4.5", "1.2.3.4.", ".1.2.3.4", "1..2.3", "256.0.0.1",
        "1.2.3.256", "01.2.3.4", "1.2.3.04", "00.0.0.0", "1.2.3.0004", "1234.1.1.1",
        " 1.2.3.4", "1.2.3.4 ", "1.2.3.a", "+1.2.3.4", "1.2.3.4:80", "::1", "１.2.3.4",
        "1.2.3.-4", "999.999.999.999",
    ] {
        assert_eq!(Ipv4Address::parse(text), None, "{text:?}");
    }
}

#[test]
fn ipv4_octets_in_order() {
    assert_eq!(ip(10, 20, 30, 40).octets(), [10, 20, 30, 40]);
}

#[test]
fn ipv4_text_has_no_leading_zeros() {
    assert_eq!(ip(127, 0, 0, 1).to_string(), "127.0.0.1");
    assert_eq!(ip(0, 0, 0, 0).to_string(), "0.0.0.0");
    assert_eq!(ip(255, 10, 9, 100).to_string(), "255.10.9.100");
}

#[test]
fn ipv4_parse_of_text_round_trips() {
    for a in [0u8, 1, 9, 10, 99, 100, 127, 200, 255] {
        for b in [0u8, 7, 42, 255] {
            let addr = ip(a, b, b, a);
            assert_eq!(Ipv4Address::parse(&addr.to_string()), Some(addr));
        }
    }
}

#[test]
fn socket_parses_address_and_port() {
    assert_eq!(
        SocketAddress::parse("127.0.0.1:3000"),
        Some(SocketAddress::new(ip(127, 0, 0, 1), 3000))
    );
    assert_eq!(
        SocketAddress::parse("0.0.0.0:0"),
        Some(SocketAddress::new(ip(0, 0, 0, 0), 0))
    );
    assert_eq!(
        SocketAddress::parse("1.2.3.4:65535"),
        Some(SocketAddress::new(ip(1, 2, 3, 4), 65535))
    );
    // The port may carry leading zeros.
    assert_eq!(
        SocketAddress::parse("1.2.3.4:0080"),
        Some(SocketAddress::new(ip(1, 2, 3, 4), 80))
    );
}

#[test]
fn socket_rejects_malformed_text() {
    for text in [
        "", "127.0.0.1", "127.0.0.1:", ":80", "127.0.0.1:65536", "127.0.0.1:99999999999",
        "127.0.0.1:8o", "127.0.0.1:-1", "127.0.0.1:+80", "127.0.0.1::80", "127.0.0.01:80",
        "127.0.0:80", "[::1]:80", "127.0.0.1:80 ", "127.0.0.1.80",
    ] {
        assert_eq!(SocketAddress::parse(text), None, "{text:?}");
    }
}

#[test]
fn socket_text_and_fields() {
    let addr = SocketAddress::new(ip(127, 0, 0, 1), 8080);
    assert_eq!(addr.to_string(), "127.0.0.1:8080");
    assert_eq!(addr.ip(), ip(127, 0, 0, 1));
    assert_eq!(addr.port(), 8080);
    assert_eq!(SocketAddress::new(ip(10, 0, 0, 1), 0).to_string(), "10.0.0.1:0");
}

#[test]
fn socket_parse_of_text_round_trips() {
    for port in [0u16, 1, 9, 10, 80, 443, 3000, 8080, 9999, 10000, 65535] {
        let addr = SocketAddress::new(ip(192, 168, 1, 20), port);
        assert_eq!(SocketAddress::parse(&addr.to_string()), Some(addr));
    }
}

#[test]
fn ipv4_from_octets_and_bits() {
    assert_eq!(Ipv4Address::from_octets([127, 0, 0, 1]), ip(127, 0, 0, 1));
    assert_eq!(Ipv4Address::from_bits(0x7f00_0001), ip(127, 0, 0, 1));
    assert_eq!(Ipv4Address::from_bits(0), ip(0, 0, 0, 0));
    assert_eq!(Ipv4Address::from_bits(u32::MAX), ip(255, 255, 255, 255));
    assert_eq!(Ipv4Address::from_bits(0x0102_0304), ip(1, 2, 3, 4));
}
