use zero2prod::address::{Ipv4Address, SocketAddress};
use zero2prod::app::application::Application;

#[test]
fn default_listens_on_loopback_8080() {
    let app = Application::default();
    assert_eq!(app.bind(), SocketAddress::new(Ipv4Address::new(127, 0, 0, 1), 8080));
    assert_eq!(app.bind().to_string(), "127.0.0.1:8080");
}

#[test]
fn new_is_default() {
    let app = Application::new();
    assert_eq!(app.bind(), Application::default().bind());
    let shown = format!("{app:?}");
    assert!(shown.contains("\"zero2prod\""), "{shown}");
    assert!(shown.contains("\"0.1.0\""), "{shown}");
    assert!(shown.contains("\"A simple web application\""), "{shown}");
}

#[test]
fn builders_set_ip_and_port() {
    let ip = Ipv4Address::new(127, 0, 0, 0);
    let app = Application::default().ip(ip).port(8000);
    assert_eq!(app.bind(), SocketAddress::new(ip, 8000));
}

#[test]
fn port_keeps_ip_and_ip_keeps_port() {
    let app = Application::default().port(1);
    assert_eq!(app.bind(), SocketAddress::new(Ipv4Address::new(127, 0, 0, 1), 1));
    let app = Application::default().ip(Ipv4Address::new(10, 1, 2, 3));
    assert_eq!(app.bind(), SocketAddress::new(Ipv4Address::new(10, 1, 2, 3), 8080));
    let shown = format!("{app:?}");
    assert!(shown.contains("\"zero2prod\""), "{shown}");
}

#[test]
fn host_text_reaches_the_bind_address() {
    let ip = Ipv4Address::parse("127.0.0.0").unwrap();
    let app = Application::default().ip(ip).port(8000);
    assert_eq!(app.bind().to_string(), "127.0.0.0:8000");
}
