use zero2prod::server::http::{root, routes, Endpoint};
use zero2prod::server::route_handler::health_check;
use zero2prod::webapp;

#[test]
fn root_says_hello() {
    assert_eq!(root(), "Hello, World!");
}

#[test]
fn health_check_is_ok_plain_text() {
    let (status, headers, body) = health_check();
    assert_eq!(status, 200);
    assert_eq!(headers, [("Content-Type", "text/plain")]);
    assert_eq!(body, "Healthy");
}

#[test]
fn first_version_health_check_is_the_same() {
    assert_eq!(webapp::route_handler::health_check(), health_check());
}

#[test]
fn service_routes() {
    let r = routes();
    assert_eq!(r.len(), 2);
    assert_eq!((r[0].path, r[0].endpoint), ("/", Endpoint::Root));
    assert_eq!((r[1].path, r[1].endpoint), ("/health", Endpoint::Health));
}

#[test]
fn first_version_routes() {
    let r = webapp::server::routes();
    assert_eq!(r.len(), 2);
    assert_eq!((r[0].path, r[0].endpoint), ("/", Endpoint::Root));
    assert_eq!((r[1].path, r[1].endpoint), ("/health", Endpoint::Health));
    let r = webapp::routes();
    assert_eq!(r.len(), 1);
    assert_eq!((r[0].path, r[0].endpoint), ("/", Endpoint::Root));
}

#[test]
fn routes_are_distinct_and_absolute() {
    for table in [routes(), webapp::server::routes(), webapp::routes()] {
        for (i, a) in table.iter().enumerate() {
            assert!(a.path.starts_with('/'));
            for b in &table[i + 1..] {
                assert_ne!(a.path, b.path);
            }
        }
    }
}

#[test]
fn bootstrap_listens_on_loopback_3000() {
    assert_eq!(webapp::bootstrap_address().to_string(), "127.0.0.1:3000");
}

#[test]
fn request_id_header_is_lowercase() {
    let name = zero2prod::server::http::request_id_header();
    assert_eq!(name, "x-request-id");
    assert!(name.bytes().all(|b| b.is_ascii_lowercase() || b == b'-'));
}
