use web_server::http::{
    not_found_response, ok_response, parse_request_path, route_request, usize_to_string,
    RouteDecision,
};
use web_server::router::Router;

#[test]
fn test_parse_request_path() {
    assert_eq!(parse_request_path("GET / HTTP/1.1").unwrap(), "/");
    assert_eq!(parse_request_path("GET /about HTTP/1.1").unwrap(), "/about");
    assert_eq!(parse_request_path("POST /x HTTP/1.0").unwrap(), "/x");
}

#[test]
fn test_parse_request_path_extra_whitespace() {
    assert_eq!(parse_request_path("  GET   /a  HTTP/1.1").unwrap(), "/a");
}

#[test]
fn test_parse_request_path_malformed() {
    assert!(parse_request_path("").is_none());
    assert!(parse_request_path("GET").is_none());
    assert!(parse_request_path("   GET   ").is_none());
}

#[test]
fn test_usize_to_string() {
    assert_eq!(usize_to_string(0), "0");
    assert_eq!(usize_to_string(7), "7");
    assert_eq!(usize_to_string(42), "42");
    assert_eq!(usize_to_string(1203), "1203");
}

#[test]
fn test_ok_response_exact_bytes() {
    assert_eq!(ok_response("hi"), "HTTP/1.1 200 OK\r\nContent-Length: 2\r\n\r\nhi");
}

#[test]
fn test_ok_response_about() {
    let r = ok_response("about");
    assert!(r.starts_with("HTTP/1.1 200 OK\r\n"));
    assert!(r.contains("Content-Length: 5\r\n"));
    assert!(r.ends_with("\r\n\r\nabout"));
}

#[test]
fn test_ok_response_counts_bytes_not_chars() {
    // a two-byte UTF-8 character: the header counts bytes
    let r = ok_response("é");
    assert_eq!(r, format!("HTTP/1.1 200 OK\r\nContent-Length: 2\r\n\r\né"));
}

#[test]
fn test_not_found_response_exact_bytes() {
    assert_eq!(not_found_response(), "HTTP/1.1 404 NOT FOUND\r\n\r\n");
}

#[test]
fn test_route_request_serves_root() {
    let files = vec![String::from("pages/index.html")];
    let router = Router::new(&files);
    match route_request(&router, "GET / HTTP/1.1") {
        RouteDecision::Serve(path) => assert_eq!(path, "pages/index.html"),
        _ => panic!("expected a hit for /"),
    }
}

#[test]
fn test_route_request_serves_nested_index() {
    let files = vec![String::from("pages/a/index.html")];
    let router = Router::new(&files);
    match route_request(&router, "GET /a HTTP/1.1") {
        RouteDecision::Serve(path) => assert_eq!(path, "pages/a/index.html"),
        _ => panic!("expected a hit for /a"),
    }
}

#[test]
fn test_route_request_miss() {
    let files = vec![String::from("pages/index.html")];
    let router = Router::new(&files);
    match route_request(&router, "GET /missing HTTP/1.1") {
        RouteDecision::NotFound => {}
        _ => panic!("expected a miss for /missing"),
    }
}

#[test]
fn test_route_request_malformed_line() {
    let files = vec![String::from("pages/index.html")];
    let router = Router::new(&files);
    match route_request(&router, "GET") {
        RouteDecision::BadRequest => {}
        _ => panic!("expected a malformed request line to be rejected"),
    }
}
