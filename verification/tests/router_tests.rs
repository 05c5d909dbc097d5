use minihttp::request::parse;
use minihttp::router::{body_from_read, build_response, dispatch, Resource, Router};
use minihttp::text::usize_to_string;

#[test]
fn registered_route_serves_index_with_exact_content_length() {
    let router = Router::default_table();
    let request = vec!["GET / HTTP/1.1".to_string()];
    let parsed = parse(&request);
    let decision = dispatch(&router, &parsed);
    assert_eq!(decision.status, "HTTP/1.1 200 OK ");
    assert_eq!(decision.resource, Some(Resource::IndexPage));

    let content = "<html><body>hi</body></html>".to_string();
    let body = body_from_read(Some(content.clone()));
    assert_eq!(body, content);
    let response = build_response(decision.status.as_str(), body.as_str());
    assert_eq!(
        response,
        "HTTP/1.1 200 OK \r\nContent-Length: 28\r\n\r\n<html><body>hi</body></html>"
    );
}

#[test]
fn unregistered_route_serves_not_found_page() {
    let router = Router::default_table();
    let request = vec!["GET /missing HTTP/1.1".to_string()];
    let parsed = parse(&request);
    let decision = dispatch(&router, &parsed);
    assert_eq!(decision.status, "HTTP/1.1 404 Not Found ");
    assert_eq!(decision.resource, Some(Resource::NotFoundPage));

    let body = body_from_read(Some("gone".to_string()));
    let response = build_response(decision.status.as_str(), body.as_str());
    assert_eq!(response, "HTTP/1.1 404 Not Found \r\nContent-Length: 4\r\n\r\ngone");
}

#[test]
fn malformed_request_line_answers_bad_request() {
    let router = Router::default_table();
    let request = vec!["GET /".to_string()];
    let parsed = parse(&request);
    let decision = dispatch(&router, &parsed);
    assert_eq!(decision.status, "HTTP/1.1 400 Bad Request ");
    assert_eq!(decision.resource, None);

    let body = body_from_read(None);
    let response = build_response(decision.status.as_str(), body.as_str());
    assert_eq!(response, "HTTP/1.1 400 Bad Request \r\nContent-Length: 0\r\n\r\n");
}

#[test]
fn empty_input_routes_to_not_found() {
    let router = Router::default_table();
    let request: Vec<String> = vec![];
    let parsed = parse(&request);
    assert!(parsed.is_ok());
    let decision = dispatch(&router, &parsed);
    assert_eq!(decision.status, "HTTP/1.1 404 Not Found ");
    assert_eq!(decision.resource, Some(Resource::NotFoundPage));
}

#[test]
fn lookup_is_exact_match_only() {
    let router = Router::default_table();
    assert_eq!(router.lookup("/"), Some(Resource::IndexPage));
    assert_eq!(router.lookup(""), None);
    assert_eq!(router.lookup("//"), None);
    assert_eq!(router.lookup("/index"), None);
}

#[test]
fn later_registration_of_same_route_wins() {
    let mut router = Router::new();
    router.register("/".to_string(), Resource::IndexPage);
    router.register("/".to_string(), Resource::NotFoundPage);
    assert_eq!(router.lookup("/"), Some(Resource::NotFoundPage));
}

#[test]
fn failed_resource_read_degrades_to_empty_body() {
    assert_eq!(body_from_read(None), "");
    assert_eq!(body_from_read(Some("kept".to_string())), "kept");
}

#[test]
fn content_length_counts_bytes_not_characters() {
    let response = build_response("HTTP/1.1 200 OK ", "h\u{e9}llo");
    assert_eq!(response, "HTTP/1.1 200 OK \r\nContent-Length: 6\r\n\r\nh\u{e9}llo");
}

#[test]
fn decimal_formatting_is_exact() {
    assert_eq!(usize_to_string(0), "0");
    assert_eq!(usize_to_string(7), "7");
    assert_eq!(usize_to_string(10), "10");
    assert_eq!(usize_to_string(42), "42");
    assert_eq!(usize_to_string(100), "100");
    assert_eq!(usize_to_string(12345), "12345");
}
