use minihttp::request::{head_expects_body, parse, Method, ParseError};

#[test]
fn test_get_parsed_request() {
    let request = vec!["GET / HTTP/1.1".to_string()];
    let parsed = parse(&request).unwrap();
    assert_eq!(parsed.route, "/");

    let request = vec!["GET /foo HTTP/1.1".to_string()];
    let parsed = parse(&request).unwrap();
    assert_eq!(parsed.route, "/foo");

    let request = vec!["GET /foo/bar HTTP/1.1".to_string()];
    let parsed = parse(&request).unwrap();
    assert_eq!(parsed.route, "/foo/bar");

    let request = vec!["GET /foo/bar?baz=qux HTTP/1.1".to_string()];
    let parsed = parse(&request).unwrap();
    assert_eq!(parsed.route, "/foo/bar");

    let request = vec![
        "GET /foo/bar?baz=qux HTTP/1.1".to_string(),
        "Host: localhost:7878".to_string(),
    ];
    let parsed = parse(&request).unwrap();
    assert_eq!(parsed.headers.get("Host").unwrap(), "localhost:7878");
}

#[test]
fn request_line_splits_route_and_query() {
    let request = vec!["GET /foo/bar?baz=qux HTTP/1.1".to_string()];
    let parsed = parse(&request).unwrap();
    assert_eq!(parsed.method, Method::GET);
    assert_eq!(parsed.route, "/foo/bar");
    assert_eq!(parsed.query, "baz=qux");
    assert_eq!(parsed.version, "HTTP/1.1");
}

#[test]
fn request_line_without_query_has_empty_query() {
    let request = vec!["DELETE /things/42 HTTP/1.0".to_string()];
    let parsed = parse(&request).unwrap();
    assert_eq!(parsed.method, Method::DELETE);
    assert_eq!(parsed.route, "/things/42");
    assert_eq!(parsed.query, "");
    assert_eq!(parsed.version, "HTTP/1.0");
}

#[test]
fn extra_whitespace_between_tokens_is_skipped() {
    let request = vec!["GET   /foo\t HTTP/1.1".to_string()];
    let parsed = parse(&request).unwrap();
    assert_eq!(parsed.route, "/foo");
    assert_eq!(parsed.version, "HTTP/1.1");
}

#[test]
fn host_header_keeps_colon_in_value() {
    let request = vec![
        "GET / HTTP/1.1".to_string(),
        "Host: localhost:7878".to_string(),
    ];
    let parsed = parse(&request).unwrap();
    assert_eq!(parsed.headers.get("Host").unwrap(), "localhost:7878");
}

#[test]
fn header_name_and_value_are_trimmed() {
    let request = vec![
        "GET / HTTP/1.1".to_string(),
        "  X-Token :   a:b:c   ".to_string(),
    ];
    let parsed = parse(&request).unwrap();
    assert_eq!(parsed.headers.get("X-Token").unwrap(), "a:b:c");
}

#[test]
fn lines_without_colon_or_starting_with_brace_are_skipped() {
    let request = vec![
        "GET / HTTP/1.1".to_string(),
        "no separator here".to_string(),
        "{\"stray\": \"fragment\"}".to_string(),
    ];
    let parsed = parse(&request).unwrap();
    assert_eq!(parsed.headers.len(), 0);
}

#[test]
fn repeated_header_name_last_write_wins() {
    let request = vec![
        "GET / HTTP/1.1".to_string(),
        "X: first".to_string(),
        "X: second".to_string(),
    ];
    let parsed = parse(&request).unwrap();
    assert_eq!(parsed.headers.get("X").unwrap(), "second");
    assert!(parsed.headers.get("x").is_none());
    assert_eq!(parsed.headers.len(), 1);
}

#[test]
fn repeated_header_name_keeps_map_keyed_by_name() {
    let request = vec![
        "GET / HTTP/1.1".to_string(),
        "X-K: one".to_string(),
        "X-K: two".to_string(),
    ];
    let parsed = parse(&request).unwrap();
    assert_eq!(parsed.headers.get("X-K"), Some(&"two".to_string()));
    assert_eq!(parsed.headers.len(), 1);
}

#[test]
fn vertical_tab_and_form_feed_separate_tokens() {
    let request = vec!["GET\u{b}/foo\u{c}HTTP/1.1".to_string()];
    let parsed = parse(&request).unwrap();
    assert_eq!(parsed.route, "/foo");
    assert_eq!(parsed.version, "HTTP/1.1");
}

#[test]
fn unknown_method_token_defaults_to_get() {
    let request = vec!["BREW /pot HTTP/1.1".to_string()];
    let parsed = parse(&request).unwrap();
    assert_eq!(parsed.method, Method::GET);

    let request = vec!["get / HTTP/1.1".to_string()];
    let parsed = parse(&request).unwrap();
    assert_eq!(parsed.method, Method::GET);
}

#[test]
fn known_method_tokens_are_recognized() {
    for (token, method) in [
        ("GET", Method::GET),
        ("POST", Method::POST),
        ("PUT", Method::PUT),
        ("DELETE", Method::DELETE),
    ] {
        let request = vec![format!("{token} / HTTP/1.1")];
        let parsed = parse(&request).unwrap();
        assert_eq!(parsed.method, method);
    }
}

#[test]
fn post_takes_trailing_brace_fragment_as_body() {
    let request = vec![
        "POST /submit HTTP/1.1".to_string(),
        "Host: localhost:7878".to_string(),
        "{\"a\":1}".to_string(),
    ];
    let parsed = parse(&request).unwrap();
    assert_eq!(parsed.method, Method::POST);
    assert_eq!(parsed.body, "{\"a\":1}");
}

#[test]
fn get_ignores_trailing_brace_fragment() {
    let request = vec![
        "GET /submit HTTP/1.1".to_string(),
        "{\"a\":1}".to_string(),
    ];
    let parsed = parse(&request).unwrap();
    assert_eq!(parsed.body, "");
}

#[test]
fn post_without_brace_fragment_has_empty_body() {
    let request = vec![
        "POST /submit HTTP/1.1".to_string(),
        "Host: localhost:7878".to_string(),
    ];
    let parsed = parse(&request).unwrap();
    assert_eq!(parsed.body, "");
}

#[test]
fn parsing_twice_yields_identical_requests() {
    let request = vec![
        "POST /a/b?c=d HTTP/1.1".to_string(),
        "Host: localhost:7878".to_string(),
        "X: 1".to_string(),
        "{\"k\":true}".to_string(),
    ];
    let first = parse(&request).unwrap();
    let second = parse(&request).unwrap();
    assert_eq!(first.method, second.method);
    assert_eq!(first.route, second.route);
    assert_eq!(first.version, second.version);
    assert_eq!(first.query, second.query);
    assert_eq!(first.body, second.body);
    assert_eq!(first.headers.len(), second.headers.len());
    assert_eq!(
        first.headers.get("Host").unwrap(),
        second.headers.get("Host").unwrap()
    );
    assert_eq!(first.headers.get("X").unwrap(), second.headers.get("X").unwrap());
}

#[test]
fn empty_input_degrades_instead_of_crashing() {
    let request: Vec<String> = vec![];
    let parsed = parse(&request).unwrap();
    assert_eq!(parsed.method, Method::GET);
    assert_eq!(parsed.route, "");
    assert_eq!(parsed.version, "");
    assert_eq!(parsed.query, "");
    assert_eq!(parsed.body, "");
    assert_eq!(parsed.headers.len(), 0);
}

#[test]
fn short_request_line_is_a_bad_request() {
    let request = vec!["GET /".to_string()];
    assert_eq!(parse(&request).unwrap_err(), ParseError::MalformedRequestLine);

    let request = vec!["".to_string()];
    assert_eq!(parse(&request).unwrap_err(), ParseError::MalformedRequestLine);

    let request = vec!["   ".to_string()];
    assert_eq!(parse(&request).unwrap_err(), ParseError::MalformedRequestLine);
}

#[test]
fn head_expects_body_only_for_post_mention() {
    let head = vec!["POST / HTTP/1.1".to_string()];
    assert!(head_expects_body(&head));

    let head = vec!["GET / HTTP/1.1".to_string()];
    assert!(!head_expects_body(&head));

    let head: Vec<String> = vec![];
    assert!(!head_expects_body(&head));
}
