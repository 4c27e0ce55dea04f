use http::headers::HeaderMap;
use http::httprequest::{
    has_request_parts, process_req_headers, process_req_line, HttpRequest, Method, Resource,
    Version,
};

#[test]
fn test_method_into() {
    let m: Method = "Get".into();
    assert_eq!(m, Method::Get);
}

#[test]
fn test_version_into() {
    let v: Version = "HTTP/1.1".into();
    assert_eq!(v, Version::V1_1);
}

#[test]
fn test_read_http() {
    let s = String::from("Get /greeting HTTP/1.1\r\nHost: localhost\r\nAccept: text/html\r\n\r\nthis is request body");
    let http_request: HttpRequest = HttpRequest::parse(s);

    let mut expected_headers = HeaderMap::new();
    expected_headers.insert("Host".into(), " localhost".into());
    expected_headers.insert(String::from("Accept"), String::from(" text/html"));

    assert_eq!(Method::Get, http_request.method);
    assert_eq!(
        Resource::Path("/greeting".to_string()),
        http_request.resource
    );
    assert_eq!(Version::V1_1, http_request.version);
    assert_eq!(expected_headers, http_request.headers);
}

#[test]
fn read_http_keeps_the_body() {
    let s = String::from("Get /greeting HTTP/1.1\r\nHost: localhost\r\nAccept: text/html\r\n\r\nthis is request body");
    let r = HttpRequest::parse(s);
    assert_eq!(r.msg_body, "this is request body");
}

#[test]
fn method_literals_are_case_sensitive() {
    assert_eq!(Method::from("Get"), Method::Get);
    assert_eq!(Method::from("Post"), Method::Post);
    assert_eq!(Method::from("GET"), Method::Uninitialized);
    assert_eq!(Method::from("get"), Method::Uninitialized);
    assert_eq!(Method::from("POST"), Method::Uninitialized);
    assert_eq!(Method::from(""), Method::Uninitialized);
    assert_eq!(Method::from("Get "), Method::Uninitialized);
}

#[test]
fn version_literals() {
    assert_eq!(Version::from("HTTP/1.1"), Version::V1_1);
    assert_eq!(Version::from("HTTP/2.0"), Version::V2_0);
    assert_eq!(Version::from("HTTP/1.0"), Version::Uninitialized);
    assert_eq!(Version::from("http/1.1"), Version::Uninitialized);
    assert_eq!(Version::from(""), Version::Uninitialized);
}

#[test]
fn request_line_is_read_by_tokens() {
    let (m, r, v) = process_req_line("Post   /a/b?c=d \t HTTP/2.0");
    assert_eq!(m, Method::Post);
    assert_eq!(r, Resource::Path("/a/b?c=d".to_string()));
    assert_eq!(v, Version::V2_0);
}

#[test]
fn request_line_ignores_what_follows_the_third_token() {
    let (m, r, v) = process_req_line("  Get / HTTP/1.1 and more");
    assert_eq!(m, Method::Get);
    assert_eq!(r, Resource::Path("/".to_string()));
    assert_eq!(v, Version::V1_1);
}

#[test]
fn request_line_splits_at_unicode_white_space() {
    let (m, r, v) = process_req_line("Get\u{a0}/x\u{3000}HTTP/1.1");
    assert_eq!(m, Method::Get);
    assert_eq!(r, Resource::Path("/x".to_string()));
    assert_eq!(v, Version::V1_1);
}

#[test]
fn request_line_with_unknown_tokens() {
    let (m, r, v) = process_req_line("Put /x HTTP/3");
    assert_eq!(m, Method::Uninitialized);
    assert_eq!(r, Resource::Path("/x".to_string()));
    assert_eq!(v, Version::Uninitialized);
}

#[test]
fn request_parts_are_counted() {
    assert!(has_request_parts("Get / HTTP/1.1"));
    assert!(has_request_parts("a b c d"));
    assert!(!has_request_parts("Get HTTP/1.1"));
    assert!(!has_request_parts("HTTP"));
    assert!(!has_request_parts(""));
    assert!(!has_request_parts("   \t "));
}

#[test]
fn header_line_splits_at_the_first_colon() {
    let (k, v) = process_req_headers("Host: localhost:8090");
    assert_eq!(k, "Host");
    assert_eq!(v, " localhost:8090");
}

#[test]
fn header_line_with_empty_value() {
    let (k, v) = process_req_headers("Key:");
    assert_eq!(k, "Key");
    assert_eq!(v, "");
}

#[test]
fn header_line_with_empty_name() {
    let (k, v) = process_req_headers(":value");
    assert_eq!(k, "");
    assert_eq!(v, "value");
}

#[test]
fn header_line_without_colon_is_all_name() {
    let (k, v) = process_req_headers("no colon here");
    assert_eq!(k, "no colon here");
    assert_eq!(v, "");
}

#[test]
fn header_value_keeps_its_white_space() {
    let (k, v) = process_req_headers("Accept:  text/html \t");
    assert_eq!(k, "Accept");
    assert_eq!(v, "  text/html \t");
}

#[test]
fn empty_input_gives_the_blank_request() {
    let r = HttpRequest::parse(String::new());
    assert_eq!(r.method, Method::Uninitialized);
    assert_eq!(r.resource, Resource::Path(String::new()));
    assert_eq!(r.version, Version::V1_1);
    assert_eq!(r.headers, HeaderMap::new());
    assert_eq!(r.msg_body, "");
}

#[test]
fn input_without_request_line_keeps_the_defaults() {
    let r = HttpRequest::parse("Host: a\n\nbody".to_string());
    assert_eq!(r.method, Method::Uninitialized);
    assert_eq!(r.resource, Resource::Path(String::new()));
    assert_eq!(r.version, Version::V1_1);
    assert_eq!(r.headers.get("Host"), Some(&" a".to_string()));
    assert_eq!(r.headers.len(), 1);
    assert_eq!(r.msg_body, "body");
}

#[test]
fn bare_line_feeds_end_lines_too() {
    let r = HttpRequest::parse("Post /p HTTP/2.0\nA:1\nB:2\n\npayload\n".to_string());
    assert_eq!(r.method, Method::Post);
    assert_eq!(r.resource, Resource::Path("/p".to_string()));
    assert_eq!(r.version, Version::V2_0);
    assert_eq!(r.headers.get("A"), Some(&"1".to_string()));
    assert_eq!(r.headers.get("B"), Some(&"2".to_string()));
    assert_eq!(r.headers.len(), 2);
    assert_eq!(r.msg_body, "payload");
}

#[test]
fn carriage_return_stays_where_no_line_feed_follows() {
    let r = HttpRequest::parse("first\r\nlast\r".to_string());
    assert_eq!(r.msg_body, "last\r");
    let r = HttpRequest::parse("a\rb\n".to_string());
    assert_eq!(r.msg_body, "a\rb");
}

#[test]
fn only_one_carriage_return_is_taken_off() {
    let r = HttpRequest::parse("K:v\r\r\n".to_string());
    assert_eq!(r.headers.get("K"), Some(&"v\r".to_string()));
}

#[test]
fn duplicate_header_last_one_wins() {
    let r = HttpRequest::parse("Get / HTTP/1.1\r\nX: 1\r\nY: 2\r\nX: 3\r\n\r\n".to_string());
    assert_eq!(r.headers.get("X"), Some(&" 3".to_string()));
    assert_eq!(r.headers.get("Y"), Some(&" 2".to_string()));
    assert_eq!(r.headers.len(), 2);
}

#[test]
fn header_after_the_body_is_still_a_header() {
    let r = HttpRequest::parse("Get / HTTP/1.1\r\n\r\nbody\r\nLate: yes".to_string());
    assert_eq!(r.headers.get("Late"), Some(&" yes".to_string()));
    assert_eq!(r.msg_body, "body");
}

#[test]
fn last_body_line_is_the_body() {
    let r = HttpRequest::parse("Get / HTTP/1.1\r\n\r\none\r\ntwo\r\nthree".to_string());
    assert_eq!(r.msg_body, "three");
}

#[test]
fn last_request_line_counts() {
    let r = HttpRequest::parse("Get /a HTTP/1.1\nPost /b HTTP/2.0\n".to_string());
    assert_eq!(r.method, Method::Post);
    assert_eq!(r.resource, Resource::Path("/b".to_string()));
    assert_eq!(r.version, Version::V2_0);
}

#[test]
fn line_with_marker_and_colon_is_a_request_line() {
    let r = HttpRequest::parse("Get http://h:80/ HTTP/1.1\r\n".to_string());
    assert_eq!(r.method, Method::Get);
    assert_eq!(r.resource, Resource::Path("http://h:80/".to_string()));
    assert_eq!(r.version, Version::V1_1);
    assert_eq!(r.headers.len(), 0);
}

#[test]
fn marker_is_case_sensitive() {
    let r = HttpRequest::parse("Get / http/1.1\r\n".to_string());
    assert_eq!(r.method, Method::Uninitialized);
    assert_eq!(r.msg_body, "Get / http/1.1");
}

#[test]
fn request_line_is_independent_of_headers_and_body() {
    let a = HttpRequest::parse("Get /x HTTP/1.1\r\n".to_string());
    let b = HttpRequest::parse("A: 1\r\nGet /x HTTP/1.1\r\nB: 2\r\n\r\nbody".to_string());
    assert_eq!(a.method, b.method);
    assert_eq!(a.resource, b.resource);
    assert_eq!(a.version, b.version);
    assert_eq!(b.method, Method::Get);
    assert_eq!(b.resource, Resource::Path("/x".to_string()));
}

#[test]
fn try_parse_accepts_what_parse_accepts() {
    let s = "Get /greeting HTTP/1.1\r\nHost: localhost\r\n\r\nbody";
    let a = HttpRequest::try_parse(s.to_string());
    let b = HttpRequest::parse(s.to_string());
    assert_eq!(a, Some(b));
}

#[test]
fn try_parse_refuses_a_short_request_line() {
    assert_eq!(HttpRequest::try_parse("Get HTTP/1.1\r\n".to_string()), None);
    assert_eq!(HttpRequest::try_parse("HTTP".to_string()), None);
    assert_eq!(HttpRequest::try_parse("Get / HTTP/1.1\r\nX-HTTP:1\r\n".to_string()), None);
    assert_eq!(HttpRequest::try_parse("Host: a\r\n/HTTP/ x\r\n".to_string()), None);
}

#[test]
fn text_beyond_ascii_is_kept() {
    let r = HttpRequest::parse("Get /caf\u{e9} HTTP/1.1\r\nN\u{e4}me: w\u{e9}rt\r\n\r\n\u{4f60}\u{597d}".to_string());
    assert_eq!(r.resource, Resource::Path("/caf\u{e9}".to_string()));
    assert_eq!(r.headers.get("N\u{e4}me"), Some(&" w\u{e9}rt".to_string()));
    assert_eq!(r.msg_body, "\u{4f60}\u{597d}");
}
