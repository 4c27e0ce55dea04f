use http::headers::HeaderMap;
use http::httpresponse::HttpResponse;

#[test]
fn test_response_struct_creation_200() {
    let actual_resp = HttpResponse::new("200", None, Some("xxx".into()));
    let expected_resp = HttpResponse {
        status_code: "200",
        status_text: "OK",
        version: "HTTP/1.1",
        headers: {
            let mut hd = HeaderMap::new();
            hd.insert("Content-Type".into(), "text/html".into());
            Some(hd)
        },
        body: Some("xxx".into()),
    };
    assert_eq!(actual_resp, expected_resp);
}

#[test]
fn test_response_struct_creation_404() {
    let response_actual = HttpResponse::new("404", None, Some("yyyy".into()));
    let response_expected = HttpResponse {
        status_code: "404",
        status_text: "Not Found",
        version: "HTTP/1.1",
        headers: {
            let mut hd = HeaderMap::new();
            hd.insert("Content-Type".into(), "text/html".into());
            Some(hd)
        },
        body: Some("yyyy".into()),
    };
    assert_eq!(response_actual, response_expected);
}

#[test]
fn test_response_creation() {
    let expected_response = HttpResponse {
        version: "HTTP/1.1",
        status_code: "200",
        status_text: "OK",
        headers: {
            let mut hd = HeaderMap::new();
            hd.insert("Content-Type".into(), " application/json".into());
            hd.insert("Host".into(), " localhost".into());
            hd.insert("Cookie".into(), " name=linhuadong".into());
            Some(hd)
        },
        body: Some("this is a json response".into()),
    };
    let expected_response_string = "HTTP/1.1 200 OK\r\n\
    Content-Type: application/json\r\n\
    Cookie: name=linhuadong\r\n\
    Host: localhost\r\n\
    Content-Length: 23\r\n\
    \r\n\
    this is a json response";
    let actual_response_string: String = expected_response.serialize();
    assert_eq!(expected_response_string, actual_response_string);
}

#[test]
fn not_found_on_the_wire() {
    let r = HttpResponse::new("404", None, Some("yyyy".into()));
    assert_eq!(r.status_text(), "Not Found");
    assert_eq!(
        r.serialize(),
        "HTTP/1.1 404 Not Found\r\nContent-Type:text/html\r\nContent-Length: 4\r\n\r\nyyyy"
    );
}

#[test]
fn status_text_follows_the_code() {
    assert_eq!(HttpResponse::new("200", None, None).status_text(), "OK");
    assert_eq!(HttpResponse::new("400", None, None).status_text(), "Bad Request");
    assert_eq!(HttpResponse::new("404", None, None).status_text(), "Not Found");
    assert_eq!(
        HttpResponse::new("500", None, None).status_text(),
        "Internal Server Error"
    );
    assert_eq!(HttpResponse::new("418", None, None).status_text(), "Unknown Error");
    assert_eq!(HttpResponse::new("", None, None).status_text(), "Unknown Error");
    assert_eq!(HttpResponse::new("2000", None, None).status_text(), "Unknown Error");
    assert_eq!(HttpResponse::new(" 200", None, None).status_text(), "Unknown Error");
}

#[test]
fn new_keeps_code_version_and_body() {
    let r = HttpResponse::new("500", None, Some("oops".into()));
    assert_eq!(r.version(), "HTTP/1.1");
    assert_eq!(r.status_code(), "500");
    assert_eq!(r.body(), "oops");
    let r = HttpResponse::new("200", None, None);
    assert_eq!(r.status_code(), "200");
    assert_eq!(r.body, None);
    assert_eq!(r.body(), "");
}

#[test]
fn new_uses_supplied_headers_as_they_are() {
    let mut hd = HeaderMap::new();
    hd.insert("X-A".into(), "1".into());
    let r = HttpResponse::new("200", Some(hd.clone()), Some(String::new()));
    assert_eq!(r.headers, Some(hd));
    assert_eq!(r.headers(), "X-A:1\r\n");
    let r = HttpResponse::new("200", Some(HeaderMap::new()), Some(String::new()));
    assert_eq!(r.headers(), "");
    assert_eq!(r.serialize(), "HTTP/1.1 200 OK\r\nContent-Length: 0\r\n\r\n");
}

#[test]
fn default_response() {
    let r = HttpResponse::default();
    assert_eq!(r.version, "HTTP/1.1");
    assert_eq!(r.status_code, "200");
    assert_eq!(r.status_text, "OK");
    assert_eq!(r.headers, None);
    assert_eq!(r.body, None);
    assert_eq!(r.headers(), "");
    assert_eq!(r.body(), "");
}

#[test]
fn content_length_counts_bytes() {
    let r = HttpResponse::new("200", None, Some("h\u{e9}llo \u{4f60}\u{597d}".into()));
    assert_eq!(
        r.serialize(),
        "HTTP/1.1 200 OK\r\nContent-Type:text/html\r\nContent-Length: 13\r\n\r\nh\u{e9}llo \u{4f60}\u{597d}"
    );
}

#[test]
fn content_length_of_the_empty_body() {
    let r = HttpResponse::new("200", None, Some(String::new()));
    assert_eq!(
        r.serialize(),
        "HTTP/1.1 200 OK\r\nContent-Type:text/html\r\nContent-Length: 0\r\n\r\n"
    );
}

#[test]
fn content_length_with_several_digits() {
    let body = "x".repeat(1234);
    let r = HttpResponse::new("200", None, Some(body.clone()));
    let expected = format!(
        "HTTP/1.1 200 OK\r\nContent-Type:text/html\r\nContent-Length: 1234\r\n\r\n{}",
        body
    );
    assert_eq!(r.serialize(), expected);
}

#[test]
fn headers_are_written_by_ascending_name_whatever_the_order_of_insertion() {
    let orders: [[usize; 3]; 6] =
        [[0, 1, 2], [0, 2, 1], [1, 0, 2], [1, 2, 0], [2, 0, 1], [2, 1, 0]];
    let pairs = [("Content-Type", " a"), ("Cookie", " b"), ("Host", " c")];
    for order in orders {
        let mut hd = HeaderMap::new();
        for i in order {
            hd.insert(pairs[i].0.into(), pairs[i].1.into());
        }
        let r = HttpResponse::new("200", Some(hd), Some("".into()));
        assert_eq!(r.headers(), "Content-Type: a\r\nCookie: b\r\nHost: c\r\n");
    }
}

#[test]
fn header_order_is_by_bytes() {
    let mut hd = HeaderMap::new();
    hd.insert("b".into(), "1".into());
    hd.insert("B".into(), "2".into());
    hd.insert("a".into(), "3".into());
    hd.insert("".into(), "4".into());
    hd.insert("ab".into(), "5".into());
    hd.insert("\u{e9}".into(), "6".into());
    hd.insert("Z".into(), "7".into());
    let r = HttpResponse::new("200", Some(hd), Some("".into()));
    assert_eq!(
        r.headers(),
        ":4\r\nB:2\r\nZ:7\r\na:3\r\nab:5\r\nb:1\r\n\u{e9}:6\r\n"
    );
}

#[test]
fn send_resp_writes_the_wire_text() {
    let r = HttpResponse::new("404", None, Some("yyyy".into()));
    let mut sink: Vec<u8> = Vec::new();
    assert!(r.send_resp(&mut sink).is_ok());
    assert_eq!(sink, r.serialize().into_bytes());
    assert_eq!(
        sink,
        b"HTTP/1.1 404 Not Found\r\nContent-Type:text/html\r\nContent-Length: 4\r\n\r\nyyyy".to_vec()
    );
}

#[test]
fn send_resp_appends_to_what_the_sink_holds() {
    let r = HttpResponse::new("200", Some(HeaderMap::new()), Some("ok".into()));
    let mut sink: Vec<u8> = b">".to_vec();
    assert!(r.send_resp(&mut sink).is_ok());
    assert_eq!(sink, b">HTTP/1.1 200 OK\r\nContent-Length: 2\r\n\r\nok".to_vec());
}
