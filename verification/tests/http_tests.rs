use http_server::http::{
    BuildError, Info, ParseError, Request, RequestHeaders, Response, ResponseHeaders, Status,
    to_result,
};
use http_server::{fallback_resource, fallback_status};

#[test]
fn should_parse_request() {
    let content = "GET /hoge.html HTTP/1.0\r\nAccept: */*\r\nConnection: Close\r\nUser-Agent: Mozilla/4.0 (Compatible; MSIE 6.0; Windows NT 5.1;)\r\n\r\nhogehoge\r\n\r\nfugafuga\r\n";
    let request = Request::new(content).expect("failed to parse request(test)");

    let info = Info {
        method: String::from("GET"),
        path: String::from("/hoge.html"),
        protocol_minor_version: 0,
    };

    let mut headers = RequestHeaders::new();
    headers.insert("Accept", "*/*");
    headers.insert("Connection", "Close");
    headers.insert("User-Agent", "Mozilla/4.0 (Compatible; MSIE 6.0; Windows NT 5.1;)");

    let body = "hogehoge\r\n\r\nfugafuga\r\n";

    let expect = Request {
        info,
        headers,
        body: String::from(body),
        length: body.len() as usize,
    };

    assert_eq!(request, expect);
}

#[test]
fn should_parse_info() {
    let line = "GET /path/to/resource HTTP/1.0";
    let info = Info::new(line).expect("failed to parse");
    let expect = Info {
        method: String::from("GET"),
        path: String::from("/path/to/resource"),
        protocol_minor_version: 0,
    };

    assert_eq!(info, expect);
}

#[test]
fn should_parse_headers() {
    let content = "Accept: */*\r\nConnection: Close\r\nUser-Agent: Mozilla/4.0 (Compatible; MSIE 6.0; Windows NT 5.1;)\r\n";

    let lines = content.lines().collect();
    let headers = Request::parse_headers(lines).expect("failed to parse");

    let mut expect = RequestHeaders::new();
    expect.insert("Accept", "*/*");
    expect.insert("Connection", "Close");
    expect.insert("User-Agent", "Mozilla/4.0 (Compatible; MSIE 6.0; Windows NT 5.1;)");

    assert_eq!(headers, expect);
}

#[test]
fn should_create_file_response() {
    let body = String::from("<h1>hogehoge</h1>\n");

    let response = Response::new(body.clone());

    let status = Status { code: 200, text: String::from("OK") };

    let mut headers = ResponseHeaders::new();
    headers.insert("Content-Length", body.len().to_string());
    headers.insert("Content-Type", String::from("text/html"));
    headers.insert("Server", String::from("LittleHTTP/1.0"));
    headers.insert("Connection", String::from("Close"));

    let expect = Response { version: "HTTP/1.0", status, headers, body };

    assert_eq!(response, expect);
}

fn header_value<'a>(headers: &'a ResponseHeaders, key: &str) -> Option<&'a str> {
    for h in headers.headers.iter() {
        if h.key == key {
            return Some(h.value.as_str());
        }
    }
    None
}

#[test]
fn parses_all_request_parts() {
    let content = "POST /submit HTTP/1.1\r\nHost: example\r\n\r\npayload";
    let request = Request::new(content).expect("failed to parse");
    assert_eq!(request.info.method, "POST");
    assert_eq!(request.info.path, "/submit");
    assert_eq!(request.info.protocol_minor_version, 1);
    assert_eq!(request.headers.get("Host").map(|v| v.as_str()), Some("example"));
    assert_eq!(request.body, "payload");
    assert_eq!(request.length, 7);
    assert_eq!(request.resource(), "/submit");
}

#[test]
fn missing_blank_line_fails_parsing() {
    let content = "GET /index.html HTTP/1.0\r\nHost: example\r\n";
    assert_eq!(Request::new(content), Err(ParseError::MalformedRequest));
}

#[test]
fn short_request_line_fails_parsing() {
    let content = "GET\r\n\r\n";
    assert_eq!(Request::new(content), Err(ParseError::MalformedRequestLine));
    let two_tokens = "GET /index.html\r\n\r\n";
    assert_eq!(Request::new(two_tokens), Err(ParseError::MalformedRequestLine));
}

#[test]
fn bad_version_token_fails_parsing() {
    let content = "GET /index.html HTTP/1.x\r\n\r\n";
    assert_eq!(Request::new(content), Err(ParseError::MalformedVersion));
}

#[test]
fn bad_header_line_fails_with_header_error() {
    let content = "GET /index.html HTTP/1.0\r\nNoSeparatorHere\r\n\r\n";
    let err = Request::new(content).unwrap_err();
    assert_eq!(err, ParseError::MalformedHeader);
    // A header failure is distinct from a request-line failure.
    let line_err = Request::new("GET\r\n\r\n").unwrap_err();
    assert_ne!(err, line_err);
}

#[test]
fn later_duplicate_header_wins() {
    let content = "GET / HTTP/1.0\r\nX-Tag: first\r\nX-Tag: second\r\n\r\n";
    let request = Request::new(content).expect("failed to parse");
    assert_eq!(request.headers.get("X-Tag").map(|v| v.as_str()), Some("second"));
    assert_eq!(request.headers.get("Missing"), None);
}

#[test]
fn header_value_keeps_extra_separators() {
    let content = "GET / HTTP/1.0\r\nNote: a: b\r\n\r\n";
    let request = Request::new(content).expect("failed to parse");
    assert_eq!(request.headers.get("Note").map(|v| v.as_str()), Some("a: b"));
}

#[test]
fn empty_body_has_length_zero() {
    let content = "GET / HTTP/1.0\r\nHost: example\r\n\r\n";
    let request = Request::new(content).expect("failed to parse");
    assert_eq!(request.body, "");
    assert_eq!(request.length, 0);
}

#[test]
fn content_length_counts_bytes() {
    // A two-byte character: the length header counts bytes, not characters.
    let body = String::from("h\u{e9}llo");
    assert_eq!(body.len(), 6);
    let response = Response::new(body);
    assert_eq!(header_value(&response.headers, "Content-Length"), Some("6"));
}

#[test]
fn index_page_yields_ok_with_exact_body() {
    let body = String::from("<h1>hi</h1>\n");
    let response = Response::new(body);
    assert_eq!(response.status.code, 200);
    assert_eq!(response.status.text, "OK");
    assert_eq!(response.body, "<h1>hi</h1>\n");
    assert_eq!(header_value(&response.headers, "Content-Length"), Some("12"));
}

#[test]
fn missing_page_falls_back_to_not_found_page() {
    let fallback = fallback_resource(&BuildError::NotFound);
    assert_eq!(fallback, "/404.html");
    let (code, text) = fallback_status(&BuildError::NotFound);
    let response = Response::with_status(code, text, String::from("nope"));
    assert_eq!(response.body, "nope");
    assert_eq!(response.status.code, 404);
    assert_eq!(response.status.text, "Not Found");
    assert_eq!(header_value(&response.headers, "Content-Length"), Some("4"));
}

#[test]
fn fallback_status_line_differs_from_ok() {
    let (code, text) = fallback_status(&BuildError::NotFound);
    let not_found = Response::with_status(code, text, String::from("nope"));
    let ok = Response::new(String::from("nope"));
    assert_ne!(not_found.status, ok.status);
    assert!(not_found.show().starts_with("HTTP/1.0 404 Not Found\r\n"));
    assert!(ok.show().starts_with("HTTP/1.0 200 OK\r\n"));
}

#[test]
fn read_failure_falls_back_to_error_page() {
    assert_eq!(fallback_resource(&BuildError::Io), "/500.html");
    let (code, text) = fallback_status(&BuildError::Io);
    assert_eq!(code, 500);
    assert_eq!(text, "Internal Server Error");
}

#[test]
fn serializes_response_exactly() {
    let response = Response::new(String::from("hi"));
    let text = response.show();
    assert_eq!(
        text,
        "HTTP/1.0 200 OK\r\nContent-Length: 2\r\nContent-Type: text/html\r\nServer: LittleHTTP/1.0\r\nConnection: Close\r\n\r\nhi"
    );
}

#[test]
fn serialized_request_reparses_to_same_values() {
    let content = "GET /a.html HTTP/1.0\r\nHost: example\r\nAccept: */*\r\n\r\nbody";
    let request = Request::new(content).expect("failed to parse");
    // Rebuild the canonical text from the parsed parts and parse it again.
    let mut rebuilt = String::new();
    rebuilt.push_str(&request.info.method);
    rebuilt.push(' ');
    rebuilt.push_str(&request.info.path);
    rebuilt.push_str(" HTTP/1.");
    rebuilt.push_str(&request.info.protocol_minor_version.to_string());
    for h in request.headers.headers.iter() {
        rebuilt.push_str("\r\n");
        rebuilt.push_str(&h.key);
        rebuilt.push_str(": ");
        rebuilt.push_str(&h.value);
    }
    rebuilt.push_str("\r\n\r\n");
    rebuilt.push_str(&request.body);
    let again = Request::new(&rebuilt).expect("failed to re-parse");
    assert_eq!(again, request);
}

#[test]
fn makes_file_path_by_concatenation() {
    assert_eq!(Response::make_path("./pages", "/hoge.html"), "./pages/hoge.html");
}

#[test]
fn to_result_keeps_value_or_substitutes_error() {
    assert_eq!(to_result(Some(7), ParseError::MalformedRequest), Ok(7));
    assert_eq!(
        to_result(None::<u32>, ParseError::MalformedRequest),
        Err(ParseError::MalformedRequest)
    );
}

#[test]
fn renders_decimal_strings() {
    assert_eq!(http_server::text::dec_string(0), "0");
    assert_eq!(http_server::text::dec_string(9), "9");
    assert_eq!(http_server::text::dec_string(1234567890), "1234567890");
}
