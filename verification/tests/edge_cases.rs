use http_file_parser::parser::{parse, HttpMethod, ParseError};

#[test]
fn single_request_fields_round_trip() {
    let input = "GET / HTTP/1.1\nHost: example.com\n\n";
    let parsed = parse(input).unwrap();
    assert_eq!(parsed.requests.len(), 1);
    let request = &parsed.requests[0];
    assert_eq!(request.method, HttpMethod::Get);
    assert_eq!(request.url, "/");
    assert_eq!(request.version, "1.1");
    assert_eq!(request.headers.len(), 1);
    assert_eq!(request.headers.get("Host").unwrap().as_str(), "example.com");
    assert_eq!(request.body, "");
}

#[test]
fn two_delimited_requests_in_order() {
    let input = "GET /a HTTP/1.1\n\n### t\n\nPOST /b HTTP/1.1\nContent-Type: text/plain\n\nBody content";
    let parsed = parse(input).unwrap();
    assert_eq!(parsed.requests.len(), 2);
    assert_eq!(parsed.requests[0].method, HttpMethod::Get);
    assert_eq!(parsed.requests[0].url, "/a");
    assert_eq!(parsed.requests[0].body, "");
    assert_eq!(parsed.requests[1].method, HttpMethod::Post);
    assert_eq!(parsed.requests[1].url, "/b");
    assert_eq!(parsed.requests[1].body, "Body content");
}

#[test]
fn json_body_trimmed_and_two_headers() {
    let input = "POST https://example.com/api/resource HTTP/1.1\nContent-Type: application/json\nAuthorization: Bearer tok\n\n{\"key\": \"value\"}";
    let parsed = parse(input).unwrap();
    assert_eq!(parsed.requests.len(), 1);
    let request = &parsed.requests[0];
    assert_eq!(request.body, "{\"key\": \"value\"}");
    assert_eq!(request.headers.len(), 2);
    assert_eq!(request.headers.get("Content-Type").unwrap().as_str(), "application/json");
    assert_eq!(request.headers.get("Authorization").unwrap().as_str(), "Bearer tok");
}

#[test]
fn leading_blank_lines_tolerated() {
    let input = "\n\n  \nGET / HTTP/1.1\n\n";
    let parsed = parse(input).unwrap();
    assert_eq!(parsed.requests.len(), 1);
    assert_eq!(parsed.requests[0].url, "/");
}

#[test]
fn unknown_method_fails_whole_parse() {
    let input = "PATCH / HTTP/1.1\n\n";
    let err = parse(input).unwrap_err();
    match err {
        ParseError::UnknownMethod(token) => assert_eq!(token, "PATCH"),
        ParseError::SyntaxError { .. } => panic!("expected an unknown-method failure"),
    }
}

#[test]
fn lowercase_method_is_unknown() {
    let err = parse("get / HTTP/1.1\n\n").unwrap_err();
    assert!(matches!(err, ParseError::UnknownMethod(t) if t == "get"));
}

#[test]
fn unknown_method_in_second_request_fails_all() {
    let input = "GET /a HTTP/1.1\n\n### t\n\nFETCH /b HTTP/1.1\n\n";
    let err = parse(input).unwrap_err();
    assert!(matches!(err, ParseError::UnknownMethod(t) if t == "FETCH"));
}

#[test]
fn duplicate_header_last_occurrence_wins() {
    let input = "GET / HTTP/1.1\nAccept: text/html\nAccept: application/json\n\n";
    let parsed = parse(input).unwrap();
    let request = &parsed.requests[0];
    assert_eq!(request.headers.len(), 1);
    assert_eq!(request.headers.get("Accept").unwrap().as_str(), "application/json");
}

#[test]
fn no_header_lines_give_empty_mapping() {
    let input = "DELETE /thing HTTP/1.1\n\n";
    let parsed = parse(input).unwrap();
    let request = &parsed.requests[0];
    assert_eq!(request.headers.len(), 0);
    assert!(request.headers.is_empty());
    assert!(!request.headers.contains_key("Host"));
    assert_eq!(request.method, HttpMethod::Delete);
}

#[test]
fn headers_then_delimiter_give_empty_body() {
    let input = "GET / HTTP/1.1\nHost: a\n### next\n\nPUT /x HTTP/1.1\n\n";
    let parsed = parse(input).unwrap();
    assert_eq!(parsed.requests.len(), 2);
    assert_eq!(parsed.requests[0].body, "");
    assert_eq!(parsed.requests[1].method, HttpMethod::Put);
}

#[test]
fn headers_then_end_of_input_give_empty_body() {
    let input = "GET / HTTP/1.1\nHost: a\n";
    let parsed = parse(input).unwrap();
    assert_eq!(parsed.requests[0].body, "");
}

#[test]
fn parsing_twice_yields_equal_results() {
    let input = "POST /p HTTP/1.1\nX: 1\n\nhello";
    let a = parse(input).unwrap();
    let b = parse(input).unwrap();
    assert_eq!(a.requests.len(), b.requests.len());
    for (x, y) in a.requests.iter().zip(b.requests.iter()) {
        assert_eq!(x.method, y.method);
        assert_eq!(x.url, y.url);
        assert_eq!(x.version, y.version);
        assert_eq!(x.body, y.body);
        assert_eq!(x.headers.len(), y.headers.len());
    }
}

#[test]
fn empty_document_parses_to_zero_requests() {
    assert_eq!(parse("").unwrap().requests.len(), 0);
    assert_eq!(parse("\n \t\n").unwrap().requests.len(), 0);
    assert_eq!(parse("### only a title\n").unwrap().requests.len(), 0);
    assert_eq!(parse("### a\n### b\n\n").unwrap().requests.len(), 0);
}

#[test]
fn three_requests_keep_source_order() {
    let input = "GET /1 HTTP/1.1\n\n### two\nPOST /2 HTTP/1.1\n\nbody2\n### three\nDELETE /3 HTTP/1.1\n\n";
    let parsed = parse(input).unwrap();
    assert_eq!(parsed.requests.len(), 3);
    assert_eq!(parsed.requests[0].url, "/1");
    assert_eq!(parsed.requests[1].url, "/2");
    assert_eq!(parsed.requests[1].body, "body2");
    assert_eq!(parsed.requests[2].url, "/3");
}

#[test]
fn missing_request_line_is_syntax_error() {
    let err = parse("### title\nnot a request line\n").unwrap_err();
    assert!(matches!(err, ParseError::SyntaxError { .. }));
}

#[test]
fn missing_http_literal_is_syntax_error() {
    let err = parse("GET /\n\n").unwrap_err();
    assert!(matches!(err, ParseError::SyntaxError { .. }));
}

#[test]
fn body_whitespace_is_trimmed() {
    let input = "PUT /w HTTP/1.1\n\n   \n  padded body text \n\n";
    let parsed = parse(input).unwrap();
    assert_eq!(parsed.requests[0].body, "padded body text");
}

#[test]
fn header_value_whitespace_is_trimmed() {
    let input = "GET / HTTP/1.1\nX-Pad:    spaced value   \n\n";
    let parsed = parse(input).unwrap();
    assert_eq!(parsed.requests[0].headers.get("X-Pad").unwrap().as_str(), "spaced value");
}

#[test]
fn method_from_str_accepts_the_closed_set() {
    assert_eq!(HttpMethod::from_str("GET").unwrap(), HttpMethod::Get);
    assert_eq!(HttpMethod::from_str("POST").unwrap(), HttpMethod::Post);
    assert_eq!(HttpMethod::from_str("PUT").unwrap(), HttpMethod::Put);
    assert_eq!(HttpMethod::from_str("DELETE").unwrap(), HttpMethod::Delete);
}

#[test]
fn method_from_str_rejects_other_tokens() {
    assert!(matches!(HttpMethod::from_str("PATCH"), Err(ParseError::UnknownMethod(t)) if t == "PATCH"));
    assert!(matches!(HttpMethod::from_str("Get"), Err(ParseError::UnknownMethod(_))));
    assert!(matches!(HttpMethod::from_str(""), Err(ParseError::UnknownMethod(_))));
}

#[test]
fn method_as_str_names_each_method() {
    assert_eq!(HttpMethod::Get.as_str(), "GET");
    assert_eq!(HttpMethod::Post.as_str(), "POST");
    assert_eq!(HttpMethod::Put.as_str(), "PUT");
    assert_eq!(HttpMethod::Delete.as_str(), "DELETE");
}
