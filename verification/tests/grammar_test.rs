use http_file_parser::parser::HttpParser;
use http_file_parser::parser::{ParseError, ParseNode, Rule};

fn parse_rule(rule: Rule, input: &str) -> Result<ParseNode, ParseError> {
    HttpParser::parse(rule, input)
}

#[test]
fn test_http_file() {
    let input = "GET / HTTP/1.1\nHost: example.com\n\n### My Title\n\nPOST /submit HTTP/1.1\nContent-Type: text/plain\n\nBody content";
    assert!(parse_rule(Rule::HttpFile, input).is_ok());
}

#[test]
fn test_request() {
    let input = "GET / HTTP/1.1\nHost: example.com\n\n";
    assert!(parse_rule(Rule::Request, input).is_ok());
}

#[test]
fn grammar_test_test_delimiter() {
    let input = "### My Title\n\n";
    assert!(parse_rule(Rule::Delimiter, input).is_ok());
}

#[test]
fn test_title() {
    let input = "My Title";
    assert!(parse_rule(Rule::Title, input).is_ok());
}

#[test]
fn test_request_line() {
    let input = "GET / HTTP/1.1\n";
    assert!(parse_rule(Rule::RequestLine, input).is_ok());
}

#[test]
fn test_uri() {
    let input = "/path/to/resource";
    assert!(parse_rule(Rule::Uri, input).is_ok());
}

#[test]
fn test_method() {
    let methods = ["GET", "DELETE", "POST", "PUT"];
    for method in methods {
        assert!(parse_rule(Rule::Method, method).is_ok());
    }
}

#[test]
fn test_version() {
    let input = "1.1";
    assert!(parse_rule(Rule::Version, input).is_ok());
}

#[test]
fn test_headers() {
    let input = "Host: example.com\nContent-Type: text/plain\n";
    assert!(parse_rule(Rule::Headers, input).is_ok());
}

#[test]
fn test_header() {
    let input = "Host: example.com\n";
    assert!(parse_rule(Rule::Header, input).is_ok());
}

#[test]
fn test_header_name() {
    let input = "Content-Type";
    assert!(parse_rule(Rule::HeaderName, input).is_ok());
}

#[test]
fn test_header_value() {
    let input = "text/plain";
    assert!(parse_rule(Rule::HeaderValue, input).is_ok());
}

#[test]
fn test_body() {
    let input = "This is the body content.";
    assert!(parse_rule(Rule::Body, input).is_ok());
}

#[test]
fn test_whitespace() {
    let input = " ";
    assert!(parse_rule(Rule::Whitespace, input).is_ok());
}

#[test]
fn test_method_rejects_non_letters() {
    assert!(parse_rule(Rule::Method, "123").is_err());
    assert!(parse_rule(Rule::Method, "").is_err());
}

#[test]
fn test_uri_rejects_leading_whitespace() {
    assert!(parse_rule(Rule::Uri, " /path").is_err());
}

#[test]
fn test_version_rejects_malformed() {
    assert!(parse_rule(Rule::Version, "1").is_err());
    assert!(parse_rule(Rule::Version, "1.").is_err());
    assert!(parse_rule(Rule::Version, ".1").is_err());
    assert!(parse_rule(Rule::Version, "x.y").is_err());
}

#[test]
fn test_request_line_rejects_missing_version_literal() {
    let r = parse_rule(Rule::RequestLine, "GET / FTP/1.1\n");
    assert!(matches!(r, Err(ParseError::SyntaxError { .. })));
}

#[test]
fn test_header_rejects_missing_colon() {
    assert!(parse_rule(Rule::Header, "NoColonHere\n").is_err());
}

#[test]
fn test_delimiter_rejects_short_marker() {
    assert!(parse_rule(Rule::Delimiter, "## Title\n").is_err());
}

#[test]
fn test_whitespace_rejects_empty() {
    assert!(parse_rule(Rule::Whitespace, "").is_err());
}

#[test]
fn test_header_span_ends_after_line() {
    let node = parse_rule(Rule::Header, "Host: example.com\nrest").unwrap();
    assert_eq!(node.end, 18);
    assert_eq!(node.rule, Rule::Header);
}

#[test]
fn test_method_span_length() {
    let node = parse_rule(Rule::Method, "GET /").unwrap();
    assert_eq!(node.end, 3);
}

#[test]
fn test_body_stops_at_delimiter_line() {
    let node = parse_rule(Rule::Body, "line one\nline two\n### next\nmore").unwrap();
    assert_eq!(node.end, 18);
}
