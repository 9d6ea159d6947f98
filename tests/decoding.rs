use http_router::escape::{invalid_character_message, unescape_str, EscapeError};
use http_router::route::{PathSegment, RoutePathObject, DefaultRoute};
use http_router::query::QueryPath;
use http_router::request::{HttpRequest, Method, RequestError};

#[test]
fn decode_escape_and_plain_text() {
    assert_eq!(unescape_str("%41"), Ok("A".to_string()));
    assert_eq!(unescape_str("abc"), Ok("abc".to_string()));
}

#[test]
fn decode_plain_text_is_identity() {
    assert_eq!(unescape_str(""), Ok(String::new()));
    assert_eq!(unescape_str("/a/b?c=d&e"), Ok("/a/b?c=d&e".to_string()));
}

#[test]
fn decode_incomplete_sequence() {
    assert_eq!(unescape_str("%4"), Err(EscapeError::IncompleteEscapeSequence));
    assert_eq!(unescape_str("ab%"), Err(EscapeError::IncompleteEscapeSequence));
}

#[test]
fn decode_invalid_character() {
    assert_eq!(unescape_str("%4g"), Err(EscapeError::InvalidEscapeCharacter('g')));
    assert_eq!(unescape_str("%zz"), Err(EscapeError::InvalidEscapeCharacter('z')));
}

#[test]
fn decode_first_error_wins() {
    assert_eq!(unescape_str("%x1%4"), Err(EscapeError::InvalidEscapeCharacter('x')));
}

#[test]
fn decode_either_case_hex() {
    assert_eq!(unescape_str("%2f%2F"), Ok("//".to_string()));
    assert_eq!(unescape_str("a%20b%7e"), Ok("a b~".to_string()));
    assert_eq!(unescape_str("%e9"), Ok("\u{e9}".to_string()));
}

#[test]
fn parse_pattern_segments_and_query() {
    let key = RoutePathObject::parse("/api/*?x=1&y&&z=a%3Db").unwrap();
    assert_eq!(
        key.path(),
        &vec![
            PathSegment::Literal(String::new()),
            PathSegment::Literal("api".to_string()),
            PathSegment::Wildcard,
        ]
    );
    assert_eq!(
        key.query(),
        &vec![
            ("x".to_string(), "1".to_string()),
            ("y".to_string(), String::new()),
            ("z".to_string(), "a=b".to_string()),
        ]
    );
}

#[test]
fn parse_pattern_decodes_segments() {
    let key = RoutePathObject::parse("a%2Fb/%2A").unwrap();
    assert_eq!(
        key.path(),
        &vec![PathSegment::Literal("a/b".to_string()), PathSegment::Wildcard]
    );
    assert!(key.query().is_empty());
}

#[test]
fn parse_pattern_reports_bad_escape() {
    assert_eq!(
        RoutePathObject::parse("/ok/%zz"),
        Err(EscapeError::InvalidEscapeCharacter('z'))
    );
    assert_eq!(
        RoutePathObject::parse("/ok?k=%4"),
        Err(EscapeError::IncompleteEscapeSequence)
    );
}

#[test]
fn parse_empty_pattern() {
    let key = RoutePathObject::parse("").unwrap();
    assert_eq!(key.path(), &vec![PathSegment::Literal(String::new())]);
}

#[test]
fn default_route_is_single_wildcard() {
    let key = DefaultRoute.to_path_object();
    assert_eq!(key.path(), &vec![PathSegment::Wildcard]);
    assert!(key.query().is_empty());
}

#[test]
fn segment_from_text() {
    assert_eq!(PathSegment::from("*".to_string()), PathSegment::Wildcard);
    assert_eq!(PathSegment::from("**".to_string()), PathSegment::Literal("**".to_string()));
}

#[test]
fn method_names() {
    assert_eq!(Method::from_str("GET"), Some(Method::GET));
    assert_eq!(Method::from_str("POST"), Some(Method::POST));
    assert_eq!(Method::from_str("PATCH"), Some(Method::PATCH));
    assert_eq!(Method::from_str("get"), None);
    assert_eq!(Method::from_str("BREW"), None);
}

#[test]
fn query_path_decodes_path_and_pairs() {
    let t = QueryPath::parse("/a%20b/c?name=J%C3&x&=v").unwrap();
    assert_eq!(t.path, "/a b/c");
    assert_eq!(
        t.query,
        vec![
            ("name".to_string(), "J\u{c3}".to_string()),
            ("x".to_string(), String::new()),
            (String::new(), "v".to_string()),
        ]
    );
    assert_eq!(
        QueryPath::parse("/x%4").err(),
        Some(EscapeError::IncompleteEscapeSequence)
    );
}

#[test]
fn parse_request_head() {
    let headers = vec!["Host: localhost".to_string(), "Accept: */*".to_string()];
    let req = HttpRequest::parse_request("GET /info?a=1 HTTP/1.1", &headers).unwrap();
    assert_eq!(req.method(), &Method::GET);
    assert_eq!(req.path(), "/info");
    assert_eq!(req.query(), &vec![("a".to_string(), "1".to_string())]);
    assert_eq!(
        req.headers(),
        &vec![
            ("Host".to_string(), "localhost".to_string()),
            ("Accept".to_string(), "*/*".to_string()),
        ]
    );
    assert!(req.body().is_empty());
}

#[test]
fn parse_request_faults() {
    let none: Vec<String> = vec![];
    assert!(matches!(HttpRequest::parse_request("GET", &none), Err(RequestError::MalformedStatusLine)));
    assert!(matches!(HttpRequest::parse_request("GET /x", &none), Err(RequestError::MalformedStatusLine)));
    assert!(matches!(HttpRequest::parse_request("BREW /x HTTP/1.1", &none), Err(RequestError::UnknownMethod)));
    assert!(matches!(
        HttpRequest::parse_request("GET /%zz HTTP/1.1", &none),
        Err(RequestError::BadEscape(EscapeError::InvalidEscapeCharacter('z')))
    ));
    let bad = vec!["Host localhost".to_string()];
    assert!(matches!(HttpRequest::parse_request("GET /x HTTP/1.1", &bad), Err(RequestError::MalformedHeader)));
    let spaced = HttpRequest::parse_request("POST /a b HTTP/1.1", &none).unwrap();
    assert_eq!(spaced.path(), "/a b");
    assert_eq!(spaced.method(), &Method::POST);
}

#[test]
fn escape_error_messages() {
    assert_eq!(
        EscapeError::InvalidEscapeCharacter('g').message(),
        "Expected a HEX character, found 'g' while decoding a %-encoded character"
    );
    assert_eq!(
        EscapeError::IncompleteEscapeSequence.message(),
        "Expected a  HEX character, found EOF while decoding a %-encoded character"
    );
    assert_eq!(
        EscapeError::InvalidEscapeCharacter('\'').message(),
        "Expected a HEX character, found '\\'' while decoding a %-encoded character"
    );
    assert_eq!(
        EscapeError::InvalidEscapeCharacter('\n').message(),
        "Expected a HEX character, found '\\n' while decoding a %-encoded character"
    );
    assert_eq!(
        invalid_character_message("'x'"),
        "Expected a HEX character, found 'x' while decoding a %-encoded character"
    );
}

#[test]
fn query_reads_as_mapping() {
    let key = RoutePathObject::parse("/p?a=1&b=2&a=3").unwrap();
    assert_eq!(key.query_value("a"), Some("3".to_string()));
    assert_eq!(key.query_value("b"), Some("2".to_string()));
    assert_eq!(key.query_value("c"), None);
}
