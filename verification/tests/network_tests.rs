use revql::args::{ContentSource, HttpMethod, MatchOptions, QueryOptions, SearchMode};
use revql::network::{parse_header, parse_headers, query_or_default, DEFAULT_QUERY};

#[test]
fn test_parse_headers_trims_names_and_values() {
    let headers = ["Content-Type: application/json".to_owned(), "apollo-require-preflight: true".to_owned()];
    let parsed = parse_headers(&headers).unwrap();
    assert_eq!(
        parsed,
        vec![
            ("Content-Type".to_owned(), "application/json".to_owned()),
            ("apollo-require-preflight".to_owned(), "true".to_owned()),
        ]
    );
}

#[test]
fn test_parse_header_splits_at_first_colon() {
    assert_eq!(
        parse_header("Referer: http://example.com:8080"),
        Ok(("Referer".to_owned(), "http://example.com:8080".to_owned()))
    );
    assert_eq!(parse_header("X-Empty:"), Ok(("X-Empty".to_owned(), String::new())));
}

#[test]
fn test_parse_header_missing_colon() {
    assert_eq!(parse_header("Content-Type"), Err("Invalid header: 'Content-Type'".to_owned()));
}

#[test]
fn test_parse_header_invalid_name() {
    assert_eq!(parse_header("Bad Name: x"), Err("Invalid name: 'Bad Name'".to_owned()));
    assert_eq!(parse_header(" : x"), Err("Invalid name: ' '".to_owned()));
}

#[test]
fn test_parse_header_invalid_value() {
    assert_eq!(parse_header("X-Test: a\u{7f}b"), Err("Invalid value: ' a\u{7f}b'".to_owned()));
    assert_eq!(parse_header("X-Tab: a\tb"), Ok(("X-Tab".to_owned(), "a\tb".to_owned())));
}

#[test]
fn test_parse_headers_reports_first_error() {
    let headers = ["A: 1".to_owned(), "broken".to_owned(), "B C: 2".to_owned()];
    assert_eq!(parse_headers(&headers), Err("Invalid header: 'broken'".to_owned()));
    assert_eq!(parse_headers(&[]), Ok(vec![]));
}

#[test]
fn test_query_or_default() {
    assert_eq!(query_or_default(Some("{ a }".to_owned())), "{ a }");
    let q = query_or_default(None);
    assert_eq!(q, DEFAULT_QUERY);
    assert!(q.starts_with("query IntrospectionQuery"));
}

#[test]
fn test_content_source() {
    let mut opts = QueryOptions { url: false, headers: vec![], query_file: None, query: None, method: HttpMethod::Post };
    assert_eq!(opts.content_source(), ContentSource::File);
    opts.url = true;
    assert_eq!(opts.content_source(), ContentSource::Post);
    opts.method = HttpMethod::Get;
    assert_eq!(opts.content_source(), ContentSource::Get);
}

#[test]
fn test_defaults_and_config() {
    assert_eq!(HttpMethod::default(), HttpMethod::Post);
    assert_eq!(SearchMode::default(), SearchMode::Type);
    let config = MatchOptions { contains: true, ignore_case: false }.to_config();
    assert!(config.contains && !config.ignore_case);
}
