use rust_multipart::headers::{parse_options_header, parse_options_value};
use rust_multipart::HeaderSyntaxError;

#[test]
fn options_header_readme_example() {
    let (value, parameters) = parse_options_header("form-data; name=\"user\"").unwrap();
    assert_eq!(value, "form-data");
    assert_eq!(parameters.len(), 1);
    assert_eq!(parameters.get("name").unwrap(), "user");
}

#[test]
fn options_header_plain_and_quoted_values() {
    let (value, parameters) =
        parse_options_header("  text/plain ; Charset = utf-8 ; q=\"a\\\"b;c\\\\d\"").unwrap();
    assert_eq!(value, "text/plain");
    assert_eq!(parameters.len(), 2);
    assert_eq!(parameters.get("charset").unwrap(), "utf-8");
    assert_eq!(parameters.get("q").unwrap(), "a\"b;c\\d");
    assert!(parameters.get("Charset").is_none());
}

#[test]
fn options_header_later_key_replaces_earlier() {
    let (_, parameters) = parse_options_header("form-data; name=a; NAME=b").unwrap();
    assert_eq!(parameters.len(), 1);
    assert_eq!(parameters.get("name").unwrap(), "b");
}

#[test]
fn options_header_semicolon_inside_quotes_does_not_split() {
    let (_, parameters) = parse_options_header("form-data; filename=\"a;b.txt\"").unwrap();
    assert_eq!(parameters.get("filename").unwrap(), "a;b.txt");
}

#[test]
fn options_header_empty_quoted_value() {
    let (_, parameters) = parse_options_header("form-data; name=\"\"").unwrap();
    assert_eq!(parameters.get("name").unwrap(), "");
}

#[test]
fn options_header_unicode_whitespace_is_trimmed() {
    let (value, parameters) = parse_options_header("\u{3000}form-data\u{a0}; name=x").unwrap();
    assert_eq!(value, "form-data");
    assert_eq!(parameters.get("name").unwrap(), "x");
}

#[test]
fn options_header_errors() {
    assert_eq!(
        parse_options_header("form-data; name=\"user").unwrap_err(),
        "Malformed quoted parameter"
    );
    assert_eq!(parse_options_header("  ; name=x").unwrap_err(), "Missing header name");
    assert_eq!(parse_options_header("form-data; name").unwrap_err(), "Missing parameter value");
    assert_eq!(parse_options_header("form-data; =x").unwrap_err(), "Missing parameter key");
    assert_eq!(
        parse_options_header("form-data; name=\"x").unwrap_err(),
        "Malformed quoted parameter"
    );
    assert_eq!(
        parse_options_header("form-data; name=\"").unwrap_err(),
        "Malformed quoted parameter"
    );
    assert_eq!(
        parse_options_header("form-data; name=\"x\" y").unwrap_err(),
        "Malformed quoted parameter"
    );
}

#[test]
fn options_header_first_bad_segment_decides() {
    assert_eq!(
        parse_options_value("form-data; name; =x").err(),
        Some(HeaderSyntaxError::MissingParameterValue)
    );
    assert_eq!(
        parse_options_value("form-data; =x; name").err(),
        Some(HeaderSyntaxError::MissingParameterKey)
    );
}

#[test]
fn options_header_without_parameters() {
    let (value, parameters) = parse_options_header("text/plain").unwrap();
    assert_eq!(value, "text/plain");
    assert_eq!(parameters.len(), 0);
}

#[test]
fn whitespace_around_separators_and_equals_does_not_matter() {
    let base = parse_options_header("form-data;name=\"a b;c\";filename=x.txt").unwrap();
    for v in [
        " form-data;name=\"a b;c\";filename=x.txt",
        "form-data;name=\"a b;c\";filename=x.txt\t",
        "form-data ;name=\"a b;c\";filename=x.txt",
        "form-data; name=\"a b;c\";filename=x.txt",
        "form-data;name =\"a b;c\";filename=x.txt",
        "form-data;name= \"a b;c\";filename=x.txt",
        "form-data;name=\"a b;c\" ; filename = x.txt ",
    ] {
        let (value, params) = parse_options_header(v).unwrap();
        assert_eq!(value, base.0);
        assert_eq!(params.len(), base.1.len());
        assert_eq!(params.get("name"), base.1.get("name"));
        assert_eq!(params.get("filename"), base.1.get("filename"));
    }
}

#[test]
fn parameters_can_be_walked() {
    let (_, params) = parse_options_header("form-data; name=a; filename=b; NAME=c").unwrap();
    assert_eq!(params.len(), 2);
    let mut seen = Vec::new();
    for i in 0..params.len() {
        let (k, v) = params.entry(i);
        seen.push((k.clone(), v.clone()));
    }
    assert_eq!(seen, vec![("name".to_string(), "c".to_string()), ("filename".to_string(), "b".to_string())]);
}
