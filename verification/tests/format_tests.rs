use json_tools::escape::{escape, needs_quotes, unescape};
use json_tools::flatten::{dot, flatten};
use json_tools::path_segments::{format_path, parse, parse_path, PathSegment};
use json_tools::text::from_utf8;
use json_tools::value::{is_number_literal, literal_text, parse_literal, Value};
use json_tools::PathParseError;

fn name(s: &str) -> PathSegment {
    PathSegment::Name(s.to_string())
}

#[test]
fn parse_path_bare_name() {
    assert_eq!(parse_path("abc"), Ok(vec![name("abc")]));
}

#[test]
fn parse_path_index_and_empty_index() {
    assert_eq!(parse_path("[1]"), Ok(vec![PathSegment::Index(1)]));
    assert_eq!(parse_path("[]"), Err(PathParseError::Malformed));
}

#[test]
fn parse_path_escaped_quoted_name() {
    assert_eq!(
        parse_path(r#"["hello \"world\""]"#),
        Ok(vec![name(r#"hello \"world\""#)])
    );
}

#[test]
fn parse_path_mixed_segments() {
    assert_eq!(
        parse_path(r#"arrays[2]["special-things"].special"#),
        Ok(vec![
            name("arrays"),
            PathSegment::Index(2),
            name("special-things"),
            name("special"),
        ])
    );
}

#[test]
fn parse_path_rejects_malformed() {
    assert_eq!(parse_path("a..b"), Err(PathParseError::Malformed));
    assert_eq!(parse_path(".a"), Err(PathParseError::Malformed));
    assert_eq!(parse_path("[12"), Err(PathParseError::Malformed));
    assert_eq!(parse_path(r#"["ab"#), Err(PathParseError::Malformed));
    assert_eq!(parse_path("[1x]"), Err(PathParseError::Malformed));
    assert_eq!(parse_path("a[99999999999999999999999]"), Err(PathParseError::Malformed));
}

#[test]
fn parse_path_accepts_trailing_dot_and_empty() {
    assert_eq!(parse_path("a.b."), Ok(vec![name("a"), name("b")]));
    assert_eq!(parse_path(""), Ok(vec![]));
}

#[test]
fn format_path_round_trips() {
    let p = vec![
        name("arrays"),
        PathSegment::Index(2),
        name("special-things"),
        name("special"),
    ];
    let text = format_path(&p);
    assert_eq!(text, r#"arrays[2]["special-things"].special"#);
    assert_eq!(parse_path(&text), Ok(p));

    let p = vec![name("a b"), PathSegment::Index(3), name(""), name("plain")];
    let text = format_path(&p);
    assert_eq!(text, r#"["a b"][3][""].plain"#);
    assert_eq!(parse_path(&text), Ok(p));

    let p = vec![name(r#"he \"llo"#)];
    let text = format_path(&p);
    assert_eq!(text, r#"["he \"llo"]"#);
    assert_eq!(parse_path(&text), Ok(p));
}

#[test]
fn parse_trusts_well_formed_input() {
    assert_eq!(parse("a[0]"), vec![name("a"), PathSegment::Index(0)]);
}

#[test]
fn needs_quotes_decision() {
    for key in ["a.b", "a-b", "a@b", "a=b", "a b", "a\tb", "a\nb", "a1", "0"] {
        assert!(needs_quotes(key), "{:?} should need quotes", key);
    }
    for key in ["abc", "plain", "hello_world", r#"he"llo"#, "h\u{e9}llo", ""] {
        assert!(!needs_quotes(key), "{:?} should not need quotes", key);
    }
}

#[test]
fn escape_unescape_round_trip() {
    for s in [
        "",
        "plain",
        r#"with "quotes""#,
        r"back\slash",
        "line\nbreak",
        "mix \"of\" \\ and\nall",
    ] {
        assert_eq!(unescape(&escape(s)), s);
    }
}

#[test]
fn escape_exact_forms() {
    assert_eq!(escape(r#"a"b"#), r#"a\"b"#);
    assert_eq!(escape(r"a\b"), r"a\\b");
    assert_eq!(escape("a\nb"), r"a\nb");
    assert_eq!(unescape(r"a\nb"), "a\nb");
    assert_eq!(escape(""), "");
}

#[test]
fn number_literal_grammar() {
    for ok in ["0", "5", "-3", "12.50", "1e5", "-0.5E+17", "9e-2"] {
        assert!(is_number_literal(ok), "{:?} should be a number", ok);
    }
    for bad in ["007", "--1", "1.", ".5", "1e", "+5", "0x10", "", "1 "] {
        assert!(!is_number_literal(bad), "{:?} should not be a number", bad);
    }
}

#[test]
fn literal_parsing() {
    assert_eq!(parse_literal("null"), Some(Value::Null));
    assert_eq!(parse_literal("true"), Some(Value::Bool(true)));
    assert_eq!(parse_literal("false"), Some(Value::Bool(false)));
    assert_eq!(parse_literal("12.5"), Some(Value::Number("12.5".to_string())));
    assert_eq!(
        parse_literal(r#""he \"llo\" there""#),
        Some(Value::String(r#"he "llo" there"#.to_string()))
    );
    assert_eq!(parse_literal(r#""a\nb""#), Some(Value::String("a\nb".to_string())));
    assert_eq!(parse_literal("zzz"), None);
    assert_eq!(parse_literal(r#""unterminated"#), None);
    assert_eq!(parse_literal(r#""extra" tail"#), None);
}

#[test]
fn literal_rendering() {
    assert_eq!(literal_text(&Value::Null), "null");
    assert_eq!(literal_text(&Value::Bool(true)), "true");
    assert_eq!(literal_text(&Value::Bool(false)), "false");
    assert_eq!(literal_text(&Value::Number("1e5".to_string())), "1e5");
    assert_eq!(
        literal_text(&Value::String("he \"llo\"\n".to_string())),
        r#""he \"llo\"\n""#
    );
}

#[test]
fn flatten_scenario() {
    let tree = Value::Object(vec![
        (
            "a".to_string(),
            Value::Array(vec![
                Value::Number("1".to_string()),
                Value::String("x".to_string()),
            ]),
        ),
        ("b-c".to_string(), Value::Bool(true)),
    ]);
    let mut lines: Vec<String> = Vec::new();
    flatten("", &mut lines, &tree);
    assert_eq!(lines, vec!["a[0] = 1", r#"a[1] = "x""#, r#"["b-c"] = true"#]);
}

#[test]
fn flatten_scalar_root_emits_bare_literal() {
    let mut lines: Vec<String> = Vec::new();
    flatten("", &mut lines, &Value::Number("5".to_string()));
    assert_eq!(lines, vec!["5"]);
}

#[test]
fn flatten_quotes_unsafe_and_empty_keys() {
    let tree = Value::Object(vec![
        ("a1".to_string(), Value::Null),
        (String::new(), Value::Bool(false)),
        ("he\"llo".to_string(), Value::Null),
    ]);
    let mut lines: Vec<String> = Vec::new();
    flatten("", &mut lines, &tree);
    assert_eq!(
        lines,
        vec![r#"["a1"] = null"#, r#"[""] = false"#, r#"he"llo = null"#]
    );
}

#[test]
fn dot_skips_separator_on_empty_trail() {
    assert_eq!(dot("", " = "), "");
    assert_eq!(dot("a[0]", " = "), " = ");
}

#[test]
fn from_utf8_keeps_only_nonempty_valid_text() {
    assert_eq!(from_utf8(b"ab"), Some("ab"));
    assert_eq!(from_utf8(b""), None);
    assert_eq!(from_utf8(&[0xff, 0xfe]), None);
    assert_eq!(from_utf8("héllo".as_bytes()), Some("héllo"));
}
