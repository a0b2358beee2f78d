use json_tools::path_segments::{
    index_segment, name_segment, path_segment, path_segments, quoted_name_segment, PathSegment,
};
use json_tools::path_segments::PathSegment::Index;
use json_tools::split::split_smart;

fn len(s: &str) -> usize {
    s.chars().count()
}

#[test]
fn test_index_segment() {
    let input = "[1]";
    assert_eq!(index_segment(input), Some((PathSegment::Index(1), len(input))));
}

#[test]
fn test_empty_index_segment() {
    assert!(index_segment("[]").is_none());
}

#[test]
fn test_name_segment() {
    let input = "abc";
    assert_eq!(
        name_segment(input),
        Some((PathSegment::Name("abc".to_string()), len(input)))
    );
    assert_eq!(
        path_segment(input),
        Some((PathSegment::Name("abc".to_string()), len(input)))
    );
}

#[test]
fn test_escaped_quoted_name_segment() {
    let input = r#"["hello\"world1"]"#;
    assert_eq!(
        quoted_name_segment(input),
        Some((PathSegment::Name(r#"hello\"world1"#.to_string()), len(input)))
    );
    let input = r#"["hello \"world\" 2"]"#;
    assert_eq!(
        quoted_name_segment(input),
        Some((PathSegment::Name(r#"hello \"world\" 2"#.to_string()), len(input)))
    );
}

#[test]
fn test_empty_quoted_name_segment() {
    let input = r#"[""]"#;
    assert_eq!(
        quoted_name_segment(input),
        Some((PathSegment::Name(String::new()), len(input)))
    );
    assert_eq!(
        path_segment(input),
        Some((PathSegment::Name(String::new()), len(input)))
    );
}

#[test]
fn test_quoted_name_segment() {
    let input = r#"["1"]"#;
    assert_eq!(
        quoted_name_segment(input),
        Some((PathSegment::Name("1".to_string()), len(input)))
    );
    assert_eq!(
        path_segment(input),
        Some((PathSegment::Name("1".to_string()), len(input)))
    );
    let input = r#"["one"]"#;
    assert_eq!(
        quoted_name_segment(input),
        Some((PathSegment::Name("one".to_string()), len(input)))
    );
    assert_eq!(
        path_segment(input),
        Some((PathSegment::Name("one".to_string()), len(input)))
    );
    let input = r#"["hello world"]"#;
    assert_eq!(
        quoted_name_segment(input),
        Some((PathSegment::Name("hello world".to_string()), len(input)))
    );
    assert_eq!(
        path_segment(input),
        Some((PathSegment::Name("hello world".to_string()), len(input)))
    );
}

fn name(s: &str) -> PathSegment {
    PathSegment::Name(s.to_string())
}

fn full_parse(input: &str) -> Vec<PathSegment> {
    let (segs, used) = path_segments(input);
    assert_eq!(used, len(input), "not parsed completely: {:?}", input);
    segs
}

#[test]
fn test_escaped_path_segments() {
    assert_eq!(
        full_parse(r#"1.b.["hello \"world\""]"#),
        vec![name("1"), name("b"), name(r#"hello \"world\""#)]
    );
}

#[test]
fn test_path_segments() {
    assert_eq!(full_parse(r#"abc"#), vec![name("abc")]);
    assert_eq!(full_parse(r#"abc.abc"#), vec![name("abc"), name("abc")]);
    assert_eq!(full_parse(r#"abc["1"]"#), vec![name("abc"), name("1")]);
    assert_eq!(full_parse(r#"["1"]["2"]"#), vec![name("1"), name("2")]);
    assert_eq!(full_parse(r#"["1"]["2"][3]"#), vec![name("1"), name("2"), Index(3)]);
    assert_eq!(full_parse(r#"["1"]["2"][3]"#), vec![name("1"), name("2"), Index(3)]);
    assert_eq!(
        full_parse(r#"arrays[2]["special-things"].special"#),
        vec![name("arrays"), Index(2), name("special-things"), name("special")]
    );
    assert_eq!(
        full_parse(r#"1.b.c.d"#),
        vec![name("1"), name("b"), name("c"), name("d")]
    );
    assert_eq!(
        full_parse(r#"1.b.c["d"]"#),
        vec![name("1"), name("b"), name("c"), name("d")]
    );
    assert_eq!(
        full_parse(r#"1.b.["hello world{}[]<>"].d"#),
        vec![name("1"), name("b"), name("hello world{}[]<>"), name("d")]
    );
    assert_eq!(
        full_parse(r#"1.b.["hello world"].d[9]"#),
        vec![name("1"), name("b"), name("hello world"), name("d"), Index(9)]
    );
    assert_eq!(
        full_parse(r#"1.b.["hello world"].d[9].23"#),
        vec![name("1"), name("b"), name("hello world"), name("d"), Index(9), name("23")]
    );
}

#[test]
fn test_split_smart() {
    assert_eq!(split_smart(r#""1"."b"."c"."d""#), vec!["1", "b", "c", "d"]);
    assert_eq!(
        split_smart(r#"1.b."hello world{}[]<>".d"#),
        vec!["1", "b", "hello world{}[]<>", "d"]
    );
    assert_eq!(
        split_smart(r#"1.b."hello world".d[9]"#),
        vec!["1", "b", "hello world", "d[9]"]
    );
    assert_eq!(
        split_smart(r#"1.b."hello world".d[9]."23""#),
        vec!["1", "b", "hello world", "d[9]", "23"]
    );
}
