use json_tools::flatten::flatten;
use json_tools::unflatten::{pair_or_single, trim, unflatten, unflatten_lines, UnflattenError};
use json_tools::value::Value;
use json_tools::PathParseError;

fn lines(raw: &[&str]) -> Vec<String> {
    raw.iter().map(|s| s.to_string()).collect()
}

fn obj(fields: Vec<(&str, Value)>) -> Value {
    Value::Object(fields.into_iter().map(|(k, v)| (k.to_string(), v)).collect())
}

fn num(s: &str) -> Value {
    Value::Number(s.to_string())
}

#[test]
fn unflatten_key_order_follows_line_order() {
    let t = unflatten_lines(&lines(&["a.b = 1", "a.c = 2"])).unwrap();
    assert_eq!(t, obj(vec![("a", obj(vec![("b", num("1")), ("c", num("2"))]))]));

    let t = unflatten_lines(&lines(&["a.c = 2", "a.b = 1"])).unwrap();
    assert_eq!(t, obj(vec![("a", obj(vec![("c", num("2")), ("b", num("1"))]))]));
}

#[test]
fn unflatten_array_root() {
    let t = unflatten_lines(&lines(&["[0] = 1", "[1] = \"x\"", "[2].k = null"])).unwrap();
    assert_eq!(
        t,
        Value::Array(vec![
            num("1"),
            Value::String("x".to_string()),
            obj(vec![("k", Value::Null)]),
        ])
    );
}

#[test]
fn unflatten_appends_array_entries_in_encounter_order() {
    // indices are not seeked to their literal value: entries append
    let t = unflatten_lines(&lines(&["a[5] = 1", "a[5] = 2", "a[9] = 3"])).unwrap();
    assert_eq!(t, obj(vec![("a", Value::Array(vec![num("1"), num("2"), num("3")]))]));
}

#[test]
fn unflatten_empty_input_gives_empty_object() {
    let t = unflatten(&Vec::new()).unwrap();
    assert_eq!(t, Value::Object(Vec::new()));
}

#[test]
fn unflatten_reports_malformed_path() {
    assert_eq!(
        unflatten_lines(&lines(&["a..b = 1"])),
        Err(UnflattenError::Path(PathParseError::Malformed))
    );
    assert_eq!(
        unflatten_lines(&lines(&[" = 1"])),
        Err(UnflattenError::Path(PathParseError::Malformed))
    );
}

#[test]
fn unflatten_reports_missing_value() {
    assert_eq!(unflatten_lines(&lines(&["a"])), Err(UnflattenError::MissingValue));
}

#[test]
fn unflatten_reports_literal_parse() {
    assert_eq!(unflatten_lines(&lines(&["a = zzz"])), Err(UnflattenError::LiteralParse));
}

#[test]
fn unflatten_reports_duplicate_path() {
    assert_eq!(
        unflatten_lines(&lines(&["a = 1", "a = 2"])),
        Err(UnflattenError::DuplicatePath)
    );
}

#[test]
fn unflatten_reports_shape_conflicts() {
    // object vs array at the same position
    assert_eq!(
        unflatten_lines(&lines(&["a.b = 1", "a[0] = 2"])),
        Err(UnflattenError::ShapeConflict)
    );
    // a leaf where a container is needed
    assert_eq!(
        unflatten_lines(&lines(&["a = 1", "a.b = 2"])),
        Err(UnflattenError::ShapeConflict)
    );
    // the root is shaped by the first line; later lines must agree
    assert_eq!(
        unflatten_lines(&lines(&["[0] = 1", "k = 2"])),
        Err(UnflattenError::ShapeConflict)
    );
}

#[test]
fn flatten_then_unflatten_restores_the_tree() {
    let tree = obj(vec![
        (
            "arrays",
            Value::Array(vec![
                num("1"),
                obj(vec![("special", Value::String("hi there".to_string()))]),
            ]),
        ),
        ("b-c", Value::Bool(true)),
        ("note", Value::String("line\nbreak \"and\" quotes".to_string())),
        ("n", Value::Null),
    ]);
    let mut out: Vec<String> = Vec::new();
    flatten("", &mut out, &tree);
    let back = unflatten_lines(&out).unwrap();
    assert_eq!(back, tree);
}

#[test]
fn unflatten_values_are_trimmed_and_unescaped() {
    let t = unflatten_lines(&lines(&["a =   \"he \\\"llo\\\"\"  "])).unwrap();
    assert_eq!(t, obj(vec![("a", Value::String("he \"llo\"".to_string()))]));
}

#[test]
fn pair_or_single_splits_at_first_delimiter() {
    let (path, val) = pair_or_single("a.b = \"x = y\"", '=');
    assert_eq!(path, "a.b");
    assert_eq!(val.as_deref(), Some("\"x = y\""));

    let (path, val) = pair_or_single("  bare  ", '=');
    assert_eq!(path, "bare");
    assert_eq!(val, None);
}

#[test]
fn trim_removes_surrounding_whitespace() {
    assert_eq!(trim("  a b \t"), "a b");
    assert_eq!(trim("\r\n"), "");
    assert_eq!(trim("x"), "x");
}
