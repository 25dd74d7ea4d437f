use envy_flat::json::{flatten, into_fixed, JsonValue};
use envy_flat::matcher::{apply_template, json_pairs, json_template};
use envy_flat::output::{Casing, Output};

const INVALID_JSON: &str = r#"{"key": value}"#;
const VALID_JSON: &str = r#"{"key": "value"}"#;
const VALID_COMPLEX_JSON: &str =
    r#" { "foo": "bar", "baz": { "quz": "qork" }, "boo": [ "bah", { "lol": "lurg" } ] } "#;

fn tree(v: &serde_json::Value) -> JsonValue {
    match v {
        serde_json::Value::Null => JsonValue::Null,
        serde_json::Value::Bool(b) => JsonValue::Bool(*b),
        serde_json::Value::Number(n) => JsonValue::Number(n.to_string()),
        serde_json::Value::String(s) => JsonValue::String(s.clone()),
        serde_json::Value::Array(a) => JsonValue::Array(a.iter().map(tree).collect()),
        serde_json::Value::Object(m) => {
            JsonValue::Object(m.iter().map(|(k, v)| (k.clone(), tree(v))).collect())
        }
    }
}

fn run(input: &str, template: Option<&str>, separator: char, casing: Casing) -> String {
    let data: serde_json::Value = serde_json::from_str(input).unwrap();
    let pairs = json_pairs(&flatten(&tree(&data)));
    let pairs = match template {
        Some(t) => {
            let fixed = into_fixed(t);
            let parsed: serde_json::Value = serde_json::from_str(&fixed).unwrap();
            apply_template(&json_template(&tree(&parsed)), &pairs)
        }
        None => pairs,
    };
    let output = Output::new(casing, separator);
    let mut out = String::new();
    for (k, v) in &pairs {
        out.push_str(&output.line(k, v));
        out.push('\n');
    }
    out
}

#[test]
fn test_invalid_json() {
    let err = serde_json::from_str::<serde_json::Value>(INVALID_JSON).unwrap_err();
    let shown = format!("Error: Json({:?})\n", err);
    assert!(shown.contains("Error: Json(Error(\"expected value\", line: 1, column: 9))\n"));
}

#[test]
fn test_valid_json() {
    let out = run(VALID_JSON, None, '.', Casing::Insensitive);
    assert!(out.contains("key=value; export key;"));
}

#[test]
fn test_valid_complex_json() {
    let out = run(VALID_COMPLEX_JSON, None, '.', Casing::Insensitive);
    assert!(out.contains(
        r#"baz.quz=qork; export baz.quz;
boo.0=bah; export boo.0;
boo.1.lol=lurg; export boo.1.lol;
foo=bar; export foo;"#
    ));
}

#[test]
fn test_valid_complex_json_with_matches() {
    let out = run(
        VALID_COMPLEX_JSON,
        Some(r#"{"foo": $BAR, "boo": [$BAH, { "lol": $LURG }] }"#),
        '.',
        Casing::Insensitive,
    );
    assert!(out.contains(
        r#"BAH=bah; export BAH;
LURG=lurg; export LURG;
BAR=bar; export BAR;"#
    ));
}

#[test]
fn test_valid_complex_json_custom_separator() {
    let out = run(VALID_COMPLEX_JSON, None, '_', Casing::Insensitive);
    assert!(out.contains(
        r#"baz_quz=qork; export baz_quz;
boo_0=bah; export boo_0;
boo_1_lol=lurg; export boo_1_lol;
foo=bar; export foo;"#
    ));
}

#[test]
fn test_valid_complex_json_custom_separator_and_upper_casing() {
    let out = run(VALID_COMPLEX_JSON, None, '_', Casing::Upper);
    assert!(out.contains(
        r#"BAZ_QUZ=qork; export BAZ_QUZ;
BOO_0=bah; export BOO_0;
BOO_1_LOL=lurg; export BOO_1_LOL;
FOO=bar; export FOO;"#
    ));
}

#[test]
fn complex_json_flattens_in_path_order() {
    let data: serde_json::Value = serde_json::from_str(VALID_COMPLEX_JSON).unwrap();
    let pairs = json_pairs(&flatten(&tree(&data)));
    let keys: Vec<String> = pairs.iter().map(|(k, _)| k.replace('\u{1F}', ".")).collect();
    assert_eq!(keys, vec!["baz.quz", "boo.0", "boo.1.lol", "foo"]);
    let values: Vec<&str> = pairs.iter().map(|(_, v)| v.as_str()).collect();
    assert_eq!(values, vec!["qork", "bah", "lurg", "bar"]);
}

#[test]
fn non_string_leaves_emit_empty_values() {
    let out = run(r#"{"n": 1, "b": true, "z": null, "a": [2]}"#, None, '.', Casing::Insensitive);
    assert_eq!(
        out,
        "a.0=; export a.0;\nb=; export b;\nn=; export n;\nz=; export z;\n"
    );
}

#[test]
fn deep_objects_keep_every_segment() {
    let out = run(r#"{"a": {"b": {"c": "x"}}}"#, None, '.', Casing::Insensitive);
    assert_eq!(out, "a.b.c=x; export a.b.c;\n");
}

#[test]
fn top_level_array_paths_are_bare_indices() {
    let out = run(r#"["x", "y"]"#, None, '.', Casing::Insensitive);
    assert_eq!(out, "0=x; export 0;\n1=y; export 1;\n");
}

#[test]
fn template_keys_missing_from_input_emit_nothing() {
    let out = run(
        VALID_COMPLEX_JSON,
        Some(r#"{"foo": $BAR, "nope": $NOPE}"#),
        '.',
        Casing::Insensitive,
    );
    assert_eq!(out, "BAR=bar; export BAR;\n");
}

#[test]
fn separator_leaves_single_segment_keys() {
    let out = run(r#"{"k": "v", "o": {"i": "w"}}"#, None, '-', Casing::Insensitive);
    assert_eq!(out, "k=v; export k;\no-i=w; export o-i;\n");
}

#[test]
fn lower_casing_leaves_values() {
    let out = run(r#"{"KeY": "VaL"}"#, None, '.', Casing::Lower);
    assert_eq!(out, "key=VaL; export key;\n");
}

#[test]
fn json_template_fixing_quotes_placeholders() {
    assert_eq!(into_fixed(r#"{"a": $X}"#), r#"{"a": "X"}"#);
}
