use envy_flat::dotenv::{from_str, into_fixed, parse_document, parse_line, SubstitutionData};
use envy_flat::error::Error;
use envy_flat::matcher::{apply_template, dotenv_template, rename, strip_quotes};
use envy_flat::output::{binary_template, Casing, Output};
use envy_flat::input::guess_input_format;

fn no_env() -> Vec<(String, String)> {
    Vec::new()
}

fn one(line: &str) -> Result<Option<(String, String)>, Error> {
    let mut data = SubstitutionData::new();
    parse_line(line, &no_env(), &mut data)
}

fn pair(k: &str, v: &str) -> Result<Option<(String, String)>, Error> {
    Ok(Some((k.to_string(), v.to_string())))
}

#[test]
fn plain_pair() {
    assert_eq!(one("KEY=VALUE"), pair("KEY", "VALUE"));
    assert_eq!(one("a.b_c=x/y:z"), pair("a.b_c", "x/y:z"));
}

#[test]
fn blank_and_comment_lines_are_skipped() {
    assert_eq!(one(""), Ok(None));
    assert_eq!(one("   "), Ok(None));
    assert_eq!(one("  # a comment"), Ok(None));
}

#[test]
fn export_prefix_and_export_key() {
    assert_eq!(one("export KEY=v"), pair("KEY", "v"));
    assert_eq!(one("export=v"), pair("export", "v"));
}

#[test]
fn empty_value_declares_key() {
    let mut data = SubstitutionData::new();
    let env = no_env();
    assert_eq!(parse_line("A=", &env, &mut data), pair("A", ""));
    assert_eq!(parse_line("B=$A", &env, &mut data), pair("B", ""));
    assert_eq!(parse_line("C= # note", &env, &mut data), pair("C", ""));
}

#[test]
fn single_quotes_are_verbatim() {
    assert_eq!(one("A='$B;x'"), pair("A", "$B;x"));
    assert_eq!(one(r"A='a\n b'"), pair("A", r"a\n b"));
}

#[test]
fn double_quotes_take_escapes() {
    assert_eq!(one(r#"A="x\ny""#), pair("A", "x\ny"));
    assert_eq!(one(r#"A="a \"q\" b""#), pair("A", "a \"q\" b"));
}

#[test]
fn unquoted_escapes() {
    assert_eq!(one(r"A=a\ b"), pair("A", "a b"));
    assert_eq!(one(r"A=a\$b"), pair("A", "a$b"));
}

#[test]
fn bad_escape_is_an_error() {
    assert_eq!(one(r"A=a\qb"), Err(Error::LineParse(r"A=a\qb".to_string(), 4)));
}

#[test]
fn trailing_comment_and_whitespace() {
    assert_eq!(one("A=b # c"), pair("A", "b"));
    assert_eq!(one("A=b   "), pair("A", "b"));
    assert_eq!(one("  A = b"), pair("A", "b"));
}

#[test]
fn text_after_value_is_an_error() {
    assert_eq!(one("A=b c"), Err(Error::LineParse("A=b c".to_string(), 4)));
}

#[test]
fn unterminated_quote_reports_line() {
    assert_eq!(one("A='open"), Err(Error::LineParse("A='open".to_string(), 6)));
    assert_eq!(one("A=\"open"), Err(Error::LineParse("A=\"open".to_string(), 6)));
    assert_eq!(one("A=${open"), Err(Error::LineParse("A=${open".to_string(), 7)));
}

#[test]
fn bad_key_is_an_error() {
    assert_eq!(one("1A=b"), Err(Error::LineParse("1A=b".to_string(), 0)));
    assert_eq!(one("A b"), Err(Error::LineParse("A b".to_string(), 2)));
    assert_eq!(one("export A b"), Err(Error::LineParse("export A b".to_string(), 9)));
}

#[test]
fn reference_to_earlier_line() {
    let pairs = parse_document("B=hello\nA=$B\n", no_env()).unwrap();
    assert_eq!(pairs[1], ("A".to_string(), "hello".to_string()));
}

#[test]
fn environment_wins_over_document() {
    let env = vec![("B".to_string(), "env".to_string())];
    let pairs = parse_document("B=hello\nA=$B\nC=${B}x\n", env).unwrap();
    assert_eq!(pairs[1], ("A".to_string(), "env".to_string()));
    assert_eq!(pairs[2], ("C".to_string(), "envx".to_string()));
}

#[test]
fn bare_reference_stops_at_underscore() {
    let pairs = parse_document("A=1\nA_B=2\nC=$A_B\n", no_env()).unwrap();
    assert_eq!(pairs[2], ("C".to_string(), "1_B".to_string()));
}

#[test]
fn braced_reference_takes_any_name() {
    let pairs = parse_document("A_B=2\nC=${A_B}!\n", no_env()).unwrap();
    assert_eq!(pairs[1], ("C".to_string(), "2!".to_string()));
}

#[test]
fn unknown_reference_is_empty() {
    assert_eq!(one("A=x$NOPEy"), pair("A", "x"));
    assert_eq!(one("A=x${NOPE}y"), pair("A", "xy"));
}

#[test]
fn stream_keeps_document_order_and_stops_at_error() {
    let mut it = from_str("Z=1\r\n\n# c\nA=2\nbad line\nB=3", no_env()).unwrap();
    assert_eq!(it.next(), Some(Ok(("Z".to_string(), "1".to_string()))));
    assert_eq!(it.next(), Some(Ok(("A".to_string(), "2".to_string()))));
    assert_eq!(it.next(), Some(Err(Error::LineParse("bad line".to_string(), 4))));
    assert_eq!(it.next(), None);
}

#[test]
fn stream_ends() {
    let mut it = from_str("A=1\n", no_env()).unwrap();
    assert_eq!(it.next(), Some(Ok(("A".to_string(), "1".to_string()))));
    assert_eq!(it.next(), None);
}

#[test]
fn dotenv_template_fixing() {
    assert_eq!(into_fixed("a=$BAZ;b=$BURG"), "a=BAZ\nb=BURG");
}

#[test]
fn dotenv_template_renames_and_filters() {
    let template = dotenv_template("a=$BAZ;b=$BURG", no_env()).unwrap();
    let pairs = parse_document("a=1\nc=3\nb=2\n", no_env()).unwrap();
    let out = apply_template(&template, &pairs);
    assert_eq!(
        out,
        vec![("BAZ".to_string(), "1".to_string()), ("BURG".to_string(), "2".to_string())]
    );
}

#[test]
fn rename_strips_quotes() {
    let template = vec![("k".to_string(), "\"N\"".to_string())];
    assert_eq!(
        rename(&template, &"k".to_string(), &"v".to_string()),
        Some(("N".to_string(), "v".to_string()))
    );
    assert_eq!(rename(&template, &"x".to_string(), &"v".to_string()), None);
    assert_eq!(strip_quotes("\"a\"b\""), "ab");
}

#[test]
fn casing_modes() {
    assert_eq!(Casing::Upper.apply("ab.C"), "AB.C");
    assert_eq!(Casing::Lower.apply("ab.C"), "ab.c");
    assert_eq!(Casing::Insensitive.apply("ab.C"), "ab.C");
    assert_eq!(Casing::default(), Casing::Insensitive);
    assert_eq!(Casing::Upper.name(), "upper");
}

#[test]
fn output_line_renders_key_only() {
    let o = Output::new(Casing::Upper, '_');
    assert_eq!(o.line("a\u{1F}b", "v\u{1F}w"), "A_B=v\u{1F}w; export A_B;");
}

#[test]
fn binary_template_text() {
    assert_eq!(binary_template("/bin/sh", "v"), "\n#!/bin/sh\necho v\n    ");
}

#[test]
fn format_guessing() {
    assert_eq!(guess_input_format("{\"a\": 1}"), Ok("json".to_string()));
    assert_eq!(guess_input_format("A='a: b: c'"), Ok("dotenv".to_string()));
    assert_eq!(
        guess_input_format("a: b: c"),
        Err(Error::InvalidInputFormat("Unsupported data format from stdin".to_string()))
    );
    assert_eq!(guess_input_format("a: b"), Ok("yaml".to_string()));
}

#[test]
fn error_offsets_count_bytes() {
    assert_eq!(one("A=\u{e9}x y"), Err(Error::LineParse("A=\u{e9}x y".to_string(), 6)));
    assert_eq!(one("\u{3000}1A=b"), Err(Error::LineParse("\u{3000}1A=b".to_string(), 3)));
    assert_eq!(one("A='\u{e9}"), Err(Error::LineParse("A='\u{e9}".to_string(), 4)));
}

#[test]
fn map_is_consulted_for_every_name() {
    let mut data = SubstitutionData::new();
    data.insert(String::new(), Some("x".to_string()));
    assert_eq!(parse_line("A=$", &no_env(), &mut data), pair("A", "x"));
    assert_eq!(parse_line("B=${}", &no_env(), &mut data), pair("B", "x"));
}
