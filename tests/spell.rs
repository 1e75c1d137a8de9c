use gon::parser::parse_str;
use gon::spell::{gen_indent, key_needs_quoting, quote};
use gon::{Object, SpellConfig, Value};

fn s(text: &str) -> String {
    String::from(text)
}

fn num(text: &str) -> Value {
    Value::Num(s(text))
}

fn obj(pairs: Vec<(&str, Value)>) -> Value {
    Value::Obj(Object { pairs: pairs.into_iter().map(|(k, v)| (s(k), v)).collect() })
}

fn config(trailing_commas: bool) -> SpellConfig {
    SpellConfig { trailing_commas, ..SpellConfig::default() }
}

#[test]
fn default_config() {
    let c = SpellConfig::default();
    assert_eq!(c.indent_amount, 4);
    assert_eq!(c.indent_char, ' ');
    assert!(!c.trailing_commas);
    assert_eq!(c.max_width, 100);
}

#[test]
fn numeric_text_survives_min_spell() {
    let v = parse_str("-9_000").unwrap();
    assert_eq!(v.min_spell(), "-9_000");
}

#[test]
fn min_spell_of_scalars() {
    assert_eq!(Value::Null.min_spell(), "None");
    assert_eq!(Value::Bool(true).min_spell(), "true");
    assert_eq!(Value::Bool(false).min_spell(), "false");
    assert_eq!(Value::Str { text: s("a\"b"), raw: false }.min_spell(), "\"a\\\"b\"");
    assert_eq!(Value::Str { text: s("x"), raw: true }.min_spell(), "r\"x\"");
}

#[test]
fn min_spell_of_containers() {
    let v = obj(vec![("a", num("1")), ("b c", Value::List(vec![num("2"), Value::Null]))]);
    assert_eq!(v.min_spell(), "{a:1,\"b c\":[2,None]}");
    assert_eq!(Value::List(vec![]).min_spell(), "[]");
    assert_eq!(obj(vec![]).min_spell(), "{}");
}

#[test]
fn raw_string_is_neither_squashed_nor_wrapped() {
    let v = parse_str("r\"a  b\"").unwrap();
    assert_eq!(v, Value::Str { text: s("a  b"), raw: true });
    let narrow = SpellConfig { max_width: 2, ..SpellConfig::default() };
    assert_eq!(v.spell(narrow), "r\"a  b\"");
    assert_eq!(v.spell(SpellConfig::default()), "r\"a  b\"");
}

#[test]
fn plain_string_is_squashed() {
    let v = Value::Str { text: s("a  \t b"), raw: false };
    assert_eq!(v.spell(SpellConfig::default()), "\"a b\"");
    let off = SpellConfig { max_width: 0, ..SpellConfig::default() };
    assert_eq!(v.spell(off), "\"a  \t b\"");
}

#[test]
fn long_string_is_wrapped() {
    let v = Value::Str { text: s("one two three four"), raw: false };
    let narrow = SpellConfig { max_width: 10, ..SpellConfig::default() };
    assert_eq!(v.spell(narrow), "\"one two\n    three\n    four\"");
}

#[test]
fn keys_that_need_quotes() {
    assert!(key_needs_quoting("a b"));
    assert!(key_needs_quoting(""));
    assert!(key_needs_quoting("\"x\""));
    assert!(key_needs_quoting(" a"));
    assert!(key_needs_quoting("a@"));
    assert!(!key_needs_quoting("abc"));
    assert!(!key_needs_quoting("x_1"));
    assert!(!key_needs_quoting("12"));
}

#[test]
fn key_quoting_in_both_spellings() {
    let v = obj(vec![("a b", num("1")), ("c", num("2"))]);
    assert_eq!(v.min_spell(), "{\"a b\":1,c:2}");
    assert_eq!(v.spell(SpellConfig::default()), "{\n    \"a b\": 1,\n    c: 2\n}");
}

#[test]
fn trailing_commas_follow_the_config() {
    let v = parse_str("{a: 1, b: 2}").unwrap();
    assert_eq!(v.spell(config(false)), "{\n    a: 1,\n    b: 2\n}");
    assert_eq!(v.spell(config(true)), "{\n    a: 1,\n    b: 2,\n}");
}

#[test]
fn five_scalars_stay_on_one_line() {
    let v = parse_str("[1, 2, 3, 4, 5]").unwrap();
    assert_eq!(v.spell(config(true)), "[1, 2, 3, 4, 5]");
}

#[test]
fn six_scalars_take_one_line_each() {
    let v = parse_str("[1, 2, 3, 4, 5, 6]").unwrap();
    assert_eq!(v.spell(config(false)), "[\n    1,\n    2,\n    3,\n    4,\n    5,\n    6\n]");
}

#[test]
fn nested_object_breaks_the_list() {
    let v = parse_str("[{a: 1}]").unwrap();
    assert_eq!(v.spell(config(false)), "[\n    {\n        a: 1\n    }\n]");
}

#[test]
fn empty_containers() {
    assert_eq!(Value::List(vec![]).spell(SpellConfig::default()), "[]");
    assert_eq!(obj(vec![]).spell(SpellConfig::default()), "{\n}");
}

#[test]
fn indentation_uses_the_configured_character() {
    let tabs = SpellConfig { indent_amount: 1, indent_char: '\t', ..SpellConfig::default() };
    let v = parse_str("{a: {b: true}}").unwrap();
    assert_eq!(v.spell(tabs), "{\n\ta: {\n\t\tb: true\n\t}\n}");
    assert_eq!(gen_indent(3, &tabs), "\t\t\t");
}

#[test]
fn quote_escapes() {
    assert_eq!(quote("a\\b\"c"), "\"a\\\\b\\\"c\"");
}

#[test]
fn spellings_read_back() {
    let text = "{id: 456, name: {first: \"John\", last: \"Doe\"}, house: -9_000, \
                tags: [r\"x\", 2, None, false], \"a b\": []}";
    let v = parse_str(text).unwrap();
    assert_eq!(parse_str(&v.min_spell()), Ok(parse_str(text).unwrap()));
    assert_eq!(parse_str(&v.spell(config(false))), Ok(parse_str(text).unwrap()));
    assert_eq!(parse_str(&v.spell(config(true))), Ok(parse_str(text).unwrap()));
}

#[test]
fn wrapped_lines_are_joined() {
    let mut buf = String::from("x: ");
    gon::spell::push_lines(&mut buf, &vec![s("\"one"), s("  two\"")]);
    assert_eq!(buf, "x: \"one\n  two\"");
    let mut empty = String::new();
    gon::spell::push_lines(&mut empty, &Vec::new());
    assert_eq!(empty, "");
}
