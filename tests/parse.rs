use gon::parser::{consume_optional_comma, consume_required_comma, parse_str, GonError, TokenIter};
use gon::token::{Loc, Token};
use gon::{Object, Value};

fn s(text: &str) -> String {
    String::from(text)
}

fn obj(pairs: Vec<(&str, Value)>) -> Value {
    Value::Obj(Object { pairs: pairs.into_iter().map(|(k, v)| (s(k), v)).collect() })
}

fn string(text: &str) -> Value {
    Value::Str { text: s(text), raw: false }
}

fn loc(line: usize, col: usize, pos: usize) -> Loc {
    Loc { line, col, pos }
}

#[test]
fn empty_string() {
    assert_eq!(parse_str(""), Err(GonError::NoValueErr));
}

#[test]
fn single_value_none() {
    assert_eq!(parse_str("None"), Ok(Value::Null));
    assert_eq!(parse_str("none"), Ok(Value::Null));
    assert_eq!(parse_str("NONE"), Ok(Value::Null));
    assert_eq!(parse_str("Null"), Ok(Value::Null));
    assert_eq!(parse_str("null"), Ok(Value::Null));
    assert_eq!(parse_str("NULL"), Ok(Value::Null));
}

#[test]
fn single_value_str() {
    assert_eq!(parse_str("\"hello\""), Ok(string("hello")));
}

#[test]
fn single_value_num() {
    assert_eq!(parse_str("3.14"), Ok(Value::Num("3.14".into())));
    assert_eq!(parse_str("0"), Ok(Value::Num("0".into())));
    assert_eq!(parse_str("-99999"), Ok(Value::Num("-99999".into())));
}

#[test]
fn single_value_bool() {
    assert_eq!(parse_str("true"), Ok(Value::Bool(true)));
    assert_eq!(parse_str("false"), Ok(Value::Bool(false)));
}

#[test]
fn single_value_obj() {
    assert_eq!(parse_str("{}"), Ok(obj(vec![])));
    let a = obj(vec![("pi", Value::Num(s("3.14")))]);
    assert_eq!(parse_str("{pi: 3.14}"), Ok(a));
    let b = obj(vec![("name", string("gon"))]);
    assert_eq!(parse_str("  {\n    name:\n\t\"gon\"\n\n\n\t\t}"), Ok(b));
}

#[test]
fn single_value_list() {
    assert_eq!(parse_str("[]"), Ok(Value::List(Vec::new())));
    assert_eq!(parse_str("[2.71]"), Ok(Value::List(vec![Value::Num(s("2.71"))])));
    assert_eq!(parse_str("[\n\nfalse\t,]"), Ok(Value::List(vec![Value::Bool(false)])));
}

fn many_values_expected() -> Value {
    let name = obj(vec![("first", string("John")), ("last", string("Doe"))]);
    let address = obj(vec![("street", string("Wood Way")), ("house", Value::Num(s("-9_000")))]);
    let friends = Value::List(vec![
        obj(vec![("name", string("Alice"))]),
        obj(vec![("name", string("Bob"))]),
    ]);
    obj(vec![
        ("id", Value::Num(s("456"))),
        ("name", name),
        ("address", address),
        ("alive", Value::Bool(true)),
        ("friends", friends),
    ])
}

const MANY_VALUES: &str = r#"{
            id: 456,
            name: {
                first: "John",
                last: "Doe",
            },
            address: {
                street: "Wood Way",
                house: -9_000,
            },
            alive: true,
            friends: [
                {name: "Alice",},
                {
                    name: "Bob"
                },
            ]
        }"#;

#[test]
fn many_values() {
    assert_eq!(parse_str(MANY_VALUES), Ok(many_values_expected()));
}

#[test]
fn words_in_any_case() {
    assert_eq!(parse_str("TRUE"), Ok(Value::Bool(true)));
    assert_eq!(parse_str("True"), Ok(Value::Bool(true)));
    assert_eq!(parse_str("FaLsE"), Ok(Value::Bool(false)));
    assert_eq!(parse_str("nUlL"), Ok(Value::Null));
}

#[test]
fn raw_string_is_read_with_its_marker() {
    assert_eq!(parse_str("r\"a  b\""), Ok(Value::Str { text: s("a  b"), raw: true }));
    assert_eq!(parse_str("R\"x\""), Ok(Value::Str { text: s("x"), raw: true }));
}

#[test]
fn keys_may_be_strings_or_numbers() {
    let expected = obj(vec![("a b", Value::Num(s("1"))), ("7", Value::Bool(true))]);
    assert_eq!(parse_str("{\"a b\": 1, 7: true}"), Ok(expected));
}

#[test]
fn repeated_key_keeps_its_place() {
    let expected = obj(vec![("a", Value::Num(s("3"))), ("b", Value::Num(s("2")))]);
    assert_eq!(parse_str("{a: 1, b: 2, a: 3}"), Ok(expected));
}

#[test]
fn missing_commas_are_allowed() {
    let expected = Value::List(vec![Value::Num(s("1")), Value::Num(s("2"))]);
    assert_eq!(parse_str("[1 2]"), Ok(expected));
}

#[test]
fn comments_are_skipped() {
    assert_eq!(parse_str("// lead\n[1, // one\n 2]"), Ok(Value::List(vec![
        Value::Num(s("1")),
        Value::Num(s("2")),
    ])));
}

#[test]
fn escapes_in_strings() {
    assert_eq!(parse_str("\"a\\\"b\\\\c\\nd\""), Ok(string("a\"b\\c\nd")));
}

#[test]
fn unclosed_object_points_at_its_brace() {
    assert_eq!(parse_str("{a: 1"), Err(GonError::UnclosedDelimiter('}', loc(1, 1, 0))));
    assert_eq!(parse_str("  {a: 1"), Err(GonError::UnclosedDelimiter('}', loc(1, 3, 2))));
}

#[test]
fn unclosed_list_points_at_its_bracket() {
    assert_eq!(parse_str("[1, 2"), Err(GonError::UnclosedDelimiter(']', loc(1, 1, 0))));
}

#[test]
fn leftover_tokens_point_at_the_second_value() {
    assert_eq!(parse_str("1 2"), Err(GonError::LeftoverTokens(Token::Num(s("2")), loc(1, 3, 2))));
}

#[test]
fn invalid_symbol() {
    assert_eq!(parse_str("maybe"), Err(GonError::InvalidValue(s("maybe"), loc(1, 1, 0))));
    assert_eq!(parse_str("r 5"), Err(GonError::InvalidValue(s("r"), loc(1, 1, 0))));
}

#[test]
fn unexpected_tokens() {
    assert_eq!(parse_str(":"), Err(GonError::UnexpectedToken(Token::Colon, loc(1, 1, 0))));
    assert_eq!(parse_str("- true"), Err(GonError::UnexpectedToken(Token::Minus, loc(1, 1, 0))));
    assert_eq!(parse_str("{[: 1}"), Err(GonError::UnexpectedToken(Token::LBrack, loc(1, 2, 1))));
}

#[test]
fn missing_colon_and_value() {
    assert_eq!(parse_str("{a 1}"), Err(GonError::MissingColon(s("a"), loc(1, 4, 3))));
    assert_eq!(parse_str("{a"), Err(GonError::MissingColon(s("a"), loc(1, 2, 1))));
    assert_eq!(parse_str("{\n  a:"), Err(GonError::MissingValue(s("a"), loc(2, 4, 5))));
}

#[test]
fn lexer_errors() {
    assert_eq!(
        parse_str("[1, @]"),
        Err(GonError::LexerErr(gon::token::LexError::UnexpectedChar('@', loc(1, 5, 4))))
    );
    assert_eq!(
        parse_str("\n \"open"),
        Err(GonError::LexerErr(gon::token::LexError::UnclosedString(loc(2, 2, 2))))
    );
}

#[test]
fn numbers_keep_their_text() {
    assert_eq!(parse_str("-9_000"), Ok(Value::Num(s("-9_000"))));
    assert_eq!(parse_str("1e-5"), Ok(Value::Num(s("1e-5"))));
    assert_eq!(parse_str("0x1F"), Ok(Value::Num(s("0x1F"))));
}

#[test]
fn parse_reads_tokens() {
    let tokens = gon::token::tokenize("[1, x]").unwrap();
    assert_eq!(tokens.len(), 5);
    assert_eq!(tokens[3].inner, Token::Sym(s("x")));
    assert_eq!(tokens[3].loc, loc(1, 5, 4));
    assert_eq!(gon::parse(tokens), Err(GonError::InvalidValue(s("x"), loc(1, 5, 4))));
    assert_eq!(gon::parse(Vec::new()), Err(GonError::NoValueErr));
}

#[test]
fn cursor_tracks_the_last_place() {
    let tokens = gon::token::tokenize("a, b c").unwrap();
    let mut it = TokenIter::new(tokens);
    assert_eq!(it.loc(), loc(1, 1, 0));
    assert_eq!(it.peek().map(|t| &t.inner), Some(&Token::Sym(s("a"))));
    assert!(it.next());
    assert_eq!(it.loc(), loc(1, 1, 0));
    assert_eq!(consume_required_comma(&mut it), Ok(()));
    assert_eq!(it.loc(), loc(1, 2, 1));
    consume_optional_comma(&mut it);
    assert_eq!(it.peek().map(|t| &t.inner), Some(&Token::Sym(s("b"))));
    assert!(it.next());
    assert_eq!(consume_required_comma(&mut it), Err(GonError::MissingComma(loc(1, 6, 5))));
    assert!(it.peek().is_none());
    assert!(!it.next());
}

#[test]
fn no_value_after_colon() {
    assert_eq!(parse_str("{a: }"), Err(GonError::MissingValue(s("a"), loc(1, 5, 4))));
    assert_eq!(parse_str("{a:,b: 1}"), Err(GonError::MissingValue(s("a"), loc(1, 4, 3))));
    assert_eq!(parse_str("[{k: ]"), Err(GonError::MissingValue(s("k"), loc(1, 6, 5))));
    assert_eq!(parse_str("{a: :}"), Err(GonError::MissingValue(s("a"), loc(1, 5, 4))));
    assert_eq!(parse_str("{a: foo}"), Err(GonError::InvalidValue(s("foo"), loc(1, 5, 4))));
}
