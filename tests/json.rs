use gon::parser::{parse_str, GonError};
use gon::{Object, Value};

fn s(text: &str) -> String {
    String::from(text)
}

fn json(text: &str) -> serde_json::Value {
    serde_json::from_str(text).unwrap()
}

#[test]
fn raw_flag_is_lost_through_json() {
    let raw = Value::Str { text: s("a  b"), raw: true };
    let j = raw.to_json().unwrap();
    assert_eq!(j, serde_json::Value::String(s("a  b")));
    assert_eq!(Value::from_json(j), Value::Str { text: s("a  b"), raw: false });
}

#[test]
fn scalars_to_json() {
    assert_eq!(Value::Null.to_json(), Ok(serde_json::Value::Null));
    assert_eq!(Value::Bool(true).to_json(), Ok(serde_json::Value::Bool(true)));
    assert_eq!(Value::Num(s("42")).to_json(), Ok(serde_json::Value::from(42)));
    assert_eq!(Value::Num(s("-7")).to_json(), Ok(serde_json::Value::from(-7)));
    assert_eq!(Value::Num(s("3.5")).to_json(), Ok(serde_json::Value::from(3.5)));
}

#[test]
fn numbers_without_json_form_are_errors() {
    assert_eq!(
        Value::Num(s("9_000")).to_json(),
        Err(GonError::NumericConversionError(s("9_000")))
    );
    let v = Value::List(vec![Value::Num(s("1")), Value::Num(s("0x1F")), Value::Num(s("1_0"))]);
    assert_eq!(v.to_json(), Err(GonError::NumericConversionError(s("0x1F"))));
}

#[test]
fn big_integer_becomes_a_float() {
    let big = Value::Num(s("100000000000000000000"));
    assert_eq!(big.to_json(), Ok(serde_json::Value::from(1e20)));
}

#[test]
fn containers_to_json() {
    let v = parse_str("{a: [1, true, \"x\"], b: None}").unwrap();
    assert_eq!(v.to_json(), Ok(json("{\"a\": [1, true, \"x\"], \"b\": null}")));
}

#[test]
fn containers_from_json() {
    let v = Value::from_json(json("{\"b\": [1.5, null], \"a\": false}"));
    let expected = Value::Obj(Object {
        pairs: vec![
            (s("a"), Value::Bool(false)),
            (s("b"), Value::List(vec![Value::Num(s("1.5")), Value::Null])),
        ],
    });
    assert_eq!(v, expected);
}

#[test]
fn as_i128_reads_plain_integers() {
    assert_eq!(Value::Num(s("123")).as_i128(), Some(123));
    assert_eq!(Value::Num(s("-45")).as_i128(), Some(-45));
    assert_eq!(Value::Num(s("+5")).as_i128(), Some(5));
    assert_eq!(Value::Num(s("-9_000")).as_i128(), None);
    assert_eq!(Value::Num(s("3.14")).as_i128(), None);
    assert_eq!(Value::Num(s("-")).as_i128(), None);
    assert_eq!(Value::Num(s("")).as_i128(), None);
    assert_eq!(
        Value::Num(s("-170141183460469231731687303715884105728")).as_i128(),
        Some(i128::MIN)
    );
    assert_eq!(Value::Num(s("170141183460469231731687303715884105728")).as_i128(), None);
    assert_eq!(Value::Bool(true).as_i128(), None);
}

#[test]
fn clones_are_equal() {
    let v = parse_str("{a: [1, r\"x\", {b: None}], c: -2}").unwrap();
    let c = v.clone();
    assert_eq!(c, v);
    assert_eq!(v.copy(), v);
    if let Value::Obj(o) = &v {
        assert_eq!(&o.clone(), o);
    } else {
        panic!("not an object");
    }
}

#[test]
fn repeated_key_keeps_its_last_value_in_json() {
    let v = Value::Obj(Object {
        pairs: vec![(s("a"), Value::Num(s("1"))), (s("b"), Value::Null), (s("a"), Value::Num(s("2")))],
    });
    assert_eq!(v.to_json(), Ok(json("{\"a\": 2, \"b\": null}")));
}

#[test]
fn list_wraps_entries() {
    let l = gon::List::new(vec![Value::Null, Value::Bool(true)]);
    assert_eq!(l.len(), 2);
    assert_eq!(l.into_value(), parse_str("[None, true]").unwrap());
}
