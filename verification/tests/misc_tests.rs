use r4::eval::eval_input;
use r4::eval::EvalInput;
use r4::eval::InputType;
use r4::path::Path;
use r4::path::PathStep;
use r4::record::Record;
use r4::registry::Registry;
use r4::stream::Entry;
use r4::tru::TwoRecordUnionOptionValidated;
use r4::validates::ValidationError;
use r4::validates::ValidationResult;
use r4::vals::OptionalUsizeOption;
use r4::vals::StringSetOption;
use r4::vals::StringVecOption;
use r4::validates::Validates;
use std::sync::Arc;

fn text(e: ValidationError) -> String {
    match e {
        ValidationError::Message(s) => s,
    }
}

#[test]
fn validates_label_quotes_message() {
    let e = ValidationError::Message("x \"y\"".to_string()).label("While z");
    assert_eq!(text(e), "While z: \"x \\\"y\\\"\"");
}

#[test]
fn validates_message_is_err() {
    let r: ValidationResult<()> = ValidationError::message("boom");
    assert_eq!(text(r.err().unwrap()), "boom");
}

fn one(a: &[&str]) -> ValidationResult<String> {
    Ok(a[0].to_string())
}

#[test]
fn registry_find_and_errors() {
    let mut reg = Registry::new();
    reg.add("key", 1, one);
    assert_eq!(reg.find("key", &["a"]).ok().unwrap(), "a");
    assert_eq!(text(reg.find("nope", &["a"]).err().unwrap()), "No implementation named nope");
    assert_eq!(text(reg.find("key", &[]).err().unwrap()), "Wrong number of args for key");
}

#[test]
fn vals_string_vec_push_split() {
    let mut v = StringVecOption::default();
    v.push_split("a,b");
    v.push("c,d");
    assert_eq!(v.0, vec!["a".to_string(), "b".to_string(), "c,d".to_string()]);
}

#[test]
fn vals_string_set_dedups_in_order() {
    let mut v = StringSetOption::default();
    v.push_split("b,a,b");
    v.push("a");
    let got = v.validate().ok().unwrap();
    assert_eq!(*got, vec!["b".to_string(), "a".to_string()]);
}

#[test]
fn vals_optional_usize_parse() {
    let mut o = OptionalUsizeOption::default();
    o.parse("042");
    assert_eq!(o.0, Some(42));
}

#[test]
fn path_steps() {
    let p = Path::new("a/#3/b");
    assert_eq!(p.0.len(), 3);
    assert!(matches!(p.0[0], PathStep::RefHash("a")));
    assert!(matches!(p.0[1], PathStep::Array(3)));
    let empty = Path::new("");
    assert_eq!(empty.0.len(), 0);
}

#[test]
fn record_deparse_escapes_and_negatives() {
    let mut r = Record::empty_hash();
    r.set_path("s", Record::from_str("a\"b\n\u{1}"));
    r.set_path("n", Record::from_i64(-12));
    r.set_path("t", Record::from_bool(true));
    r.set_path("z", Record::null());
    assert_eq!(r.deparse(), "{\"n\":-12,\"s\":\"a\\\"b\\n\\u0001\",\"t\":true,\"z\":null}");
}

#[test]
fn record_del_path_and_has_path() {
    let mut r = Record::parse("{\"a\":{\"b\":1,\"c\":2},\"d\":[1,2,3]}");
    assert!(r.has_path("a/b"));
    let old = r.del_path("a/b");
    assert_eq!(old.deparse(), "1");
    assert!(!r.has_path("a/b"));
    let old = r.del_path("d/#0");
    assert_eq!(old.deparse(), "1");
    assert_eq!(r.deparse(), "{\"a\":{\"c\":2},\"d\":[2,3]}");
}

#[test]
fn record_equals_and_pretty() {
    let a = Record::parse("{\"x\":[1,\"y\"]}");
    let b = Record::parse("{ \"x\" : [ 1 , \"y\" ] }");
    let c = Record::parse("{\"x\":[1,\"z\"]}");
    assert!(a.equals(&b));
    assert!(!a.equals(&c));
    assert_eq!(Record::from_str("abc").pretty_string(), "abc");
    assert_eq!(Record::from_i64(5).pretty_string(), "5");
}

#[test]
fn record_try_parse_rejects() {
    assert!(Record::try_parse("{\"a\":").is_none());
    assert!(!Record::json_ok("nope"));
    assert!(Record::json_ok("[1]"));
}

#[test]
fn tru_union_with_prefixes() {
    let o = TwoRecordUnionOptionValidated { left_prefix: Some("l".to_string()), right_prefix: None };
    let r = o.union(Record::parse("{\"a\":1}"), Record::parse("{\"b\":2,\"a\":3}"));
    assert_eq!(r.deparse(), "{\"a\":3,\"b\":2,\"l\":{\"a\":1}}");
    let r = o.union_maybe(None, Some(Record::parse("{\"b\":2}")));
    assert_eq!(r.deparse(), "{\"b\":2}");
}

#[test]
fn eval_input_kinds() {
    match eval_input(Entry::Line(Arc::from("{\"a\":1}")), &InputType::Records()) {
        EvalInput::Evaluate(r) => assert_eq!(r.deparse(), "{\"a\":1}"),
        _ => panic!("expected a record"),
    }
    assert!(matches!(eval_input(Entry::Line(Arc::from("{")), &InputType::Records()), EvalInput::NotJson));
    match eval_input(Entry::Line(Arc::from("{")), &InputType::Lines()) {
        EvalInput::Evaluate(r) => assert_eq!(r.deparse(), "\"{\""),
        _ => panic!("expected a record"),
    }
    match eval_input(Entry::Record(Record::parse("[1]")), &InputType::Lines()) {
        EvalInput::Evaluate(r) => assert_eq!(r.deparse(), "\"[1]\""),
        _ => panic!("expected a record"),
    }
    assert!(matches!(eval_input(Entry::Bof(Arc::from("f")), &InputType::Lines()), EvalInput::Forward(Entry::Bof(_))));
}
