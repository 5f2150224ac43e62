use r4::lineops::from_regex_line;
use r4::lineops::from_split_line;
use r4::lineops::Delimiter;
use r4::regexes::compile_regex;

fn keys(a: &[&str]) -> Vec<String> {
    a.iter().map(|s| s.to_string()).collect()
}

#[test]
fn from_regex_sets_groups() {
    let re = compile_regex("^(\\w+)=(\\d+)(!)?$").unwrap();
    let r = from_regex_line(&re, &keys(&["k", "v", "bang"]), "a=12").unwrap();
    assert_eq!(r.deparse(), "{\"k\":\"a\",\"v\":\"12\"}");
    assert!(from_regex_line(&re, &keys(&["k"]), "nope").is_none());
}

#[test]
fn from_regex_nested_keys() {
    let re = compile_regex("(x)(y)").unwrap();
    let r = from_regex_line(&re, &keys(&["a/b"]), "xy").unwrap();
    assert_eq!(r.deparse(), "{\"a\":{\"b\":\"x\"}}");
}

#[test]
fn from_split_on_string() {
    let d = Delimiter::Str(",".to_string());
    let r = from_split_line(&d, &keys(&["x", "y"]), "a,b,c");
    assert_eq!(r.deparse(), "{\"x\":\"a\",\"y\":\"b\"}");
    let r = from_split_line(&d, &keys(&["x", "y", "z"]), "a");
    assert_eq!(r.deparse(), "{\"x\":\"a\"}");
    let d = Delimiter::Str("::".to_string());
    let r = from_split_line(&d, &keys(&["x", "y"]), "a::b");
    assert_eq!(r.deparse(), "{\"x\":\"a\",\"y\":\"b\"}");
}

#[test]
fn from_split_on_regex() {
    let d = Delimiter::Regex(compile_regex("\\s+").unwrap());
    let r = from_split_line(&d, &keys(&["x", "y"]), "a   b");
    assert_eq!(r.deparse(), "{\"x\":\"a\",\"y\":\"b\"}");
}
