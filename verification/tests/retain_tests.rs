use r4::parser::ExtraHandler;
use r4::parser::OptParser;
use r4::parser::RetainError;

#[derive(Default)]
struct Got {
    keys: Vec<String>,
    flag: bool,
    first: Option<String>,
    rest: Vec<String>,
}

fn named(id: usize, p: &mut Got, a: &[String]) {
    if id == 0 {
        p.keys.push(a[0].clone());
    } else {
        p.flag = true;
    }
}

fn soft(_id: usize, p: &mut Got, a: &str) -> bool {
    if a.starts_with('@') && p.first.is_none() {
        p.first = Some(a.to_string());
        return true;
    }
    false
}

fn hard(_id: usize, p: &mut Got, a: &[String]) {
    p.rest.extend_from_slice(a);
}

fn args(a: &[&str]) -> Vec<String> {
    a.iter().map(|s| s.to_string()).collect()
}

fn parser(with_hard: bool) -> OptParser {
    let mut p = OptParser::new();
    p.add_named("key", 1, 0);
    p.add_named("v", 0, 1);
    p.add_extra(ExtraHandler::Soft(0));
    if with_hard {
        p.add_extra(ExtraHandler::Hard(1));
    }
    p
}

#[test]
fn retain_keeps_untaken_in_order() {
    let p = parser(false);
    let mut a = args(&["x", "--key", "k1", "@f", "y", "-v", "z", "--", "-w"]);
    let mut g = Got::default();
    assert!(p.parse_retain(&mut a, &mut g, &named, &soft, &hard).is_ok());
    assert_eq!(a, args(&["x", "y", "z", "-w"]));
    assert_eq!(g.keys, args(&["k1"]));
    assert!(g.flag);
    assert_eq!(g.first, Some("@f".to_string()));
}

#[test]
fn retain_hard_takes_rest() {
    let p = parser(true);
    let mut a = args(&["a", "-v", "b"]);
    let mut g = Got::default();
    assert!(p.parse_retain(&mut a, &mut g, &named, &soft, &hard).is_ok());
    assert!(a.is_empty());
    assert_eq!(g.rest, args(&["a", "-v", "b"]));
}

#[test]
fn retain_names_must_be_exact() {
    let p = parser(false);
    let mut a = args(&["--ke", "x"]);
    let mut g = Got::default();
    match p.parse_retain(&mut a, &mut g, &named, &soft, &hard) {
        Err(RetainError::UnknownOption(n)) => assert_eq!(n, "ke"),
        _ => panic!("expected an unknown option"),
    }
}

#[test]
fn retain_missing_arguments() {
    let p = parser(false);
    let mut a = args(&["--key"]);
    let mut g = Got::default();
    match p.parse_retain(&mut a, &mut g, &named, &soft, &hard) {
        Err(RetainError::MissingArguments(n)) => assert_eq!(n, "--key"),
        _ => panic!("expected missing arguments"),
    }
}

#[test]
fn retain_without_extras_keeps_exactly_the_unconsumed() {
    let mut p = OptParser::new();
    p.add_named("key", 1, 0);
    p.add_named("v", 0, 1);
    let mut a = args(&["x", "--key", "k1", "-v", "y", "--", "--key", "z"]);
    let mut g = Got::default();
    assert!(p.parse_retain(&mut a, &mut g, &named, &soft, &hard).is_ok());
    assert_eq!(a, args(&["x", "y", "--key", "z"]));
    assert_eq!(g.keys, args(&["k1"]));
    assert!(g.flag);
}

#[test]
fn retain_without_extras_fails_on_unknown_option() {
    let mut p = OptParser::new();
    p.add_named("key", 1, 0);
    let mut a = args(&["x", "--nope"]);
    let mut g = Got::default();
    assert!(p.parse_retain(&mut a, &mut g, &named, &soft, &hard).is_err());
}

#[test]
fn retain_error_leaves_args_as_they_were() {
    let p = parser(false);
    let mut a = args(&["x", "--nope", "y"]);
    let mut g = Got::default();
    assert!(p.parse_retain(&mut a, &mut g, &named, &soft, &hard).is_err());
    assert_eq!(a, args(&["x", "--nope", "y"]));
}

#[test]
fn retain_handlers_run_in_order() {
    let p = parser(true);
    let mut a = args(&["--key", "k1", "x", "--key", "k2", "@a", "@b", "tail"]);
    let mut g = Got::default();
    assert!(p.parse_retain(&mut a, &mut g, &named, &soft, &hard).is_ok());
    assert_eq!(g.keys, args(&["k1"]));
    assert_eq!(g.rest, args(&["x", "--key", "k2", "@a", "@b", "tail"]));
    assert!(a.is_empty());
}
