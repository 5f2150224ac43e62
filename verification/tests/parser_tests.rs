use r4::parser::name_from_arg;
use r4::parser::ExtraHandler;
use r4::parser::OptParser;
use r4::validates::ValidationError;
use r4::validates::ValidationResult;

#[derive(Default, Debug, PartialEq)]
struct Opts {
    keys: Vec<String>,
    verbose: bool,
    pairs: Vec<(String, String)>,
    file: Option<String>,
    rest: Vec<String>,
}

fn text(e: ValidationError) -> String {
    match e {
        ValidationError::Message(s) => s,
    }
}

fn parser() -> OptParser {
    let mut p = OptParser::new();
    p.add_named("key", 1, 0);
    p.add_named("k", 1, 0);
    p.add_named("verbose", 0, 1);
    p.add_named("on", 2, 2);
    p.add_named("keep", 1, 0);
    p.add_extra(ExtraHandler::Soft(0));
    p.add_extra(ExtraHandler::Hard(1));
    p
}

fn named(id: usize, p: &mut Opts, a: &[String]) -> ValidationResult<()> {
    match id {
        0 => {
            if a[0] == "bad" {
                return ValidationError::message("bad key");
            }
            p.keys.push(a[0].clone());
        }
        1 => p.verbose = true,
        _ => p.pairs.push((a[0].clone(), a[1].clone())),
    }
    Ok(())
}

fn soft(_id: usize, p: &mut Opts, a: &str) -> ValidationResult<bool> {
    if p.file.is_none() {
        p.file = Some(a.to_string());
        return Ok(true);
    }
    Ok(false)
}

fn hard(_id: usize, p: &mut Opts, a: &[String]) -> ValidationResult<()> {
    p.rest.extend_from_slice(a);
    Ok(())
}

fn args(a: &[&str]) -> Vec<String> {
    a.iter().map(|s| s.to_string()).collect()
}

#[test]
fn parser_name_from_arg() {
    assert_eq!(name_from_arg("--key"), Some("key".to_string()));
    assert_eq!(name_from_arg("-k"), Some("k".to_string()));
    assert_eq!(name_from_arg("key"), None);
    assert_eq!(name_from_arg("--"), Some("".to_string()));
    assert_eq!(name_from_arg("-"), Some("".to_string()));
}

#[test]
fn parser_full_run() {
    let p = parser();
    let r: Opts = p
        .parse(&args(&["--key", "a", "-verb", "--on", "x", "y", "f.txt", "more", "--", "-k"]), &named, &soft, &hard)
        .ok()
        .unwrap();
    assert_eq!(r.keys, vec!["a".to_string()]);
    assert!(r.verbose);
    assert_eq!(r.pairs, vec![("x".to_string(), "y".to_string())]);
    assert_eq!(r.file, Some("f.txt".to_string()));
    assert_eq!(r.rest, args(&["more", "--", "-k"]));
}

#[test]
fn parser_empty_args() {
    let p = parser();
    let r: Opts = p.parse(&[], &named, &soft, &hard).ok().unwrap();
    assert_eq!(r, Opts::default());
}

#[test]
fn parser_exact_short_name_wins() {
    let p = parser();
    let r: Opts = p.parse(&args(&["-k", "z"]), &named, &soft, &hard).ok().unwrap();
    assert_eq!(r.keys, vec!["z".to_string()]);
}

#[test]
fn parser_refuse_options_after_double_dash() {
    let p = parser();
    let r: Opts = p.parse(&args(&["--", "--key"]), &named, &soft, &hard).ok().unwrap();
    assert_eq!(r.file, Some("--key".to_string()));
    assert!(r.keys.is_empty());
}

#[test]
fn parser_no_such_option() {
    let p = parser();
    let e = p.parse::<Opts, _, _, _>(&args(&["--zzz"]), &named, &soft, &hard).err().unwrap();
    assert_eq!(text(e), "No such option zzz");
}

#[test]
fn parser_ambiguous_option() {
    let p = parser();
    let e = p.parse::<Opts, _, _, _>(&args(&["--ke"]), &named, &soft, &hard).err().unwrap();
    let t = text(e);
    assert!(t.starts_with("Option ke is ambiguous (e.g.  "), "{}", t);
}

#[test]
fn parser_not_enough_arguments() {
    let p = parser();
    let e = p.parse::<Opts, _, _, _>(&args(&["--on", "x"]), &named, &soft, &hard).err().unwrap();
    assert_eq!(text(e), "Not enough arguments for --on");
}

#[test]
fn parser_handler_error_is_labelled() {
    let p = parser();
    let e = p.parse::<Opts, _, _, _>(&args(&["--key", "bad"]), &named, &soft, &hard).err().unwrap();
    assert_eq!(text(e), "While handline [\"--key\", \"bad\"]: \"bad key\"");
}

#[test]
fn parser_unexpected_extra() {
    let mut p = OptParser::new();
    p.add_named("v", 0, 1);
    let e = p.parse::<Opts, _, _, _>(&args(&["a", "b"]), &named, &soft, &hard).err().unwrap();
    assert_eq!(text(e), "Unexpected extra arguments: [\"a\", \"b\"]");
}

#[test]
fn parser_has_named() {
    let p = parser();
    assert!(p.has_named("key"));
    assert!(!p.has_named("ke"));
}

#[test]
fn parser_later_handler_failure_stops_the_run() {
    let mut p = OptParser::new();
    p.add_named("key", 1, 0);
    p.add_named("verbose", 0, 1);
    let mut o = Opts::default();
    let r = p.parse_mut(&args(&["--key", "a", "--key", "bad", "--verbose"]), &mut o, &named, &soft, &hard);
    assert_eq!(text(r.err().unwrap()), "While handline [\"--key\", \"bad\"]: \"bad key\"");
    assert_eq!(o.keys, vec!["a".to_string()]);
    assert!(!o.verbose);
}

#[test]
fn parser_each_call_once_in_order() {
    let p = parser();
    let mut o = Opts::default();
    o.keys.push("start".to_string());
    let r = p.parse_mut(
        &args(&["--key", "a", "--on", "x", "y", "--key", "b", "f", "r1", "r2"]),
        &mut o,
        &named,
        &soft,
        &hard,
    );
    assert!(r.is_ok());
    assert_eq!(o.keys, args(&["start", "a", "b"]));
    assert_eq!(o.pairs, vec![("x".to_string(), "y".to_string())]);
    assert_eq!(o.file, Some("f".to_string()));
    assert_eq!(o.rest, args(&["r1", "r2"]));
}

#[test]
fn parser_parse_starts_from_default() {
    let p = parser();
    let v: Opts = p.parse(&args(&["-k", "a", "--verbose"]), &named, &soft, &hard).ok().unwrap();
    assert_eq!(v.keys, args(&["a"]));
    assert!(v.verbose);
    assert_eq!(v.file, None);
}
