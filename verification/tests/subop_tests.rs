use r4::subop::chain_extra_step;
use r4::subop::CmdsOption;
use r4::subop::SubOperationOption;
use r4::validates::ValidationError;
use r4::vals::OptionalStringOption;

fn args(a: &[&str]) -> Vec<String> {
    a.iter().map(|s| s.to_string()).collect()
}

#[test]
fn subop_push_and_split_name() {
    let mut s = SubOperationOption::default();
    assert!(s.push(&args(&["sort", "-k"])).is_ok());
    assert!(s.push(&args(&["x"])).is_ok());
    let (name, rest) = s.split_name().ok().unwrap();
    assert_eq!(name, "sort");
    assert_eq!(rest, args(&["-k", "x"]));
}

#[test]
fn subop_empty_is_error() {
    let s = SubOperationOption::of(vec![]);
    match s.split_name() {
        Err(ValidationError::Message(m)) => assert_eq!(m, "No sub-operation specified"),
        Ok(_) => panic!("expected an error"),
    }
}

#[test]
fn chain_stages_default_delimiter() {
    let c = CmdsOption { delim: OptionalStringOption(None), args: args(&["a", "b", "|", "c", "|"]) };
    let st = c.stages();
    assert_eq!(st, vec![args(&["a", "b"]), args(&["c"]), args(&[])]);
}

#[test]
fn chain_stages_given_delimiter() {
    let c = CmdsOption { delim: OptionalStringOption(Some("::".to_string())), args: args(&["a", "|", "::", "b"]) };
    let st = c.stages();
    assert_eq!(st, vec![args(&["a", "|"]), args(&["b"])]);
}

#[test]
fn chain_stages_empty() {
    let c = CmdsOption { delim: OptionalStringOption(None), args: vec![] };
    assert_eq!(c.stages(), vec![args(&[])]);
}

#[test]
fn chain_extra_first_stage_keeps() {
    let r = chain_extra_step(None, args(&["f"])).ok().unwrap();
    assert_eq!(r, Some(args(&["f"])));
    let r = chain_extra_step(r, vec![]).ok().unwrap();
    assert_eq!(r, Some(args(&["f"])));
}

#[test]
fn chain_extra_later_stage_refused() {
    match chain_extra_step(Some(vec![]), args(&["x"])) {
        Err(ValidationError::Message(m)) => {
            assert_eq!(m, "Unexpected extra args for non-first chain stage: [\"x\"]")
        }
        Ok(_) => panic!("expected an error"),
    }
}

fn find_parse(name: String, mut a: Vec<String>) -> Result<(String, Vec<String>), ValidationError> {
    if name != "x" {
        return Err(ValidationError::Message(format!("No such op {}", name)));
    }
    if a.is_empty() {
        return Err(ValidationError::Message("x needs an argument".to_string()));
    }
    let first = a.remove(0);
    Ok((format!("x:{}", first), a))
}

fn chain(a: &[&str]) -> Result<(Vec<String>, Vec<String>), String> {
    let c = CmdsOption { delim: OptionalStringOption(None), args: args(a) };
    match c.validate(&find_parse) {
        Ok(o) => Ok((o.extra, o.wrs)),
        Err(ValidationError::Message(m)) => Err(m),
    }
}

#[test]
fn chain_validate_stages_in_order() {
    assert_eq!(chain(&["x", "1", "9", "|", "x", "2"]), Ok((args(&["9"]), args(&["x:1", "x:2"]))));
    assert_eq!(chain(&["x", "1"]), Ok((vec![], args(&["x:1"]))));
}

#[test]
fn chain_validate_first_error_wins() {
    assert_eq!(chain(&["x", "1", "|"]), Err("No sub-operation specified".to_string()));
    assert_eq!(chain(&[]), Err("No sub-operation specified".to_string()));
    assert_eq!(chain(&["y", "|", "|"]), Err("No such op y".to_string()));
    assert_eq!(chain(&["x", "|", "y"]), Err("x needs an argument".to_string()));
    assert_eq!(
        chain(&["x", "1", "|", "x", "2", "3", "|", "y"]),
        Err("Unexpected extra args for non-first chain stage: [\"3\"]".to_string())
    );
}

#[test]
fn subop_validate_looks_up_the_name() {
    match SubOperationOption::of(args(&["x", "5", "6"])).validate(&find_parse) {
        Ok(v) => {
            assert_eq!(v.wr, "x:5");
            assert_eq!(v.extra, args(&["6"]));
        }
        Err(_) => panic!("expected a sub-operation"),
    }
    assert!(SubOperationOption::of(vec![]).validate(&find_parse).is_err());
}
