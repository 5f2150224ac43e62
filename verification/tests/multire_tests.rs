use r4::mrstream::multire_write;
use r4::stream::Entry;
use std::sync::Arc;
use r4::multire::parse_re_spec;
use r4::multire::MultiRegex;
use r4::multire::ReSpecError;

fn deparse_all(v: Vec<r4::record::Record>) -> Vec<String> {
    v.iter().map(|r| r.deparse()).collect()
}

fn spec(s: &str, pre: bool, post: bool) -> r4::multire::ReSpec {
    match parse_re_spec(s, pre, post) {
        Ok(x) => x,
        Err(_) => panic!("bad spec"),
    }
}

#[test]
fn multire_spec_errors() {
    assert!(matches!(parse_re_spec("nokeys", false, false), Err(ReSpecError::NoEquals)));
    assert!(matches!(parse_re_spec("a=(", false, false), Err(ReSpecError::BadRegex)));
}

#[test]
fn multire_collects_and_flushes_on_clobber() {
    let res = vec![spec("name=^name: (.*)$", false, false), spec("age=^age: (\\d+)$", false, false)];
    let mut m = MultiRegex::new(res, vec![], false, false);
    assert!(m.on_line("name: bob").is_empty());
    assert!(m.on_line("age: 3").is_empty());
    let out = m.on_line("name: al");
    assert_eq!(deparse_all(out), vec!["{\"age\":\"3\",\"name\":\"bob\"}".to_string()]);
    let out = m.finish();
    assert_eq!(deparse_all(out), vec!["{\"name\":\"al\"}".to_string()]);
}

#[test]
fn multire_keep_survives_flush() {
    let res = vec![spec("h=^H (.*)$", true, false), spec("x,y=^(\\w) (\\w)$", false, false)];
    let mut m = MultiRegex::new(res, vec!["h".to_string()], false, false);
    assert!(m.on_line("H one").is_empty());
    assert!(m.on_line("a b").is_empty());
    let out = m.on_line("H two");
    assert_eq!(deparse_all(out), vec!["{\"h\":\"one\",\"x\":\"a\",\"y\":\"b\"}".to_string()]);
    let out = m.on_line("c d");
    assert!(out.is_empty());
    let out = m.on_bof();
    assert_eq!(deparse_all(out), vec!["{\"h\":\"two\",\"x\":\"c\",\"y\":\"d\"}".to_string()]);
    assert!(m.finish().is_empty());
}

#[test]
fn multire_post_flush_and_clobber() {
    let res = vec![spec("v=^(\\d+)$", false, true)];
    let mut m = MultiRegex::new(res, vec![], false, true);
    assert_eq!(deparse_all(m.on_line("1")), vec!["{\"v\":\"1\"}".to_string()]);
    assert!(m.on_line("zz").is_empty());
    assert!(m.finish().is_empty());
}

#[test]
fn multire_unmatched_group_not_set() {
    let res = vec![spec("a,b=^(x)?(y)$", false, false)];
    let mut m = MultiRegex::new(res, vec![], false, false);
    assert!(m.on_line("y").is_empty());
    assert_eq!(deparse_all(m.finish()), vec!["{\"b\":\"y\"}".to_string()]);
}

#[test]
fn multire_stream_writes_until_refused() {
    let res = vec![spec("name=^name: (.*)$", false, false)];
    let mut m = MultiRegex::new(res, vec![], false, false);
    let mut got: Vec<String> = Vec::new();
    let mut w = |e: Entry| {
        match e {
            Entry::Record(r) => got.push(r.deparse()),
            Entry::Bof(f) => got.push(format!("bof {}", f)),
            Entry::Line(l) => got.push(format!("line {}", l)),
        }
        true
    };
    assert!(multire_write(&mut m, Entry::Line(Arc::from("name: a")), &mut w));
    assert!(multire_write(&mut m, Entry::Line(Arc::from("name: b")), &mut w));
    assert!(multire_write(&mut m, Entry::Bof(Arc::from("f2")), &mut w));
    assert_eq!(got, vec!["{\"name\":\"a\"}".to_string(), "{\"name\":\"b\"}".to_string(), "bof f2".to_string()]);
    let mut refuse = |_e: Entry| false;
    assert!(multire_write(&mut m, Entry::Line(Arc::from("name: c")), &mut refuse));
    assert!(!multire_write(&mut m, Entry::Bof(Arc::from("f3")), &mut refuse));
}

#[test]
fn multire_refused_flush_stops_the_line() {
    // the first regex flushes after its match; the second would fill `w`
    let res = vec![spec("v=^(\\d+)", false, true), spec("w=^\\d+ (\\w+)$", false, false)];
    let mut m = MultiRegex::new(res, vec![], false, false);
    let mut refuse = |_e: Entry| false;
    assert!(!multire_write(&mut m, Entry::Line(Arc::from("1 x")), &mut refuse));
    // the second regex was not applied to the line
    assert!(m.finish().is_empty());
    let res = vec![spec("v=^(\\d+)", false, true), spec("w=^\\d+ (\\w+)$", false, false)];
    let mut m = MultiRegex::new(res, vec![], false, false);
    let mut take = |_e: Entry| true;
    assert!(multire_write(&mut m, Entry::Line(Arc::from("1 x")), &mut take));
    assert_eq!(deparse_all(m.finish()), vec!["{\"w\":\"x\"}".to_string()]);
}
