use r4::parser::ExtraHandler;
use r4::pile::OptionsPile;
use r4::pile::OptionsPileElement;
use r4::pile::PileMatch;

#[test]
fn pile_builds_the_parser() {
    let mut p = OptionsPile::new();
    p.match_single(&["k", "key"], 0);
    p.match_zero(&["v"], 1);
    p.match_extra_soft(2);
    let mut q = OptionsPile::new();
    q.match_n(&["on"], 2, 3);
    q.match_extra_hard(4);
    p.add(q);
    let parser = p.to_parser();
    assert!(parser.has_named("k"));
    assert!(parser.has_named("key"));
    assert!(parser.has_named("v"));
    assert!(parser.has_named("on"));
    assert!(!parser.has_named("ke"));
    let args: Vec<String> = ["--key", "x", "-v", "--on", "a", "b"].iter().map(|s| s.to_string()).collect();
    let mut state: Vec<(usize, Vec<String>)> = Vec::new();
    let r = parser.parse_mut(
        &args,
        &mut state,
        &|id: usize, p: &mut Vec<(usize, Vec<String>)>, a: &[String]| {
            p.push((id, a.to_vec()));
            Ok(())
        },
        &|_id: usize, _p: &mut Vec<(usize, Vec<String>)>, _a: &str| Ok(false),
        &|_id: usize, _p: &mut Vec<(usize, Vec<String>)>, _a: &[String]| Ok(()),
    );
    assert!(r.is_ok());
    assert_eq!(
        state,
        vec![(0, vec!["x".to_string()]), (1, vec![]), (3, vec!["a".to_string(), "b".to_string()])]
    );
}

#[test]
fn pile_element_help_texts() {
    let e = OptionsPileElement::match_single(&["f"], 7).help_meta("FILE").help_msg("the file");
    assert_eq!(e.help_meta, Some("FILE".to_string()));
    assert_eq!(e.help_msg, Some("the file".to_string()));
    match e.m {
        PileMatch::Args(al, c, id) => {
            assert_eq!(al, vec!["f".to_string()]);
            assert_eq!(c, 1);
            assert_eq!(id, 7);
        }
        PileMatch::Extra(_) => panic!("expected a named option"),
    }
    match OptionsPileElement::match_extra_soft(3).m {
        PileMatch::Extra(ExtraHandler::Soft(3)) => {}
        _ => panic!("expected a soft handler"),
    }
}
