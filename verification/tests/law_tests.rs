use r4::bgop::BackgroundOp;
use r4::jsontext::RawJson;
use r4::record::Record;
use r4::regexes::str_split;
use r4::stream::Entry;
use r4::table::write_table;
use r4::trie::NameTrie;

#[test]
fn law_raw_object_later_key_wins_and_numbers_convert() {
    let t = RawJson::Object(vec![
        ("b".to_string(), RawJson::Number(Some(1), Some("1.0".to_string()))),
        ("a".to_string(), RawJson::Number(None, Some("2.5".to_string()))),
        ("b".to_string(), RawJson::Array(vec![RawJson::Null, RawJson::Bool(true), RawJson::Str("x".to_string())])),
    ]);
    let r = Record::from_raw(&t);
    assert_eq!(r.deparse(), "{\"a\":2.5,\"b\":[null,true,\"x\"]}");
    assert_eq!(Record::from_raw(&RawJson::Number(None, None)).deparse(), "null");
}

#[test]
fn law_parse_then_deparse_gives_back_the_text() {
    let s = "{\"x\":[{\"y\":\"z\"}],\"n\":-3}";
    let r = Record::parse(s);
    assert_eq!(Record::parse(&r.deparse()).deparse(), r.deparse());
    assert_eq!(r.deparse(), "{\"n\":-3,\"x\":[{\"y\":\"z\"}]}");
}

#[test]
fn law_set_leaves_other_paths() {
    let mut r = Record::parse("{\"a\":{\"b\":1,\"c\":[1,2]},\"d\":4}");
    r.set_path("a/c/#1", Record::from_i64(9));
    assert_eq!(r.get_path("a/b").deparse(), "1");
    assert_eq!(r.get_path("d").deparse(), "4");
    assert_eq!(r.get_path("a/c/#0").deparse(), "1");
    r.del_path("a/b");
    assert_eq!(r.get_path("a/c").deparse(), "[1,9]");
    assert_eq!(r.get_path("d").deparse(), "4");
}

#[test]
fn law_trie_lookup_lists_each_match_once() {
    let mut t: NameTrie<u32> = NameTrie::default();
    t.insert("a", 1);
    t.insert("ab", 2);
    t.insert("bcd", 3);
    t.insert("bce", 4);
    let mut got: Vec<u32> = t.get("bc").into_iter().cloned().collect();
    got.sort();
    assert_eq!(got, vec![3, 4]);
    assert_eq!(t.get("a"), vec![&1]);
}

#[test]
fn law_bgop_write_hands_over_then_queues_once() {
    let mut b: BackgroundOp<u32> = BackgroundOp::new();
    assert_eq!(b.be_write_line(&5), (Some(true), true));
    assert_eq!(b.fe_write_line(&7), (Some(Some(vec![Some(5)])), true));
    assert_eq!(b.fe_write_line(&7), (Some(None), true));
    assert_eq!(b.be_read_line(), (Some(Some(7)), true));
    assert_eq!(b.be_read_line(), (None, false));
}

#[test]
fn law_bgop_close_delivers_all_then_ends() {
    let mut b: BackgroundOp<u32> = BackgroundOp::new();
    b.be_write_line(&1);
    b.be_write_line(&2);
    b.be_close();
    b.fe_close();
    assert_eq!(b.fe_close_step(), (Some(Some(vec![Some(1), Some(2), None])), true));
    assert_eq!(b.fe_close_step(), (Some(None), false));
}

#[test]
fn law_bgop_rclosed_stays_set() {
    let mut b: BackgroundOp<u32> = BackgroundOp::new();
    b.be_rclose();
    assert!(b.fe_rclosed());
    b.fe_write_line(&1);
    b.fe_close();
    assert!(b.fe_rclosed());
}

#[test]
fn table_write_stops_at_first_refusal() {
    let rows = vec![
        vec![("a".to_string(), ' '), ("bb".to_string(), '.')],
        vec![("ccc".to_string(), ' '), ("d".to_string(), '.')],
        vec![("e".to_string(), ' ')],
    ];
    let mut seen: Vec<String> = Vec::new();
    let mut w = |e: Entry| {
        if let Entry::Line(l) = e {
            seen.push(l.to_string());
        }
        seen.len() < 2
    };
    assert!(!write_table(&rows, &mut w));
    assert_eq!(seen, vec!["a  bb".to_string(), "cccd.".to_string()]);
    let mut all: Vec<String> = Vec::new();
    let mut w2 = |e: Entry| {
        if let Entry::Line(l) = e {
            all.push(l.to_string());
        }
        true
    };
    assert!(write_table(&rows, &mut w2));
    assert_eq!(all.len(), 3);
}

#[test]
fn str_split_pieces() {
    assert_eq!(str_split("a,,b", ","), vec!["a".to_string(), "".to_string(), "b".to_string()]);
    assert_eq!(str_split("abc", ""), vec!["".to_string(), "a".to_string(), "b".to_string(), "c".to_string(), "".to_string()]);
    assert_eq!(str_split("", "x"), vec!["".to_string()]);
    assert_eq!(str_split("aXXbXXXc", "XX"), vec!["a".to_string(), "b".to_string(), "Xc".to_string()]);
}

#[test]
fn law_set_appending_or_below_scalars_leaves_other_paths() {
    let mut r = Record::parse("{\"a\":[1],\"s\":\"x\",\"d\":4}");
    r.set_path("a/#1", Record::from_i64(2));
    assert_eq!(r.get_path("a/#0").deparse(), "1");
    assert_eq!(r.get_path("a").deparse(), "[1,2]");
    r.set_path("s/k/#0", Record::from_i64(3));
    assert_eq!(r.get_path("s").deparse(), "{\"k\":[3]}");
    r.set_path("n/#0/m", Record::from_i64(5));
    assert_eq!(r.get_path("n").deparse(), "[{\"m\":5}]");
    assert_eq!(r.get_path("d").deparse(), "4");
    assert_eq!(r.get_path("a").deparse(), "[1,2]");
}

#[test]
fn law_set_with_padding_keeps_what_was_there() {
    let mut r = Record::parse("{\"a\":[1],\"b\":{\"c\":2}}");
    r.set_path("a/#3", Record::from_i64(7));
    assert_eq!(r.get_path("a/#0").deparse(), "1");
    assert_eq!(r.get_path("b/c").deparse(), "2");
    assert_eq!(r.get_path("a").deparse(), "[1,null,null,7]");
    r.set_path("z/#2/y", Record::from_i64(8));
    assert_eq!(r.get_path("b").deparse(), "{\"c\":2}");
    assert_eq!(r.get_path("a/#0").deparse(), "1");
}

#[test]
fn law_del_existing_path_leaves_others() {
    let mut r = Record::parse("{\"a\":{\"b\":1,\"c\":[5,6]},\"d\":4}");
    let got = r.del_path("a/b");
    assert_eq!(got.deparse(), "1");
    assert!(!r.has_path("a/b"));
    assert_eq!(r.get_path("a/c").deparse(), "[5,6]");
    assert_eq!(r.get_path("d").deparse(), "4");
}

#[test]
fn law_close_wait_hands_over_everything_in_order() {
    let mut b: BackgroundOp<u32> = BackgroundOp::new();
    assert_eq!(b.be_write_line(&1), (Some(true), true));
    b.fe_close();
    let mut got: Vec<Option<u32>> = Vec::new();
    // first wait step: what is there
    if let (Some(Some(es)), _) = b.fe_close_step() {
        got.extend(es);
    }
    assert_eq!(b.fe_close_step(), (None, false));
    assert_eq!(b.be_write_line(&2), (Some(true), true));
    assert_eq!(b.be_write_line(&3), (Some(true), true));
    b.be_close();
    loop {
        match b.fe_close_step() {
            (Some(Some(es)), _) => got.extend(es),
            (Some(None), _) => break,
            (None, _) => panic!("the back end is done"),
        }
    }
    assert_eq!(got, vec![Some(1), Some(2), Some(3), None]);
}
