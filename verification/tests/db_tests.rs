use r4::db::Db;
use r4::record::Record;

fn recs(v: &[&str]) -> Vec<Record> {
    v.iter().map(|s| Record::parse(s)).collect()
}

fn pairs(v: &[(&str, &str)]) -> Vec<(String, String)> {
    v.iter().map(|(a, b)| (a.to_string(), b.to_string())).collect()
}

#[test]
fn db_groups_and_query() {
    let mut db = Db::new(
        recs(&["{\"id\":1,\"v\":\"a\"}", "{\"id\":2,\"v\":\"b\"}", "{\"id\":1,\"v\":\"c\"}"]),
        &pairs(&[("id", "x")]),
    );
    let q = Record::parse("{\"x\":1}");
    let g = db.query(&q).unwrap();
    let got: Vec<String> = db.group(g).iter().map(|r| r.deparse()).collect();
    assert_eq!(got, vec!["{\"id\":1,\"v\":\"a\"}".to_string(), "{\"id\":1,\"v\":\"c\"}".to_string()]);
    let left: Vec<String> = db.leftover().iter().map(|r| r.deparse()).collect();
    assert_eq!(left, vec!["{\"id\":2,\"v\":\"b\"}".to_string()]);
}

#[test]
fn db_query_miss() {
    let mut db = Db::new(recs(&["{\"id\":1}"]), &pairs(&[("id", "x")]));
    assert!(db.query(&Record::parse("{\"x\":3}")).is_none());
    assert_eq!(db.leftover().len(), 1);
}

#[test]
fn db_missing_key_is_null() {
    let mut db = Db::new(recs(&["{\"a\":1}", "{\"id\":null}"]), &pairs(&[("id", "x")]));
    let g = db.query(&Record::parse("{}")).unwrap();
    assert_eq!(db.group(g).len(), 2);
    assert!(db.leftover().is_empty());
}
