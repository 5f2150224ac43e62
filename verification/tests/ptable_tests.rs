use r4::ptable::to_ptable;
use r4::ptable::PivotOptions;
use r4::record::Record;

fn strs(a: &[&str]) -> Vec<String> {
    a.iter().map(|s| s.to_string()).collect()
}

fn recs(a: &[&str]) -> Vec<Record> {
    a.iter().map(|s| Record::parse(s)).collect()
}

#[test]
fn ptable_simple() {
    let o = PivotOptions { xk: strs(&["x"]), yk: strs(&["y"]), pins: vec![], vk: strs(&["v"]) };
    let rs = recs(&["{\"x\":\"a\",\"y\":\"p\",\"v\":1}", "{\"x\":\"b\",\"y\":\"p\",\"v\":2}"]);
    let lines = to_ptable(&o, &rs).unwrap();
    assert_eq!(
        lines,
        strs(&["+-+-+-+-+", "| |x|a|b|", "+-+-+-+-+", "|y| | | |", "+-+-+-+-+", "|p| |1|2|", "+-+-+-+-+"])
    );
}

#[test]
fn ptable_default_value_keys() {
    let o = PivotOptions { xk: strs(&["VALUE"]), yk: strs(&["k"]), pins: vec![], vk: vec![] };
    let rs = recs(&["{\"k\":\"z\",\"a\":1,\"b\":2}"]);
    let lines = to_ptable(&o, &rs).unwrap();
    assert_eq!(
        lines,
        strs(&[
            "+-+-----+-+-+",
            "| |VALUE|a|b|",
            "+-+-----+-+-+",
            "|k|     | | |",
            "+-+-----+-+-+",
            "|z|     |1|2|",
            "+-+-----+-+-+",
        ])
    );
}

#[test]
fn ptable_pin_filters_out() {
    let o = PivotOptions {
        xk: strs(&["VALUE"]),
        yk: strs(&["k"]),
        pins: vec![("k".to_string(), "zz".to_string())],
        vk: vec![],
    };
    let rs = recs(&["{\"k\":\"z\",\"a\":1}"]);
    let lines = to_ptable(&o, &rs).unwrap();
    assert_eq!(
        lines,
        strs(&["+-+-----++", "| |VALUE||", "+-+-----++", "|k|     ||", "+-+-----++", "| |     ||", "+-+-----++"])
    );
}

#[test]
fn ptable_nested_headers() {
    let o = PivotOptions { xk: strs(&["a", "b"]), yk: vec![], pins: vec![], vk: strs(&["v"]) };
    let rs = recs(&[
        "{\"a\":1,\"b\":\"x\",\"v\":10}",
        "{\"a\":2,\"b\":\"x\",\"v\":20}",
        "{\"a\":1,\"b\":\"y\",\"v\":30}",
    ]);
    let lines = to_ptable(&o, &rs).unwrap();
    // columns: a=1 over b=x and b=y, then a=2 over b=x
    assert_eq!(
        lines,
        strs(&[
            "+-+--+--+--+",
            "|a|1 |  |2 |",
            "+-+--+--+--+",
            "|b|x |y |x |",
            "+-+--+--+--+",
            "| |  |  |  |",
            "+-+--+--+--+",
            "| |10|30|20|",
            "+-+--+--+--+",
        ])
    );
}
