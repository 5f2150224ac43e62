use r4::sorts::reorder;
use rand::seq::SliceRandom;
use rand::SeedableRng;
use rand_chacha::ChaChaRng;

#[test]
fn test_reorder_simple() {
    let mut a = vec![0, 1, 2, 3, 4, 5];
    let idxs = vec![4, 1, 5, 0, 3, 2];

    reorder(&mut a, &idxs);

    assert_eq!(a, idxs);
}

#[test]
fn test_reorder_stress() {
    let mut rng = ChaChaRng::from_seed([0; 32]);

    for sz in &[0, 1, 2, 3, 8, 10, 100, 1000] {
        let sz = *sz;
        for _rep in 0..100 {
            let mut a: Vec<usize> = (0..sz).collect();
            let mut idxs = a.clone();

            idxs.shuffle(&mut rng);

            reorder(&mut a, &idxs);

            assert_eq!(a, idxs);
        }
    }
}

#[test]
fn shuffle_sort_aux_lists_each_position_once() {
    for ct in [0usize, 1, 2, 7, 50] {
        let mut order = r4::sorts::shuffle_sort_aux(ct);
        order.sort();
        assert_eq!(order, (0..ct).collect::<Vec<usize>>());
    }
}

#[test]
fn shuffle_sort_keeps_the_records() {
    let mut rs: Vec<r4::record::Record> = (0..20).map(|i| r4::record::Record::from_i64(i)).collect();
    r4::sorts::shuffle_sort(&mut rs);
    let mut got: Vec<String> = rs.iter().map(|r| r.deparse()).collect();
    got.sort();
    let mut want: Vec<String> = (0..20).map(|i: i64| i.to_string()).collect();
    want.sort();
    assert_eq!(got, want);
}

fn err_text(e: r4::validates::ValidationError) -> String {
    match e {
        r4::validates::ValidationError::Message(m) => m,
    }
}

#[test]
fn sort_state_by_name() {
    match r4::sorts::SortState::init("nope", &["a"]) {
        Err(e) => assert_eq!(err_text(e), "No implementation named nope"),
        Ok(_) => panic!("expected an error"),
    }
    match r4::sorts::SortState::init("lex", &[]) {
        Err(e) => assert_eq!(err_text(e), "Wrong number of args for lex"),
        Ok(_) => panic!("expected an error"),
    }
    let s = match r4::sorts::SortState::init("l", &["-a"]) {
        Ok(s) => s,
        Err(_) => panic!("expected a sort"),
    };
    let mut rs = vec![
        r4::record::Record::parse("{\"a\":\"x\"}"),
        r4::record::Record::parse("{\"a\":\"z\"}"),
        r4::record::Record::parse("{\"a\":\"y\"}"),
    ];
    assert_eq!(s.sort_aux(&rs), vec![1, 2, 0]);
    let c = s.box_clone();
    c.sort(&mut rs);
    let got: Vec<String> = rs.iter().map(|r| r.deparse()).collect();
    assert_eq!(got, vec!["{\"a\":\"z\"}", "{\"a\":\"y\"}", "{\"a\":\"x\"}"]);
}
