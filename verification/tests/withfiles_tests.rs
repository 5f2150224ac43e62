use r4::record::Record;
use r4::stream::Entry;
use r4::withfiles::tag_record;
use r4::withfiles::WithFilesAction;
use r4::withfiles::WithFilesState;
use std::sync::Arc;

#[test]
fn with_files_runs_per_file() {
    let mut s = WithFilesState::new();
    match s.step(&Entry::Line(Arc::from("x"))) {
        WithFilesAction::ToRun { open } => assert!(open),
        _ => panic!("expected a run"),
    }
    match s.step(&Entry::Line(Arc::from("y"))) {
        WithFilesAction::ToRun { open } => assert!(!open),
        _ => panic!("expected a run"),
    }
    match s.step(&Entry::Bof(Arc::from("f1"))) {
        WithFilesAction::Reopen { close, file } => {
            assert!(close);
            assert_eq!(&*file, "f1");
        }
        _ => panic!("expected a reopen"),
    }
    assert!(s.finish());
    assert!(!s.finish());
}

#[test]
fn with_files_tags_records() {
    let r = Record::parse("{\"a\":1}");
    let t = tag_record(r, "FILE", &Some(Arc::from("in.txt")));
    assert_eq!(t.deparse(), "{\"FILE\":\"in.txt\",\"a\":1}");
    let u = tag_record(Record::parse("{}"), "x/y", &None);
    assert_eq!(u.deparse(), "{\"x\":{\"y\":null}}");
}
