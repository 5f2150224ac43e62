use r4::record::Record;
use r4::stream::parse_entry;
use r4::stream::Entry;
use r4::stream::Stream;
use r4::stream::StreamTrait;
use std::sync::Arc;

#[test]
fn stream_parse_entry_line() {
    match parse_entry(Entry::Line(Arc::from("{\"a\":1}"))) {
        Some(Entry::Record(r)) => assert_eq!(r.deparse(), "{\"a\":1}"),
        _ => panic!("expected a record"),
    }
    assert!(parse_entry(Entry::Line(Arc::from("{oops"))).is_none());
    match parse_entry(Entry::Bof(Arc::from("f"))) {
        Some(Entry::Bof(f)) => assert_eq!(&*f, "f"),
        _ => panic!("expected bof"),
    }
    match parse_entry(Entry::Record(Record::from_i64(3))) {
        Some(Entry::Record(r)) => assert_eq!(r.deparse(), "3"),
        _ => panic!("expected a record"),
    }
}

struct Count(std::rc::Rc<std::cell::Cell<usize>>);

impl StreamTrait for Count {
    fn wants_more(&self) -> bool {
        self.0.get() < 2
    }

    fn takes(&self, _e: Entry, _next: &Self) -> bool {
        true
    }

    fn write(&mut self, _e: Entry) -> bool {
        self.0.set(self.0.get() + 1);
        self.0.get() < 2
    }
    fn close(self: Box<Self>) {}
}

#[test]
fn stream_write_reaches_inner() {
    let c = std::rc::Rc::new(std::cell::Cell::new(0));
    let mut s = Stream::new(Count(c.clone()));
    assert!(s.write(Entry::Line(Arc::from("x"))));
    assert!(!s.write(Entry::Line(Arc::from("y"))));
    s.close();
    assert_eq!(c.get(), 2);
}

struct Keep(std::rc::Rc<std::cell::RefCell<Vec<String>>>);

impl StreamTrait for Keep {
    fn wants_more(&self) -> bool {
        true
    }

    fn takes(&self, _e: Entry, _next: &Self) -> bool {
        true
    }

    fn write(&mut self, e: Entry) -> bool {
        let t = match e {
            Entry::Bof(f) => format!("bof {}", f),
            Entry::Record(r) => format!("record {}", r.deparse()),
            Entry::Line(l) => format!("line {}", l),
        };
        self.0.borrow_mut().push(t);
        true
    }

    fn close(self: Box<Self>) {
        self.0.borrow_mut().push("closed".to_string());
    }
}

#[test]
fn stream_hands_on_each_entry_itself() {
    let log = std::rc::Rc::new(std::cell::RefCell::new(Vec::new()));
    let mut s = Stream::new(Keep(log.clone()));
    assert!(s.write(Entry::Line(Arc::from("a"))));
    assert!(s.write(Entry::Bof(Arc::from("f"))));
    assert!(s.write(Entry::Record(Record::from_i64(4))));
    s.close();
    assert_eq!(
        *log.borrow(),
        vec!["line a".to_string(), "bof f".to_string(), "record 4".to_string(), "closed".to_string()]
    );
}

struct Lines {
    got: std::rc::Rc<std::cell::RefCell<Vec<String>>>,
    taken: u64,
    last: Option<Arc<str>>,
    closed: bool,
}

impl r4::stream::LineStream for Lines {
    fn lines_taken(&self) -> u64 {
        self.taken
    }

    fn last_line(&self) -> Option<Arc<str>> {
        self.last.clone()
    }

    fn is_closed(&self) -> bool {
        self.closed
    }

    fn is_rclosed(&self) -> bool {
        self.got.borrow().len() >= 2
    }

    fn write_line(&mut self, line: Arc<str>) {
        self.taken += 1;
        self.got.borrow_mut().push(line.to_string());
        self.last = Some(line);
    }

    fn rclosed(&mut self) -> bool {
        self.got.borrow().len() >= 2
    }

    fn close(&mut self) {
        self.closed = true;
        self.got.borrow_mut().push("end".to_string());
    }
}

#[test]
fn stream_write_on_maybe_line_writes_then_closes() {
    let got = std::rc::Rc::new(std::cell::RefCell::new(Vec::new()));
    let mut os: Box<dyn r4::stream::LineStream> =
        Box::new(Lines { got: got.clone(), taken: 0, last: None, closed: false });
    assert!(!r4::stream::write_on_maybe_line(&mut os, Some(Arc::from("x"))));
    assert!(r4::stream::write_on_maybe_line(&mut os, Some(Arc::from("y"))));
    assert!(!r4::stream::write_on_maybe_line(&mut os, None));
    assert_eq!(*got.borrow(), vec!["x".to_string(), "y".to_string(), "end".to_string()]);
    assert_eq!(os.lines_taken(), 2);
}
