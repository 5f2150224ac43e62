//! Streams of entries: the start of a file, a record, or a raw line. A
//! stream takes entries one at a time and says whether it wants more.

use crate::jsontext::serde_read;
use crate::record::{json_of_raw, Record};
use std::sync::Arc;
use vstd::prelude::*;

verus! {

/// One item of a stream.
pub enum Entry {
    /// The start of the named file.
    Bof(Arc<str>),
    Record(Record),
    Line(Arc<str>),
}

/// Something that takes entries.
pub trait StreamTrait {
    /// Whether the stream wants more entries.
    spec fn wants_more(&self) -> bool;

    /// Whether taking `e` may move the stream from the state `self` to the
    /// state `next`.
    spec fn takes(&self, e: Entry, next: &Self) -> bool;

    /// Takes one entry; `false` once it wants no more.
    fn write(&mut self, e: Entry) -> (r: bool)
        ensures
            r == final(self).wants_more(),
            old(self).takes(e, &*final(self)),
    ;

    /// No more entries follow.
    fn close(self: Box<Self>);
}

/// A stream: `F` takes its entries.
pub struct Stream<F>(Box<F>);

impl<F: StreamTrait> Stream<F> {
    /// What takes the entries.
    pub closed spec fn inner(&self) -> F {
        *self.0
    }

    /// Whether the stream wants more entries.
    pub open spec fn wants_more(&self) -> bool {
        self.inner().wants_more()
    }

    /// The stream whose entries `f` takes.
    pub fn new(f: F) -> (s: Stream<F>)
        ensures
            s.inner() == f,
            s.wants_more() == f.wants_more(),
    {
        Stream(Box::new(f))
    }

    /// Hands `e` itself on; `false` once the stream wants no more.
    pub fn write(&mut self, e: Entry) -> (r: bool)
        ensures
            r == final(self).wants_more(),
            old(self).inner().takes(e, &final(self).inner()),
    {
        self.0.write(e)
    }

    /// Closes what takes the entries.
    pub fn close(self) {
        self.0.close();
    }
}

/// What a parsing stream hands on for `e`: a line read as JSON becomes a
/// record; anything else passes unchanged. `None` for a line that is not
/// JSON.
pub fn parse_entry(e: Entry) -> (r: Option<Entry>)
    ensures
        match e {
            Entry::Line(l) => match serde_read(l@) {
                Some(t) => r matches Some(Entry::Record(x)) && x@ == json_of_raw(t) && x.wf(),
                None => r is None,
            },
            _ => r == Some(e),
        },
{
    match e {
        Entry::Line(l) => {
            let s: &str = &*l;
            match Record::try_parse(s) {
                Some(x) => Some(Entry::Record(x)),
                None => None,
            }
        },
        other => Some(other),
    }
}

/// Something that takes raw lines, as a process's input does.
pub trait LineStream {
    /// How many lines the stream has taken (it stays at `u64::MAX` once
    /// there).
    spec fn lines_taken(&self) -> u64;

    /// The last line the stream took.
    spec fn last_line(&self) -> Option<Arc<str>>;

    /// Whether the stream has been closed.
    spec fn is_closed(&self) -> bool;

    /// Whether the reader has stopped reading.
    spec fn is_rclosed(&self) -> bool;

    fn write_line(&mut self, line: Arc<str>)
        ensures
            final(self).last_line() == Some(line),
            old(self).lines_taken() < u64::MAX ==> final(self).lines_taken() == old(self).lines_taken() + 1,
            final(self).is_closed() == old(self).is_closed(),
    ;

    /// Whether the reader has stopped reading; nothing is taken or closed.
    fn rclosed(&mut self) -> (r: bool)
        ensures
            r == final(self).is_rclosed(),
            final(self).lines_taken() == old(self).lines_taken(),
            final(self).last_line() == old(self).last_line(),
            final(self).is_closed() == old(self).is_closed(),
    ;

    /// No more lines follow.
    fn close(&mut self)
        ensures
            final(self).is_closed(),
            final(self).lines_taken() == old(self).lines_taken(),
            final(self).last_line() == old(self).last_line(),
    ;
}

/// Passes on one result of a background process: a line is written to
/// `os`, the end closes `os`. Returns whether `os` has stopped reading, in
/// which case the process's output is to be dropped.
pub fn write_on_maybe_line(os: &mut Box<dyn LineStream>, maybe_line: Option<Arc<str>>) -> (r: bool)
    ensures
        match maybe_line {
            Some(l) => {
                &&& final(os).last_line() == Some(l)
                &&& old(os).lines_taken() < u64::MAX ==> final(os).lines_taken() == old(os).lines_taken() + 1
                &&& final(os).is_closed() == old(os).is_closed()
                &&& r == final(os).is_rclosed()
            },
            None => {
                &&& final(os).is_closed()
                &&& final(os).lines_taken() == old(os).lines_taken()
                &&& final(os).last_line() == old(os).last_line()
                &&& !r
            },
        },
{
    match maybe_line {
        Some(line) => {
            os.write_line(line);
            os.rclosed()
        },
        None => {
            os.close();
            false
        },
    }
}

} // verus!
