//! The with-files stream: each input file gets a fresh run of the
//! sub-operation, and every record it sees carries the file's name under a
//! key.

use crate::json::{path_set, JsonView};
use crate::path::{path_of, path_text_valid};
use crate::record::Record;
use crate::stream::Entry;
use std::sync::Arc;
use vstd::prelude::*;

verus! {

/// Whether a run of the sub-operation is open, and for which file.
pub struct WithFilesState {
    /// The open run's file: `None` when there is no run, `Some(None)` for a
    /// run opened before any file began.
    pub run: Option<Option<Arc<str>>>,
}

/// What to do with one entry.
pub enum WithFilesAction {
    /// Close the open run if there is one (`close`), open a run for the
    /// file, and hand the start of the file to the writer; the writer's
    /// answer is the stream's.
    Reopen { close: bool, file: Arc<str> },
    /// Hand the entry to the run, opening one without a file first when
    /// none is open (`open`); one run stopping does not stop the stream,
    /// which wants more.
    ToRun { open: bool },
}

impl WithFilesState {
    pub fn new() -> (s: WithFilesState)
        ensures
            s.run is None,
    {
        WithFilesState { run: None }
    }

    /// Decides what to do with `e` and moves to the state after it.
    pub fn step(&mut self, e: &Entry) -> (a: WithFilesAction)
        ensures
            match *e {
                Entry::Bof(f) => a == (WithFilesAction::Reopen { close: old(self).run is Some, file: f })
                    && final(self).run == Some(Some(f)),
                _ => a == (WithFilesAction::ToRun { open: old(self).run is None }) && final(self).run == (
                match old(self).run {
                    Some(r) => Some(r),
                    None => Some(None::<Arc<str>>),
                }),
            },
    {
        match e {
            Entry::Bof(f) => {
                let close = self.run.is_some();
                self.run = Some(Some(f.clone()));
                WithFilesAction::Reopen { close, file: f.clone() }
            },
            _ => {
                let open = self.run.is_none();
                if open {
                    self.run = Some(None);
                }
                WithFilesAction::ToRun { open }
            },
        }
    }

    /// At the end: whether a run is open and has to be closed.
    pub fn finish(&mut self) -> (close: bool)
        ensures
            close == old(self).run is Some,
            final(self).run is None,
    {
        let close = self.run.is_some();
        self.run = None;
        close
    }
}

/// The value the file key takes: the file's name, or null before any file.
pub open spec fn file_value(file: Option<Arc<str>>) -> JsonView {
    match file {
        Some(f) => JsonView::Str(f@),
        None => JsonView::Null,
    }
}

/// A record as the run for `file` sees it: the file's name set under the
/// key `fk`.
pub fn tag_record(r: Record, fk: &str, file: &Option<Arc<str>>) -> (t: Record)
    requires
        path_text_valid(fk@),
    ensures
        t@ == path_set(r@, path_of(fk@), file_value(*file)),
        r.wf() ==> t.wf(),
{
    let fv = match file {
        Some(f) => Record::from_str(&**f),
        None => Record::null(),
    };
    let mut t = r;
    t.set_path(fk, fv);
    t
}

} // verus!
