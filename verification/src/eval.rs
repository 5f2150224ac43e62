//! What code run on each entry is handed: a record, taken as it is or as
//! its JSON text, or a line, read as JSON or taken as text.

use crate::jsontext::serde_read;
use crate::json::{deparse_spec, JsonView};
use crate::record::{json_of_raw, Record};
use crate::stream::Entry;
use vstd::prelude::*;

verus! {

/// How entries are read before the code sees them.
#[derive(Clone)]
pub enum InputType {
    /// Records as they are, lines read as JSON.
    Records(),
    /// Everything as text: a record as its JSON text, a line as it is.
    Lines(),
}

/// How the code's results are written.
#[derive(Clone)]
pub enum OutputType {
    Records(),
    Lines(),
    Grep(),
}

/// What becomes of an entry before the code runs.
pub enum EvalInput {
    /// The start of a file goes on unchanged.
    Forward(Entry),
    /// The code runs on this record.
    Evaluate(Record),
    /// A line that was to be read as JSON is not JSON.
    NotJson,
}

/// Reads an entry as `input` says.
pub fn eval_input(e: Entry, input: &InputType) -> (r: EvalInput)
    ensures
        match e {
            Entry::Bof(f) => r == EvalInput::Forward(Entry::Bof(f)),
            Entry::Record(x) => match input {
                InputType::Records() => r == EvalInput::Evaluate(x),
                InputType::Lines() => r matches EvalInput::Evaluate(y) && y@ == JsonView::Str(
                    deparse_spec(x@),
                ),
            },
            Entry::Line(l) => match input {
                InputType::Records() => match serde_read(l@) {
                    Some(t) => r matches EvalInput::Evaluate(y) && y@ == json_of_raw(t) && y.wf(),
                    None => r is NotJson,
                },
                InputType::Lines() => r matches EvalInput::Evaluate(y) && y@ == JsonView::Str(l@),
            },
        },
{
    match e {
        Entry::Bof(f) => EvalInput::Forward(Entry::Bof(f)),
        Entry::Record(x) => match input {
            InputType::Records() => EvalInput::Evaluate(x),
            InputType::Lines() => {
                let t = x.deparse();
                EvalInput::Evaluate(Record::from_string(t))
            },
        },
        Entry::Line(l) => {
            let s: &str = &*l;
            match input {
                InputType::Records() => match Record::try_parse(s) {
                    Some(y) => EvalInput::Evaluate(y),
                    None => EvalInput::NotJson,
                },
                InputType::Lines() => EvalInput::Evaluate(Record::from_str(s)),
            }
        },
    }
}

} // verus!
