//! A record-stream toolkit: JSON-like records addressed by slash-separated
//! paths, command-line option handling, a name registry, sorting helpers and
//! the decision logic of the stream operations, each with a proved contract.

pub mod validates;
pub mod vals;
pub mod registry;
pub mod text;
pub mod path;
pub mod json;
pub mod jsontext;
pub mod record;
pub mod sorts;
pub mod tru;
pub mod table;
pub mod trie;
pub mod bgop;
pub mod parser;
pub mod subop;
pub mod stream;
pub mod db;
pub mod regexes;
pub mod multire;
pub mod eval;
pub mod lineops;
pub mod ptable;
pub mod withfiles;
pub mod mrstream;
pub mod pile;
