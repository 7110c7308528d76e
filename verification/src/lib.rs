//! A parser for plain-text workout notes.
//!
//! A note is a sequence of exercise blocks.  Each block starts with a name
//! line (free text) followed by one or more set lines such as
//! `35.5 x 10 + 40 x 8 felt heavy`: weight, the separator `x`, a repetition
//! count, optionally chained with `+` into a superset, optionally followed
//! by a free-text comment.  Parsing happens in two layers: the grammar
//! turns the text into a tree of [`tree::Pair`] nodes, and the interpreter
//! walks that tree into [`model::Exercise`] records.

pub mod error;
pub mod grammar;
pub mod interp;
pub mod laws;
pub mod model;
pub mod num;
pub mod scan;
pub mod tree;

pub use error::{Error, SyntaxError};
pub use model::{Exercise, LiftSet, Weight};
pub use tree::{Pair, Rule};
pub use grammar::parse_rule;
pub use interp::{get_exercise_from_pairs, parse_set, parse_workout};
