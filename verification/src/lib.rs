//! A verified lexer and recursive-descent parser for a small line-oriented
//! quiz-script language, together with the rendering helpers its runner needs.
//!
//! A script is a sequence of lines; each line is either a public comment,
//! a plain statement, a translation statement (two texts separated by an
//! arrow), a complex statement holding bracketed exercises, or empty.

pub mod args;
pub mod chars;
pub mod diag;
pub mod lexis;
pub mod quiz;
pub mod source;
pub mod syntax;
