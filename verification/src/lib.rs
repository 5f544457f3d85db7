//! Parsing and serialization for the iCalendar text format (RFC 5545).
//!
//! The crate is organised as a pipeline:
//! * [`fold`] reconstructs logical content lines from folded physical lines,
//!   and folds long lines on output;
//! * [`escape`] resolves and reinstates the backslash escape sequences that
//!   property values carry on the wire;
//! * [`token`] parses one logical line into a `BEGIN`, `END` or property token;
//! * [`parse`] assembles the token stream into a tree of components with an
//!   explicit nesting stack, and serializes such trees back to text.
//!
//! Values are stored fully unescaped; escape sequences exist only in the
//! serialized text. Parsing accepts bare `\n` line breaks; serialization
//! always emits `\r\n`.

pub mod chars;
pub mod escape;
pub mod fold;
pub mod model;

pub mod parse;
pub mod roundtrip;
pub mod serialize;
pub mod text;
pub mod token;
pub mod utils;
