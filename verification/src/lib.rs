//! A small expression language: numeric expressions, assignments to
//! variables, and definitions of functions.
//!
//! Text is read into tokens (`lex`) and tokens into items (`parse`). Items
//! are written back as text (`format`). What the parser yields can be
//! written (`valid`), what is written is read back as the same items
//! (`roundtrip`), and operators group by how tightly they bind
//! (`precedence`). An interpreter binds names and resolves expressions
//! against its bindings (`run`). What holds of every interpreter stands in
//! `laws`, and why the limit on nested calls stops only what would not end
//! in `recursion`. Errors have messages (`message`).
//!
//! The contracts speak of the mathematical values of the data: sequences of
//! characters for texts, and for each type of the syntax a type of the same
//! shape over such sequences.

pub mod ast;
pub mod builtins;
pub mod format;
pub mod ident;
pub mod laws;
pub mod lex;
pub mod message;
pub mod parse;
pub mod precedence;
pub mod recursion;
pub mod roundtrip;
pub mod run;
pub mod table;
pub mod valid;
