//! Lists of words and the sessions in which they are learnt.
//!
//! A list is a sequence of entries, each a term with its definitions; an
//! index holds the metadata of all lists. In a session the words of one list
//! are asked in rotation until each has been answered correctly often
//! enough.
//!
//! - [`model`], [`store`], [`import`]: the lists, the index, and reading a
//!   list from text.
//! - [`judgement`]: whether an answer counts as correct.
//! - [`direction`], [`permutation`], [`scheduler`], [`session`]: in which
//!   direction and order the words are asked, which word is asked next, and
//!   a session from start to end.
//! - [`laws`]: what holds of every answer, of every session and of the
//!   index.
//! - [`args`]: what the user can ask for on the command line.
//! - [`text`], [`error`]: operations on text, and what can go wrong.
//! - [`pattern`], [`chance`], [`ident`], [`clock`]: what the library takes
//!   on trust from the crates `regex`, `rand`, `uuid` and `chrono`.
//!
//! The library reads and writes nothing. Storing the lists and talking to
//! the user is left to the program around it.

pub mod args;
pub mod chance;
pub mod clock;
pub mod direction;
pub mod error;
pub mod ident;
pub mod import;
pub mod judgement;
pub mod laws;
pub mod model;
pub mod pattern;
pub mod permutation;
pub mod scheduler;
pub mod session;
pub mod store;
pub mod text;
