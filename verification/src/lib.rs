//! A verified parser for the textual `.netrc` credentials format.
//!
//! The crate turns a borrowed piece of text into a [`Netrc`] value: an
//! ordered list of machine credential records, an ordered list of macro
//! definitions, and (optionally) the unrecognized bare words met along the
//! way.  A [`Machine`] can be rendered back to its canonical one-line form.
//!
//! Every executable function carries a contract that pins its result down to
//! a small mathematical model of the format: `scan` gives the character-level
//! word and line scanner, `model` the machine records and the entry state
//! machine, `token` the word classifier and the two-mode tokenizer, and
//! `parser` the top-level parse loop.  `laws` states and proves the format's
//! global properties (round-tripping, ordering rules, failure conditions).

pub mod laws;
pub mod model;
pub mod parser;
pub mod scan;
pub mod token;

pub use model::Error;
pub use model::Machine;
pub use model::Netrc;
pub use model::Position;
pub use token::Lexer;
pub use token::Token;
pub use token::Tokens;
