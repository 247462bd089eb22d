//! A small interpreter for a Lisp-family expression language.
//!
//! Text is split into tokens, parsed into a [`types::Token`] tree, evaluated
//! against a chain of lexical environments, and printed back to text.  Every
//! step returns a typed error instead of aborting, so one bad form never ends
//! a session.

pub mod env;
pub mod eval;
pub mod funcs;
pub mod laws;
pub mod printer;
pub mod reader;
pub mod repl;
pub mod test_builder;
pub mod text;
pub mod types;

pub use types::Closure;
pub use types::FnError;
pub use types::Func;
pub use types::Kind;
pub use types::MalError;
pub use types::MalRes;
pub use types::Native;
pub use types::Token;
