//! Duplication of token sequences: `$x in [v1, v2, ...] { body }` expands to
//! one copy of `body` per value, with each marked occurrence `$x` replaced by
//! that value; `macro_wrap` expands such calls where they sit inside a larger
//! fragment.

pub mod token;
pub mod substitute;
pub mod parse;
pub mod expand;
pub mod wrap;
pub mod laws;

pub use expand::{expand, macro_for};
pub use parse::{GrammarError, Invocation, parse_attr, parse_invocation, split_at_commas};
pub use substitute::substitute;
pub use token::{Delimiter, Spacing, Token};
pub use wrap::macro_wrap;
