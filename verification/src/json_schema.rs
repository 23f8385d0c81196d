//! The patterns of the JSON scalars.

use vstd::prelude::*;

verus! {

/// A JSON string without control characters whose only escapes are `\"` and `\\`.
pub const STRING: &'static str = "\"([^\"\\\\\\x00-\\x1F\\x7F-\\x9F]|\\\\[\"\\\\])*\"";

/// A JSON integer.
pub const INTEGER: &'static str = "(-)?(0|[1-9][0-9]*)";

/// A JSON number whose exponent, if it has one, is written with its sign.
pub const NUMBER: &'static str = "((-)?(0|[1-9][0-9]*))(\\.[0-9]+)?([eE][+-][0-9]+)?";

/// A JSON boolean.
pub const BOOLEAN: &'static str = "(true|false)";

/// The JSON null.
pub const NULL: &'static str = "null";

} // verus!
