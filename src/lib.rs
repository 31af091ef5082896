//! A template-language front end: a cursor over template text, structured
//! diagnostics, a small combinator engine, the template grammar and the
//! resolver for `extends` / `block` / `super` inheritance.

mod error;
pub mod escaping;
pub mod graph;
mod host;
mod located;
mod parse;
mod scan;
mod state;
pub mod types;

pub use error::{get_line_col, get_offset, At, Diagnostic, ErrMode, Msg};
pub use host::HostFailure;
pub use located::{chars_of, text_of, Located};
pub use parse::{expect_end, parse_template, string_contents};
pub use scan::{delimited, find, ident, multispace0, space0, space1, tag, take_till, take_until};
pub use state::{Delims, State};
