//! Substring search over the lines of a text, with and without regard to case.
//!
//! [`search`] returns the lines of a text that contain a query, and
//! [`search_insensitive`] those that contain it when case is ignored.
//! [`Config`] holds what one run of the command-line tool searches for,
//! built from the arguments of the process, and [`run`] turns a
//! configuration and the text of its file into the lines to print.
//!
//! Every contract speaks of texts as sequences of characters:
//! [`lines::lines_of`] says what the lines of a text are,
//! [`substring::is_substring`] when one text occurs in another, and the
//! contracts of the search are stated over the two.
//!
//! The library reads no file and no environment. It rests on one function
//! that is not verified here: the lowercase form of a text comes from the
//! standard library and is known to the contracts by name only, as
//! [`folding::lowercase`].

pub mod config;
mod encoding;
pub mod folding;
pub mod lines;
pub mod runner;
pub mod search;
pub mod substring;

pub use config::Config;
pub use config::MissingArgument;
pub use lines::lines;
pub use runner::run;
pub use runner::FileAccessError;
pub use runner::FileAccessKind;
pub use search::search;
pub use search::search_insensitive;
pub use substring::contains;
