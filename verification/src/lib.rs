//! Explore a markdown library (read only): find markdown files' tag lines,
//! extract the tags they declare, and aggregate them across a scanned tree.
//!
//! A tag line is a first line of the form `` `#tag1 #tag2` ``: a leading
//! backtick, one or more characters from a small allowed class, and a closing
//! backtick. Tokens are split on single spaces and stripped of the configured
//! marker character.
//!
//! Walking a directory tree and reading first lines is input the caller
//! performs; it hands each discovered file to this crate as a `ScannedFile`.
//! Everything from there on — which names count as markdown files, how a
//! first line is parsed, and how the two queries aggregate — is verified.

pub mod aggregate;
pub mod discover;
pub mod order;
pub mod tags;

pub use aggregate::File;
pub use aggregate::ScannedFile;
pub use aggregate::get_files_with_tag;
pub use aggregate::get_tags;
pub use discover::is_file_hidden;
pub use discover::is_file_markdown;
pub use tags::get_tags_from_line;
