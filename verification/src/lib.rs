//! Commit history of a repository: parsing of raw commit objects into
//! structured records and their assembly into a time-ordered log.
//!
//! - [`parser`] reads the text of one commit object into a [`Commit`].
//! - [`log`] keeps the commits of one walk by commit time.
//! - [`walk`] decides which generation to ask for next and what each answer
//!   of the raw commit source does to the walk.
//! - [`source`] reads the output of the version-control tool as such an
//!   answer.

pub mod chronology;
pub mod commit;
pub mod identity;
pub mod log;
pub mod parser;
pub mod source;
pub mod text;
pub mod time;
pub mod walk;

pub use crate::commit::Commit;
pub use crate::log::Log;
pub use crate::parser::{parse_commit, ParseError};
pub use crate::source::{RawCommit, SourceReply};
pub use crate::walk::{parse_commits, walk_history, Walk, WalkError};
