//! A verified decoder for the SubRip (`.srt`) subtitle format.
//!
//! The library turns an in-memory text buffer into an ordered sequence of
//! timed caption records. Parsing is all-or-nothing: the first malformed
//! token aborts the whole parse and no partial sequence is produced.

pub mod grammar;
pub mod laws;
pub mod parse;
pub mod time;

pub use grammar::SrtError;
pub use parse::from_str;
pub use parse::SubTitle;
pub use time::Time;
