//! A small task tracker library: an ordered collection of tasks with
//! add / list / complete / delete operations, a fixed-format due-date
//! grammar, and a textual persistence format that round-trips exactly.

pub mod text;
pub mod date;
pub mod task;
pub mod handler;
pub mod codec;
pub mod clock;
