//! Building blocks of a terminal assistant: the prompts it sends, and the
//! extraction of the most recent entries of a shell history log.
pub mod entries;
pub mod history;
pub mod laws;
pub mod lines;
pub mod prompts;
pub mod reverse_reader;
