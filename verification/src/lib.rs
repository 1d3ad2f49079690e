//! Searching files, directory entries and file contents for a keyword.

pub mod duration;
pub mod encoding;
pub mod highlight;
pub mod hit;
pub mod jobs;
pub mod matching;
pub mod options;
pub mod paint;
pub mod search;
pub mod text;
pub mod walk;
