//! Writing and reading whole archives.
pub mod read;
pub mod write;
