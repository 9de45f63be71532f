//! What the host keeps: files, people and their statuses.

pub mod file;
pub mod person;
pub mod twtxt;
