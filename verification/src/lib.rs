//! Indexing of recorded lectures: from the entries of a storage tree to
//! courses, lecture records and recording dates.
//!
//! The library never touches the file system and never asks the platform
//! for anything. Its callers look up the documents directory, read
//! directories, and hand over what they found as [`storage::DirRead`]
//! values; the library decides what is a course, what is a lecture, which
//! course directory is read next, and how lectures are ordered and grouped.

pub mod order;
pub mod paths;
pub mod storage;
pub mod lecture;
pub mod sorting;
pub mod courses;
pub mod scan;
pub mod dates;
