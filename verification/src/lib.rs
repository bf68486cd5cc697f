//! A file system rebuilt from the transcript of a shell session, and two
//! questions asked of it.
//!
//! [`builder::build_fs`] follows the `cd` and `ls` lines of a transcript and
//! builds the tree of directories and files that they describe.
//! [`fsobject`] holds that tree: an arena of entries in which every
//! directory knows the total size of what lies beneath it. [`queries`]
//! answers the two questions. [`forest`] is the mathematical model that all
//! contracts speak of, and [`laws`] states what holds of every tree and
//! every transcript.

pub mod builder;
pub mod forest;
pub mod forest_lemmas;
pub mod fsobject;
pub mod laws;
pub mod names;
pub mod putback_iter;
pub mod queries;
pub mod transcript;
