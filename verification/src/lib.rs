//! Splits a set of files into capacity-bounded buckets by first-fit over
//! descending size, and names the directory each bucket is linked into.

pub mod bucket;
pub mod decimal;
pub mod first_fit;
pub mod linking;
pub mod naming;
pub mod order;
pub mod packer;
pub mod report;
pub mod settings;
pub mod size;
pub mod size_lemmas;
pub mod text;
