//! Small list containers.

pub mod array_vec;
