//! A small persistent to-do list: an ordered collection of task records
//! with append, list, edit, remove and complete operations, addressed by
//! 1-based display indices, together with a verified text codec for the
//! on-disk representation.

pub mod task;
pub mod store;
pub mod json;
