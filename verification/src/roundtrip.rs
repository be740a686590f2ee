//! Writing and reading back: what is written in the grammar's own form is
//! read as what was written.

pub mod block;
pub mod inline;
