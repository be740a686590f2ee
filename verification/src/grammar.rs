//! The grammar, as functions on the UTF-8 bytes of the text. A rule looks at
//! the head of what is left of the input; where it matches, it gives what it
//! read and what is left after it.

pub mod block;
pub mod inline;
