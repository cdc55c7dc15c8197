//! Assembles one markdown document out of a tree of markdown fragments.

pub mod lines;
pub mod md_doc;
pub mod lemmas;
