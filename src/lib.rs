//! Verified core of small text utilities in the style of `cat`, `echo`, `head`
//! and `wc`: line and word accounting, bounded retrieval, and the formatting of
//! their output.

pub mod text;
pub mod wc;
pub mod head;
pub mod cat;
pub mod echo;
