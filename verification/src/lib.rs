//! Fixed-capacity tag sets: small sorted collections of bounded-length text
//! labels that live entirely in inline storage.
//!
//! [`smallstring`] holds the bounded text, [`tagset`] the set, [`lex`] the
//! order of the tags, [`text`] the comma-separated form, and [`model`] what
//! the operations mean and the theorems about them. [`dense`] keeps the
//! row-major bookkeeping of the matrix factors that tagged indices join.

pub mod dense;
pub mod lex;
pub mod model;
pub mod smallstring;
pub mod tagset;
pub mod text;
