//! An interactive line picker: candidates are scored against a typed query by
//! local alignment, kept in ranked order, and one of them is selected.

pub mod fuzzyfinder;
