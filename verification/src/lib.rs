//! A just-in-time compiler's function-level logic: inlining of calls in a plain model of
//! compiled functions, lookup of functions in modules loaded from bitcode, symbol tables read from
//! `nm` output, and the state of a compilation target.

pub mod ir;
pub mod inline;
pub mod module;
pub mod syms;
pub mod target;
pub mod inline_laws;
