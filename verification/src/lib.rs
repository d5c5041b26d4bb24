//! Word expansion, pattern matching, arithmetic and line editing of a
//! POSIX shell.

pub mod chars;
pub mod glob;
pub mod bytes;
pub mod context;
pub mod scan;
pub mod segments;
pub mod params;
pub mod arith;
pub mod expand;
pub mod pathname;
pub mod hash;
pub mod vi;
pub mod vi_model;
pub mod prompt;
pub mod session;
