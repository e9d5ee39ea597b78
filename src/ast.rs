//! The syntax tree of a PKGBUILD file and the parsers that build it.
pub mod assignment;
pub mod comment;
pub mod function;
pub mod pkgbuild;
pub mod round_trip;
pub mod span;
pub mod token;
pub mod value;
