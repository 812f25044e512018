//! Lossless lexing of quilt series files, with the parse-result types that
//! the series and patch parsers hand back.

pub mod edit;
