/// Lexer for quilt series files
pub mod lex;
/// What the series lexer's output always satisfies
pub mod laws;
