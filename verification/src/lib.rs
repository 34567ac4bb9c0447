pub mod compiler;
pub mod decimal;
pub mod encoding;
pub mod laws;
pub mod lexer;
pub mod misc;
pub mod vm;
