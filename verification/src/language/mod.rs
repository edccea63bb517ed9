pub mod asp;
pub mod compiler;
pub mod concepts;
pub mod dnf;
pub mod matching;
pub mod pattern;
pub mod resin;
pub mod laws;
