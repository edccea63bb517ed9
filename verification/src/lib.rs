//! Resin: reactive signal inference over algebraic circuits compiled from a
//! probabilistic logic language.
pub mod channels;
pub mod circuit;
pub mod language;
pub mod lemmas;
pub mod text;
pub mod utility;
