//! Spell checking for prose: a document and token model, dictionaries, a
//! bounded edit-distance suggestion engine and the linter that ties them
//! together.

pub mod chars;
pub mod dictionary;
pub mod document;
pub mod linting;
pub mod parsers;
pub mod position;
pub mod span;
pub mod spell;
pub mod token;
