//! Normalises crafting-recipe documents found in game-mod archives and keeps
//! the normalised records in a searchable store.

pub mod clock;
pub mod database;
pub mod extraction;
pub mod json;
pub mod ranking;
pub mod recipe_parser;
pub mod records;
pub mod scanner;
pub mod store;
pub mod text;
