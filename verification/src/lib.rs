//! An ELIZA-style conversational engine and the course databases its advisers consult.
pub mod text;
pub mod script;
pub mod rewrite;
pub mod keystack;
pub mod pattern;
pub mod usage;
pub mod engine;
pub mod eliza;
pub mod chatbot;
pub mod pawliki;
