//! A store of flashcard groups arranged as a forest, with ownership resolved
//! through each tree's root, tree reading, subtree copying and guarded
//! mutation, plus the request records of the surrounding service.

pub mod model;
pub mod store;
pub mod ownership;
pub mod reader;
pub mod mutator;
pub mod copier;
pub mod laws;
pub mod validation;
pub mod auth;
pub mod catalog;
pub mod translator;
