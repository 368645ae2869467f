//! An in-process search index for catalog entities.
//!
//! Callers submit documents in bulk and later query them by free-text
//! relevance, attribute filters, explicit sort order, and pagination.
//! The engine is built from an analyzer (text to lexemes), an identity map
//! and document store, an inverted index (lexeme to posting list), and a
//! query pipeline that scores, filters, orders, and paginates candidates.

pub mod analyzer;
pub mod document;
pub mod index;
pub mod laws;
pub mod params;
pub mod pipeline;
pub mod service;
pub mod store;
pub mod text;
