//! The decisions, texts and data handling of an image clustering tool, verified.
//!
//! Images are indexed by name into a table of embeddings, read back as a matrix,
//! subsampled, and clustered under parameters that a search picks. Numbers that the
//! library only compares and moves are carried by their bit patterns (see [`ieee`]).

pub mod blob;
pub mod clustering;
pub mod embeddings;
pub mod ieee;
pub mod indexing;
pub mod matrix;
pub mod paths;
pub mod settings;
pub mod tables;
pub mod text;
