//! Asking a service for the embeddings of images.

pub mod base64_text;
pub mod centroid;
pub mod input;
pub mod payload;
pub mod pictures;
pub mod plan;
pub mod retry;
pub mod run;
