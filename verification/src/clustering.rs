//! Sampling, scoring and the searches for clustering parameters.

pub mod bayes;
pub mod dimension;
pub mod halving;
pub mod labels;
pub mod quality;
pub mod ranking;
pub mod report;
pub mod sampling;
