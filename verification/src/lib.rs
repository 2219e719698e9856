//! Analysis of protein-folding trajectories through native contacts.
//!
//! The pipeline turns a text trajectory (MODEL/ATOM/ENDMDL records) into
//! per-frame folding-progress records, aggregates those into windowed
//! cluster means, smooths them with centered running averages, and infers
//! the order in which structural clusters formed from a binarized summary.
//!
//! All quantities are exact: coordinates are fixed-point milli-unit
//! integers and every fraction (folding progress, cluster filling, window
//! mean, cutoff) is a rational held as a numerator/denominator pair.

pub mod aggregate;
pub mod classify;
pub mod codec;
pub mod contacts;
pub mod csvio;
pub mod errors;
pub mod evaluate;
pub mod geometry;
pub mod numbers;
pub mod pairmap;
pub mod results;
pub mod smooth;
pub mod text;
pub mod trajectory;
