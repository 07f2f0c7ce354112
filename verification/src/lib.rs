//! A unit-conversion engine built on a directed graph of unit equivalences.
//!
//! A table of equivalence lines (`12 inches(in) = 1 foot(ft)`) is parsed into
//! an immutable graph whose nodes are units and whose directed edges carry the
//! exact ratio "target units per one source unit" as a rational number.  A
//! free-text unit name is resolved to a node by exact match first and by
//! bounded Levenshtein distance as a fallback; the conversion factor between
//! two resolved nodes is the product of the edge ratios along a connecting
//! path.

pub mod convert;
pub mod distance;
pub mod errors;
pub mod factor;
pub mod graph;
pub mod parse;
pub mod paths;
pub mod pgraph;
pub mod rational;
pub mod resolve;
pub mod text;
pub mod unit;
