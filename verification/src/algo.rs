pub mod boolvec;
pub mod counts;
pub mod dense;
pub mod distance;
pub mod existence;
pub mod partition;
pub mod paths;
pub mod reach;
pub mod traversal;
