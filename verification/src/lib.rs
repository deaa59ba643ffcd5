pub mod data;
pub mod algo;
