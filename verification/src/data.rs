pub mod link;
pub mod filtre;
pub mod matrix;
pub mod iterators;
