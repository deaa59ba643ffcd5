pub mod rename_link_iterator;
pub mod uniform_link_generator;
