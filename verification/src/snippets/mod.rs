pub mod archive;
pub mod hierarchy;
pub mod library;
pub mod snippets;
