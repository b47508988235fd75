pub mod application;
pub mod filters;
pub mod search_parameters;
pub mod tree_adapter;
pub mod widgets;
