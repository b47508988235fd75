pub mod clipboard_overlay;
pub mod document_view;
pub mod keybindings_view;
pub mod metadata_view;
pub mod snippet_view;
pub mod tree_view;
