pub mod document;
pub mod snippets;
pub mod timing;
pub mod ui;
pub mod util;
