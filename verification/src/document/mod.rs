pub mod color;
pub mod fragment;
pub mod line;
pub mod mdconverter;
pub mod span;
pub mod style;
pub mod text;
pub mod theme;
pub mod word;
