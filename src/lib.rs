pub mod document;
pub mod path;
