//! A small text-template engine: a tokenizer and tree builder for a
//! configurable tag grammar, a path algebra with relative navigation,
//! a deep-merge for generic data documents, and a context-relative
//! renderer that walks the tree against a merged document.

pub mod errors;
pub mod load;
pub mod parse;
pub mod render;
pub mod text;
pub mod value;
pub mod yaml;
