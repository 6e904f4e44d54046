//! A verified core for a DataFlex language server.
//!
//! The library keeps, per open document, a line-indexed text buffer, a
//! syntax tree, and a map of semantic highlight tokens, and maintains a
//! workspace-wide symbol index with name-keyed lookup tables.  Editor
//! protocol plumbing, file-system access and thread scheduling live
//! outside the library; everything here is plain data and verified logic.

pub mod code_completion;
pub mod dataflex_document;
pub mod dataflex_parser;
pub mod document_context;
pub mod index;
pub mod line_map;
pub mod point;
pub mod reference_resolver;
pub mod syntax_map;
pub mod syntax_tree;
pub mod text;
pub mod tree_cursor;

pub use line_map::LineMap;
pub use point::Point;
