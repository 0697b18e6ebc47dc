pub mod ast;
pub mod buildable;
pub mod cli;
pub mod comment_insertion;
pub mod config;
pub mod document;
pub mod document_builder;
pub mod exit;
pub mod format;
pub mod resolve;
pub mod text;
