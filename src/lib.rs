//! A small manager for a library of markdown documents. Its core is a typed
//! command-line argument parser (`args`, with its proved properties in
//! `args_lemmas`); around it stand the record of the library's documents,
//! an FNV-1 hash for detecting changed documents, markdown titles and HTML,
//! link helpers and prompt answers.

pub mod args;
pub mod args_lemmas;
pub mod decimal;
pub mod fnv1_hash;
pub mod href;
pub mod library;
pub mod md_content;
pub mod prompt;
