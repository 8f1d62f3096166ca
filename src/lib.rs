//! File discovery with layered ignore rules: command-line exclude globs,
//! version-control ignore files and cascading `.promptignore` files.
pub mod path;
pub mod exclude;
pub mod text;
pub mod tokenizer;
pub mod files;
pub mod discovery;
pub mod promptignore;
pub mod tree;
pub mod config;
pub mod run;
