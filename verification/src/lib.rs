//! A small interactive shell: tokenizing, builtins, completion, pipelines and jobs.
pub mod text;
pub mod parser;
pub mod trie;
pub mod lcp;
pub mod context;
pub mod order;
pub mod completer;
pub mod number;
pub mod builtin;
pub mod jobs;
pub mod shell;
pub mod pipeline;
