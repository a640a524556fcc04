//! An interactive command shell: variables, expansion, globbing, completion
//! and job bookkeeping, with the decisions of each verified.

pub mod builtins;
pub mod completion;
pub mod context_sync;
pub mod environment;
pub mod error;
pub mod expansion;
pub mod glob;
pub mod hint;
pub mod jobs;
pub mod lexer;
pub mod names;
pub mod order;
pub mod parser;
pub mod repl;
pub mod store;
pub mod test_summary;
pub mod text;
pub mod variables;
pub mod words;
pub mod worktree;
