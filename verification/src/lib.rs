//! Verified core of a small interactive shell: tokenizing command lines,
//! redirections, history, background jobs, shell variables, programmable
//! completion, and TAB-completion decisions.

pub mod builtins;
pub mod completion;
pub mod completions;
pub mod history;
pub mod jobs;
pub mod order;
pub mod path;
pub mod redirection;
pub mod strmap;
pub mod text;
pub mod tokenize;
pub mod vars;
