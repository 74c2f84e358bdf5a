pub mod builtins;
pub mod command;
pub mod completion;
pub mod executable;
pub mod history;
pub mod jobs;
pub mod parser;
pub mod redirect;
pub mod text;
pub mod trie;
