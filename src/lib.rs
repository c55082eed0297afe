//! A prefix tree of entered lines, and the line-editing rules that feed it.
pub mod editor;
pub mod trie;

pub use editor::{commit_line, is_exit_command, trim, Action, Key, LineEditor};
pub use trie::{Node, Trie, TrieRead};
