//! Counting how often each command appears in a shell's history file.
//!
//! A history file is read as text, each entry yields the name of the command it
//! ran (by the grammar of its shell), and the commands are ranked by how often
//! they were run.
pub mod frequency;
pub mod report;
pub mod shells;
pub mod text;
pub mod tokenize;

pub use frequency::{rank_commands, sort_by_count, tally};
pub use report::{format_entry, render};
pub use shells::{
    frequency_report, history_path, history_report, parse_shell, Bash, Fish, Shell, ShellKind, Zsh,
};
pub use tokenize::extract_commands;
