//! The shells whose history can be read, and what sets them apart: where the
//! history file lies and how an entry records its command.
use vstd::prelude::*;
use crate::frequency::rank_commands;
use crate::report::{is_report, render};
use crate::text::{push_str, same_chars, strings_view};
use crate::tokenize::{commands_of, extract_commands};

verus! {

/// The shells whose history files this library understands.
#[derive(Clone, Copy, Debug, PartialEq, Eq, Structural)]
pub enum ShellKind {
    Zsh,
    Bash,
    Fish,
}

/// The shell named `name` on the command line, if it is one of `zsh`, `bash`
/// and `fish` (case matters).
pub open spec fn shell_named(name: Seq<char>) -> Option<ShellKind> {
    if name == "zsh"@ {
        Some(ShellKind::Zsh)
    } else if name == "bash"@ {
        Some(ShellKind::Bash)
    } else if name == "fish"@ {
        Some(ShellKind::Fish)
    } else {
        None
    }
}

/// Where the history file of `kind` lies below the user's home directory.
pub open spec fn history_suffix(kind: ShellKind) -> Seq<char> {
    match kind {
        ShellKind::Zsh => "/.zsh_history"@,
        ShellKind::Bash => "/.bash_history"@,
        ShellKind::Fish => "/.local/share/fish/fish_history"@,
    }
}

/// The path of the history file of `kind` for the user named `user`.
pub open spec fn history_path_of(kind: ShellKind, user: Seq<char>) -> Seq<char> {
    "/home/"@ + user + history_suffix(kind)
}

/// The shell named `name`, or `None` where no supported shell has that name.
pub fn parse_shell(name: &str) -> (r: Option<ShellKind>)
    ensures
        r == shell_named(name@),
{
    if same_chars(name, "zsh") {
        Some(ShellKind::Zsh)
    } else if same_chars(name, "bash") {
        Some(ShellKind::Bash)
    } else if same_chars(name, "fish") {
        Some(ShellKind::Fish)
    } else {
        None
    }
}

/// The path of the history file of `kind` for the user named `user`.
pub fn history_path(kind: ShellKind, user: &str) -> (r: String)
    ensures
        r@ == history_path_of(kind, user@),
{
    let mut r = String::new();
    push_str(&mut r, "/home/");
    push_str(&mut r, user);
    match kind {
        ShellKind::Zsh => push_str(&mut r, "/.zsh_history"),
        ShellKind::Bash => push_str(&mut r, "/.bash_history"),
        ShellKind::Fish => push_str(&mut r, "/.local/share/fish/fish_history"),
    }
    assert(r@ =~= history_path_of(kind, user@));
    r
}

/// A shell whose history file can be read for the commands that were run.
pub trait Shell {
    /// Which shell this is.
    spec fn spec_kind(&self) -> ShellKind;

    fn kind(&self) -> (k: ShellKind)
        ensures
            k == self.spec_kind(),
    ;

    /// The path of this shell's history file for the user named `user`.
    fn history_path(&self, user: &str) -> (r: String)
        ensures
            r@ == history_path_of(self.spec_kind(), user@),
    ;

    /// The commands recorded in `history`, the text of this shell's history
    /// file, in the order of its lines.
    fn get_commands_ran(&self, history: &str) -> (r: Vec<String>)
        ensures
            strings_view(r@) == commands_of(self.spec_kind(), history@),
    ;
}

/// The Zsh shell.
pub struct Zsh;

/// The Bash shell.
pub struct Bash;

/// The fish shell.
pub struct Fish;

impl Shell for Zsh {
    open spec fn spec_kind(&self) -> ShellKind {
        ShellKind::Zsh
    }

    fn kind(&self) -> (k: ShellKind) {
        ShellKind::Zsh
    }

    fn history_path(&self, user: &str) -> (r: String) {
        history_path(ShellKind::Zsh, user)
    }

    fn get_commands_ran(&self, history: &str) -> (r: Vec<String>) {
        extract_commands(ShellKind::Zsh, history)
    }
}

impl Shell for Bash {
    open spec fn spec_kind(&self) -> ShellKind {
        ShellKind::Bash
    }

    fn kind(&self) -> (k: ShellKind) {
        ShellKind::Bash
    }

    fn history_path(&self, user: &str) -> (r: String) {
        history_path(ShellKind::Bash, user)
    }

    fn get_commands_ran(&self, history: &str) -> (r: Vec<String>) {
        extract_commands(ShellKind::Bash, history)
    }
}

impl Shell for Fish {
    open spec fn spec_kind(&self) -> ShellKind {
        ShellKind::Fish
    }

    fn kind(&self) -> (k: ShellKind) {
        ShellKind::Fish
    }

    fn history_path(&self, user: &str) -> (r: String) {
        history_path(ShellKind::Fish, user)
    }

    fn get_commands_ran(&self, history: &str) -> (r: Vec<String>) {
        extract_commands(ShellKind::Fish, history)
    }
}

/// The lines `{command} => {count}` for the commands run in `commands`, most
/// frequent first, or least frequent first where `reverse` is set (the same
/// lines in the opposite order).
pub fn frequency_report(commands: &Vec<String>, reverse: bool) -> (r: Vec<String>)
    ensures
        is_report(strings_view(commands@), strings_view(r@), reverse),
{
    let ranked = rank_commands(commands);
    render(&ranked, reverse)
}

/// The report for the history text `history` of `shell`: each command run,
/// with the number of times it was run, most frequent first, or least
/// frequent first where `reverse` is set.
pub fn history_report<S: Shell>(shell: &S, history: &str, reverse: bool) -> (r: Vec<String>)
    ensures
        is_report(commands_of(shell.spec_kind(), history@), strings_view(r@), reverse),
{
    let commands = shell.get_commands_ran(history);
    frequency_report(&commands, reverse)
}

} // verus!
