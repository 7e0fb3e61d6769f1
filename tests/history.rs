use histfreq::{
    extract_commands, format_entry, frequency_report, history_path, history_report, parse_shell,
    rank_commands, render, sort_by_count, tally, Bash, Fish, Shell, ShellKind, Zsh,
};

fn strings(v: &[&str]) -> Vec<String> {
    v.iter().map(|s| s.to_string()).collect()
}

fn entries(v: &[(&str, usize)]) -> Vec<(String, usize)> {
    v.iter().map(|(s, n)| (s.to_string(), *n)).collect()
}

#[test]
fn zsh_line_yields_command() {
    assert_eq!(extract_commands(ShellKind::Zsh, ": 1610000000:0;ls -la"), strings(&["ls"]));
}

#[test]
fn bash_line_yields_command() {
    assert_eq!(extract_commands(ShellKind::Bash, "git status"), strings(&["git"]));
}

#[test]
fn fish_entry_yields_command() {
    assert_eq!(
        extract_commands(ShellKind::Fish, "- cmd: npm install\n  when: 123"),
        strings(&["npm"])
    );
}

#[test]
fn bash_line_without_space_is_skipped() {
    assert_eq!(extract_commands(ShellKind::Bash, "ls"), Vec::<String>::new());
}

#[test]
fn unknown_shell_is_rejected() {
    assert_eq!(parse_shell("tcsh"), None);
    assert_eq!(parse_shell("Zsh"), None);
    assert_eq!(parse_shell(""), None);
}

#[test]
fn known_shells_are_parsed() {
    assert_eq!(parse_shell("zsh"), Some(ShellKind::Zsh));
    assert_eq!(parse_shell("bash"), Some(ShellKind::Bash));
    assert_eq!(parse_shell("fish"), Some(ShellKind::Fish));
}

#[test]
fn zsh_command_needs_a_following_space() {
    assert_eq!(extract_commands(ShellKind::Zsh, ": 1610000000:0;ls"), Vec::<String>::new());
    assert_eq!(extract_commands(ShellKind::Zsh, "no semicolon here"), Vec::<String>::new());
    assert_eq!(extract_commands(ShellKind::Zsh, ": 1:0;"), Vec::<String>::new());
}

#[test]
fn fish_command_needs_a_following_space() {
    assert_eq!(extract_commands(ShellKind::Fish, "- cmd: ls"), Vec::<String>::new());
    assert_eq!(extract_commands(ShellKind::Fish, "- cmd: "), Vec::<String>::new());
    assert_eq!(extract_commands(ShellKind::Fish, "  when: 123"), Vec::<String>::new());
}

#[test]
fn bash_takes_text_up_to_first_space() {
    assert_eq!(extract_commands(ShellKind::Bash, "ls "), strings(&["ls"]));
    assert_eq!(extract_commands(ShellKind::Bash, " x"), strings(&[""]));
}

#[test]
fn lines_keep_file_order_and_duplicates() {
    let text = ": 1:0;git status\n: 2:0;ls -la\n: 3:0;git log\nbroken\n: 4:0;ls\n";
    assert_eq!(extract_commands(ShellKind::Zsh, text), strings(&["git", "ls", "git"]));
}

#[test]
fn crlf_lines_are_read_like_plain_lines() {
    let text = "git status\r\nls\r\ncargo build\r\n";
    assert_eq!(extract_commands(ShellKind::Bash, text), strings(&["git", "cargo"]));
}

#[test]
fn fish_history_with_several_entries() {
    let text = "- cmd: cd /tmp\n  when: 1\n- cmd: ls -l\n  when: 2\n- cmd: cd ..\n  when: 3\n";
    assert_eq!(extract_commands(ShellKind::Fish, text), strings(&["cd", "ls", "cd"]));
}

#[test]
fn extraction_is_repeatable() {
    let text = ": 1:0;git status\n: 2:0;ls -la\n";
    assert_eq!(extract_commands(ShellKind::Zsh, text), extract_commands(ShellKind::Zsh, text));
}

#[test]
fn non_ascii_commands_are_kept_whole() {
    assert_eq!(extract_commands(ShellKind::Bash, "échö x"), strings(&["échö"]));
}

#[test]
fn tally_counts_in_first_seen_order() {
    let t = tally(&strings(&["ls", "git", "ls", "cd", "ls", "git"]));
    assert_eq!(t, entries(&[("ls", 3), ("git", 2), ("cd", 1)]));
    assert_eq!(tally(&Vec::new()), Vec::<(String, usize)>::new());
}

#[test]
fn sort_is_descending_and_stable() {
    let t = entries(&[("a", 1), ("b", 3), ("c", 1), ("d", 3), ("e", 2)]);
    assert_eq!(
        sort_by_count(&t),
        entries(&[("b", 3), ("d", 3), ("e", 2), ("a", 1), ("c", 1)])
    );
}

#[test]
fn ranking_accounts_for_every_command() {
    let cmds = strings(&["x", "y", "x", "z", "y", "x", "w"]);
    let r = rank_commands(&cmds);
    assert_eq!(r.len(), 4);
    assert_eq!(r.iter().map(|e| e.1).sum::<usize>(), cmds.len());
    for pair in r.windows(2) {
        assert!(pair[0].1 >= pair[1].1);
    }
    assert_eq!(r, entries(&[("x", 3), ("y", 2), ("z", 1), ("w", 1)]));
}

#[test]
fn entry_line_format() {
    assert_eq!(format_entry(&"ls".to_string(), 2), "ls => 2");
    assert_eq!(format_entry(&"git".to_string(), 0), "git => 0");
    assert_eq!(format_entry(&"git".to_string(), 10), "git => 10");
    assert_eq!(format_entry(&"a".to_string(), 1234567890), "a => 1234567890");
}

#[test]
fn render_forward_and_reversed() {
    let e = entries(&[("ls", 3), ("git", 1), ("cd", 1)]);
    assert_eq!(render(&e, false), strings(&["ls => 3", "git => 1", "cd => 1"]));
    assert_eq!(render(&e, true), strings(&["cd => 1", "git => 1", "ls => 3"]));
}

#[test]
fn reversed_report_mirrors_forward_report() {
    let cmds = strings(&["a", "b", "a", "c", "b", "a", "d"]);
    let fwd = frequency_report(&cmds, false);
    let mut rev = frequency_report(&cmds, true);
    rev.reverse();
    assert_eq!(fwd, rev);
    assert_eq!(fwd, strings(&["a => 3", "b => 2", "c => 1", "d => 1"]));
}

#[test]
fn empty_history_gives_empty_report() {
    assert_eq!(history_report(&Bash, "", false), Vec::<String>::new());
}

#[test]
fn history_report_of_zsh_text() {
    let text = ": 1:0;git status\n: 2:0;ls -la\n: 3:0;git log\n";
    assert_eq!(history_report(&Zsh, text, false), strings(&["git => 2", "ls => 1"]));
    assert_eq!(history_report(&Zsh, text, true), strings(&["ls => 1", "git => 2"]));
}

#[test]
fn history_paths() {
    assert_eq!(history_path(ShellKind::Zsh, "alice"), "/home/alice/.zsh_history");
    assert_eq!(history_path(ShellKind::Bash, "bob"), "/home/bob/.bash_history");
    assert_eq!(
        history_path(ShellKind::Fish, "carol"),
        "/home/carol/.local/share/fish/fish_history"
    );
}

#[test]
fn shell_values_know_their_kind() {
    assert_eq!(Zsh.kind(), ShellKind::Zsh);
    assert_eq!(Bash.kind(), ShellKind::Bash);
    assert_eq!(Fish.kind(), ShellKind::Fish);
    assert_eq!(Fish.history_path("dan"), "/home/dan/.local/share/fish/fish_history");
    assert_eq!(Bash.get_commands_ran("make all\n"), strings(&["make"]));
    assert_eq!(Fish.get_commands_ran("- cmd: vim a\n"), strings(&["vim"]));
    assert_eq!(Zsh.get_commands_ran(": 1:0;top -d 1\n"), strings(&["top"]));
}
