//! Pulling the command name out of each entry of a history file.
use vstd::prelude::*;
use crate::shells::ShellKind;
use crate::text::{
    chars_of, find_in, first_occurrence, lemma_first_occurrence, string_of, strings_view,
};

verus! {

/// The marker that precedes a command in a fish history entry.
pub open spec fn fish_marker() -> Seq<char> {
    seq!['c', 'm', 'd', ':', ' ']
}

/// The lines of `t`: the maximal runs of characters between newlines.
/// A text of `k` newlines has `k + 1` lines, the last one possibly empty.
pub open spec fn split_lines(t: Seq<char>) -> Seq<Seq<char>>
    decreases t.len(),
{
    if t.len() == 0 {
        seq![Seq::empty()]
    } else {
        let ls = split_lines(t.drop_last());
        if t.last() == '\n' {
            ls.push(Seq::empty())
        } else {
            ls.update(ls.len() - 1, ls.last().push(t.last()))
        }
    }
}

/// The word of `line` that starts at `start` and ends before the next space;
/// nothing where no space follows.
pub open spec fn word_from(line: Seq<char>, start: int) -> Option<Seq<char>> {
    match first_occurrence(line.subrange(start, line.len() as int), seq![' ']) {
        Some(q) => Some(line.subrange(start, start + q)),
        None => None,
    }
}

/// The command recorded on one history line, by the grammar of `kind`.
pub open spec fn command_of_line(kind: ShellKind, line: Seq<char>) -> Option<Seq<char>> {
    match kind {
        ShellKind::Zsh => match first_occurrence(line, seq![';']) {
            Some(p) => word_from(line, p + 1),
            None => None,
        },
        ShellKind::Bash => word_from(line, 0),
        ShellKind::Fish => match first_occurrence(line, fish_marker()) {
            Some(h) => word_from(line, h + fish_marker().len()),
            None => None,
        },
    }
}

/// The commands of `lines`, in order, with the lines that hold none left out.
pub open spec fn commands_of_lines(kind: ShellKind, lines: Seq<Seq<char>>) -> Seq<Seq<char>>
    decreases lines.len(),
{
    if lines.len() == 0 {
        Seq::empty()
    } else {
        let rest = commands_of_lines(kind, lines.drop_last());
        match command_of_line(kind, lines.last()) {
            Some(c) => rest.push(c),
            None => rest,
        }
    }
}

/// The commands recorded in the history text `t`.
pub open spec fn commands_of(kind: ShellKind, t: Seq<char>) -> Seq<Seq<char>> {
    commands_of_lines(kind, split_lines(t))
}

/// The word of `t[..hi]` that starts at `start` and ends before the next space.
fn word_in(t: &Vec<char>, lo: usize, hi: usize, start: usize) -> (r: Option<String>)
    requires
        lo <= start <= hi <= t.len(),
    ensures
        match r {
            Some(s) => word_from(t@.subrange(lo as int, hi as int), start - lo) == Some(s@),
            None => word_from(t@.subrange(lo as int, hi as int), start - lo) is None,
        },
{
    let ghost line = t@.subrange(lo as int, hi as int);
    assert(line.subrange(start - lo, line.len() as int) =~= t@.subrange(start as int, hi as int));
    let space = vec![' '];
    assert(space@ =~= seq![' ']);
    match find_in(t, start, hi, &space) {
        Some(k) => {
            proof {
                reveal_occurs(t@.subrange(start as int, hi as int), seq![' '], k - start);
            }
            let w = string_of(t, start, k);
            assert(line.subrange(start - lo, k - lo) =~= t@.subrange(start as int, k as int));
            Some(w)
        },
        None => None,
    }
}

/// The command on the line `t[lo..hi]`, by the grammar of `kind`.
pub fn command_in_line(kind: ShellKind, t: &Vec<char>, lo: usize, hi: usize) -> (r: Option<String>)
    requires
        lo <= hi <= t.len(),
    ensures
        match r {
            Some(s) => command_of_line(kind, t@.subrange(lo as int, hi as int)) == Some(s@),
            None => command_of_line(kind, t@.subrange(lo as int, hi as int)) is None,
        },
{
    match kind {
        ShellKind::Zsh => {
            let semicolon = vec![';'];
            assert(semicolon@ =~= seq![';']);
            match find_in(t, lo, hi, &semicolon) {
                Some(p) => {
                    proof {
                        reveal_occurs(t@.subrange(lo as int, hi as int), seq![';'], p - lo);
                    }
                    word_in(t, lo, hi, p + 1)
                },
                None => None,
            }
        },
        ShellKind::Bash => word_in(t, lo, hi, lo),
        ShellKind::Fish => {
            let marker = vec!['c', 'm', 'd', ':', ' '];
            assert(marker@ =~= fish_marker());
            match find_in(t, lo, hi, &marker) {
                Some(h) => {
                    proof {
                        reveal_occurs(t@.subrange(lo as int, hi as int), fish_marker(), h - lo);
                    }
                    word_in(t, lo, hi, h + 5)
                },
                None => None,
            }
        },
    }
}

/// A found occurrence lies inside the searched text.
proof fn reveal_occurs(s: Seq<char>, pat: Seq<char>, k: int)
    requires
        first_occurrence(s, pat) == Some(k),
    ensures
        0 <= k && k + pat.len() <= s.len(),
{
    lemma_first_occurrence(s, pat);
}

/// The commands recorded in the history text `text`, one for each line that
/// follows the grammar of `kind`, in the order of the lines.
pub fn extract_commands(kind: ShellKind, text: &str) -> (r: Vec<String>)
    ensures
        strings_view(r@) == commands_of(kind, text@),
{
    let t = chars_of(text);
    let mut out: Vec<String> = Vec::new();
    let mut start: usize = 0;
    let mut i: usize = 0;
    let ghost mut done: Seq<Seq<char>> = Seq::empty();
    assert(t@.subrange(0, 0) =~= Seq::<char>::empty());
    while i < t.len()
        invariant
            start <= i <= t.len(),
            t@ == text@,
            split_lines(t@.subrange(0, i as int)) == done.push(t@.subrange(start as int, i as int)),
            strings_view(out@) == commands_of_lines(kind, done),
        decreases t.len() - i,
    {
        let ghost prefix = t@.subrange(0, i as int);
        assert(t@.subrange(0, i + 1).drop_last() =~= prefix);
        if t[i] == '\n' {
            let ghost line = t@.subrange(start as int, i as int);
            let c = command_in_line(kind, &t, start, i);
            assert(done.push(line).drop_last() =~= done);
            match c {
                Some(s) => {
                    let ghost before = out@;
                    out.push(s);
                    assert(strings_view(out@) =~= strings_view(before).push(s@));
                },
                None => {},
            }
            proof {
                done = done.push(line);
            }
            start = i + 1;
            assert(t@.subrange(start as int, i + 1) =~= Seq::<char>::empty());
        } else {
            assert(t@.subrange(start as int, i + 1) =~= t@.subrange(start as int, i as int).push(
                t@[i as int],
            ));
        }
        i += 1;
    }
    assert(t@.subrange(0, i as int) =~= t@);
    let ghost line = t@.subrange(start as int, i as int);
    assert(done.push(line).drop_last() =~= done);
    let c = command_in_line(kind, &t, start, i);
    match c {
        Some(s) => {
            let ghost before = out@;
            out.push(s);
            assert(strings_view(out@) =~= strings_view(before).push(s@));
        },
        None => {},
    }
    assert(strings_view(out@) =~= commands_of_lines(kind, done.push(line)));
    out
}

/// Extraction depends on the text alone: the same text read by the same
/// grammar yields the same commands, in the same order.
pub proof fn lemma_extraction_deterministic(kind: ShellKind, t1: Seq<char>, t2: Seq<char>)
    requires
        t1 == t2,
    ensures
        commands_of(kind, t1) == commands_of(kind, t2),
{
}

} // verus!
