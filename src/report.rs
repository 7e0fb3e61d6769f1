//! Turning a ranking of commands into the lines that are printed.
use vstd::prelude::*;
use crate::frequency::{
    entries_view, is_ranking, lemma_ranking_accounts_for_every_command, lemma_ranking_unique,
};
use crate::text::{push_char, push_str, strings_view};

verus! {

/// The decimal digit `d`.
pub open spec fn digit(d: nat) -> char {
    (d + 48) as char
}

/// The decimal notation of `n`, without leading zeros.
pub open spec fn decimal(n: nat) -> Seq<char>
    decreases n,
{
    if n < 10 {
        seq![digit(n)]
    } else {
        decimal(n / 10).push(digit(n % 10))
    }
}

/// The line that reports one command and its count: `{command} => {count}`.
pub open spec fn report_line(e: (Seq<char>, nat)) -> Seq<char> {
    e.0 + seq![' ', '=', '>', ' '] + decimal(e.1)
}

/// One line per entry, in the order of `e`, or in the opposite order where
/// `reverse` is set.
pub open spec fn report(e: Seq<(Seq<char>, nat)>, reverse: bool) -> Seq<Seq<char>> {
    let lines = e.map_values(|x: (Seq<char>, nat)| report_line(x));
    if reverse {
        lines.reverse()
    } else {
        lines
    }
}

/// Appends the decimal notation of `n` to `s`.
pub fn push_decimal(s: &mut String, n: usize)
    ensures
        final(s)@ == old(s)@ + decimal(n as nat),
    decreases n,
{
    if n >= 10 {
        push_decimal(s, n / 10);
    }
    let d = (n % 10) as u8;
    push_char(s, (d + 48) as char);
    assert(final(s)@ =~= old(s)@ + decimal(n as nat));
}

/// The line `{command} => {count}`.
pub fn format_entry(command: &String, count: usize) -> (r: String)
    ensures
        r@ == report_line((command@, count as nat)),
{
    let mut r = String::new();
    push_str(&mut r, command.as_str());
    push_char(&mut r, ' ');
    push_char(&mut r, '=');
    push_char(&mut r, '>');
    push_char(&mut r, ' ');
    push_decimal(&mut r, count);
    assert(r@ =~= report_line((command@, count as nat)));
    r
}

/// The printed lines for `entries`: one `{command} => {count}` per entry, in
/// the order of `entries`, or in the opposite order where `reverse` is set.
pub fn render(entries: &Vec<(String, usize)>, reverse: bool) -> (r: Vec<String>)
    ensures
        strings_view(r@) == report(entries_view(entries@), reverse),
{
    let ghost lines = entries_view(entries@).map_values(|x: (Seq<char>, nat)| report_line(x));
    let n = entries.len();
    let mut r: Vec<String> = Vec::new();
    let mut i: usize = 0;
    while i < n
        invariant
            n == entries.len(),
            lines == entries_view(entries@).map_values(|x: (Seq<char>, nat)| report_line(x)),
            i <= n,
            r.len() == i,
            forall|k: int|
                0 <= k < i ==> #[trigger] r@[k]@ == if reverse {
                    lines[n - 1 - k]
                } else {
                    lines[k]
                },
        decreases n - i,
    {
        let j = if reverse {
            n - 1 - i
        } else {
            i
        };
        let line = format_entry(&entries[j].0, entries[j].1);
        assert(entries_view(entries@)[j as int] == (entries@[j as int].0@, entries@[j as int].1 as nat));
        r.push(line);
        i += 1;
    }
    assert(strings_view(r@) =~= report(entries_view(entries@), reverse));
    r
}

/// Reversing the report gives the forward report read from its last line to
/// its first: the same lines, mirrored, with no other reordering.
pub proof fn lemma_reverse_mirrors(e: Seq<(Seq<char>, nat)>)
    ensures
        report(e, true) == report(e, false).reverse(),
        report(e, true).len() == e.len(),
{
}

/// `lines` is the report on the commands `cmds`: one line per distinct
/// command, ranked by count, mirrored where `reverse` is set.
pub open spec fn is_report(cmds: Seq<Seq<char>>, lines: Seq<Seq<char>>, reverse: bool) -> bool {
    exists|e: Seq<(Seq<char>, nat)>| is_ranking(cmds, e) && lines == report(e, reverse)
}

/// The reverse-mode report on some commands is their forward report read
/// backwards, line for line, and not a fresh ordering by ascending count.
pub proof fn lemma_reversed_report_mirrors_forward(
    cmds: Seq<Seq<char>>,
    forward: Seq<Seq<char>>,
    reversed: Seq<Seq<char>>,
)
    requires
        is_report(cmds, forward, false),
        is_report(cmds, reversed, true),
    ensures
        reversed == forward.reverse(),
{
    let e1 = choose|e: Seq<(Seq<char>, nat)>| is_ranking(cmds, e) && forward == report(e, false);
    let e2 = choose|e: Seq<(Seq<char>, nat)>| is_ranking(cmds, e) && reversed == report(e, true);
    lemma_ranking_unique(cmds, e1, e2);
    lemma_reverse_mirrors(e1);
}

/// A report on some commands has one line for each distinct command.
pub proof fn lemma_report_has_a_line_per_command(
    cmds: Seq<Seq<char>>,
    lines: Seq<Seq<char>>,
    reverse: bool,
)
    requires
        is_report(cmds, lines, reverse),
    ensures
        lines.len() == cmds.to_set().len(),
{
    let e = choose|e: Seq<(Seq<char>, nat)>| is_ranking(cmds, e) && lines == report(e, reverse);
    lemma_ranking_accounts_for_every_command(cmds, e);
}

} // verus!
