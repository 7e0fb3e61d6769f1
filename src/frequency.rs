//! Counting how often each command was run, and ranking the commands by that count.
use vstd::prelude::*;
use crate::text::strings_view;

verus! {

broadcast use vstd::seq_lib::group_seq_properties;

/// How many times `c` occurs in `s`.
pub open spec fn count_in(s: Seq<Seq<char>>, c: Seq<char>) -> nat
    decreases s.len(),
{
    if s.len() == 0 {
        0
    } else {
        count_in(s.drop_last(), c) + if s.last() == c {
            1nat
        } else {
            0nat
        }
    }
}

/// The distinct elements of `s`, in the order in which each first occurs.
pub open spec fn distinct(s: Seq<Seq<char>>) -> Seq<Seq<char>>
    decreases s.len(),
{
    if s.len() == 0 {
        Seq::empty()
    } else {
        let d = distinct(s.drop_last());
        if d.contains(s.last()) {
            d
        } else {
            d.push(s.last())
        }
    }
}

/// Each distinct command of `s` with the number of times it occurs, in the
/// order in which the commands first occur.
pub open spec fn frequency_table(s: Seq<Seq<char>>) -> Seq<(Seq<char>, nat)> {
    distinct(s).map_values(|k: Seq<char>| (k, count_in(s, k)))
}

/// Entries of commands and counts, seen as character sequences and naturals.
pub open spec fn entries_view(v: Seq<(String, usize)>) -> Seq<(Seq<char>, nat)> {
    v.map_values(|e: (String, usize)| (e.0@, e.1 as nat))
}

/// The sum of the counts of `e`.
pub open spec fn total(e: Seq<(Seq<char>, nat)>) -> nat
    decreases e.len(),
{
    if e.len() == 0 {
        0
    } else {
        total(e.drop_last()) + e.last().1
    }
}

/// A command is among the distinct ones exactly when it occurs.
pub proof fn lemma_distinct_contains(s: Seq<Seq<char>>, c: Seq<char>)
    ensures
        distinct(s).contains(c) <==> s.contains(c),
    decreases s.len(),
{
    if s.len() > 0 {
        lemma_distinct_contains(s.drop_last(), c);
        assert(s =~= s.drop_last().push(s.last()));
        if s.drop_last().contains(c) {
            let i = choose|i: int| 0 <= i < s.drop_last().len() && s.drop_last()[i] == c;
            assert(s[i] == c);
        }
        if s.contains(c) && c != s.last() {
            let i = choose|i: int| 0 <= i < s.len() && s[i] == c;
            assert(s.drop_last()[i] == c);
        }
    }
}

pub proof fn lemma_distinct_no_duplicates(s: Seq<Seq<char>>)
    ensures
        distinct(s).no_duplicates(),
    decreases s.len(),
{
    if s.len() > 0 {
        lemma_distinct_no_duplicates(s.drop_last());
    }
}

/// A command that does not occur has count zero.
pub proof fn lemma_count_absent(s: Seq<Seq<char>>, c: Seq<char>)
    requires
        !s.contains(c),
    ensures
        count_in(s, c) == 0,
    decreases s.len(),
{
    if s.len() > 0 {
        assert(!s.drop_last().contains(c)) by {
            if s.drop_last().contains(c) {
                let i = choose|i: int| 0 <= i < s.drop_last().len() && s.drop_last()[i] == c;
                assert(s[i] == c);
            }
        }
        lemma_count_absent(s.drop_last(), c);
    }
}

/// One more occurrence of `x` in `s`: the table of `s.push(x)` from that of `s`.
pub proof fn lemma_frequency_table_push(s: Seq<Seq<char>>, x: Seq<char>)
    ensures
        ({
            let t = frequency_table(s);
            let t2 = frequency_table(s.push(x));
            if distinct(s).contains(x) {
                exists|j: int|
                    0 <= j < t.len() && t[j].0 == x && t2 == t.update(j, (x, t[j].1 + 1))
            } else {
                t2 == t.push((x, 1nat))
            }
        }),
{
    let s2 = s.push(x);
    assert(s2.drop_last() =~= s);
    let d = distinct(s);
    let t = frequency_table(s);
    let t2 = frequency_table(s2);
    assert forall|k: Seq<char>| #[trigger] count_in(s2, k) == count_in(s, k) + if k == x {
        1nat
    } else {
        0nat
    } by {}
    if d.contains(x) {
        let j = choose|j: int| 0 <= j < d.len() && d[j] == x;
        lemma_distinct_no_duplicates(s);
        assert(distinct(s2) == d);
        assert(t2 =~= t.update(j, (x, t[j].1 + 1)));
    } else {
        lemma_distinct_contains(s, x);
        lemma_count_absent(s, x);
        assert(t2 =~= t.push((x, 1nat)));
    }
}

/// The frequency table of `commands`: each distinct command with the number of
/// times it occurs, in the order in which the commands first occur.
pub fn tally(commands: &Vec<String>) -> (r: Vec<(String, usize)>)
    ensures
        entries_view(r@) == frequency_table(strings_view(commands@)),
{
    let ghost cmds = strings_view(commands@);
    let mut table: Vec<(String, usize)> = Vec::new();
    let mut i: usize = 0;
    assert(cmds.subrange(0, 0) =~= Seq::<Seq<char>>::empty());
    assert(entries_view(table@) =~= frequency_table(cmds.subrange(0, 0)));
    while i < commands.len()
        invariant
            i <= commands.len(),
            cmds == strings_view(commands@),
            entries_view(table@) == frequency_table(cmds.subrange(0, i as int)),
            forall|k: int| 0 <= k < table.len() ==> table@[k].1 <= i,
        decreases commands.len() - i,
    {
        let ghost s = cmds.subrange(0, i as int);
        let ghost x = commands@[i as int]@;
        assert(cmds.subrange(0, i + 1) =~= s.push(x));
        proof {
            lemma_frequency_table_push(s, x);
        }
        let mut j: usize = 0;
        while j < table.len()
            invariant
                j <= table.len(),
                forall|k: int| 0 <= k < j ==> table@[k].0@ != x,
                x == commands@[i as int]@,
                i < commands.len(),
                entries_view(table@) == frequency_table(s),
            ensures
                j <= table.len(),
                forall|k: int| 0 <= k < j ==> table@[k].0@ != x,
                j < table.len() ==> table@[j as int].0@ == x,
            decreases table.len() - j,
        {
            if table[j].0 == commands[i] {
                break;
            }
            j += 1;
        }
        let ghost before = table@;
        if j < table.len() {
            assert(entries_view(before)[j as int].0 == x);
            assert(entries_view(before).len() == before.len());
            assert(frequency_table(s).len() == distinct(s).len());
            assert(distinct(s)[j as int] == x);
            let name = table[j].0.clone();
            let n = table[j].1 + 1;
            table.set(j, (name, n));
            proof {
                let t = frequency_table(s);
                let jj = choose|jj: int|
                    0 <= jj < t.len() && t[jj].0 == x && frequency_table(s.push(x)) == t.update(
                        jj,
                        (x, t[jj].1 + 1),
                    );
                lemma_distinct_no_duplicates(s);
                assert(distinct(s)[jj] == distinct(s)[j as int]);
                assert(entries_view(table@) =~= t.update(jj, (x, t[jj].1 + 1)));
            }
        } else {
            assert(!distinct(s).contains(x)) by {
                if distinct(s).contains(x) {
                    let k = choose|k: int| 0 <= k < distinct(s).len() && distinct(s)[k] == x;
                    assert(entries_view(before)[k].0 == x);
                }
            }
            table.push((commands[i].clone(), 1));
            assert(entries_view(table@) =~= entries_view(before).push((x, 1nat)));
        }
        i += 1;
    }
    assert(cmds.subrange(0, i as int) =~= cmds);
    table
}

/// The counts of `e` never increase from one entry to the next.
pub open spec fn sorted_by_count(e: Seq<(Seq<char>, nat)>) -> bool {
    forall|i: int, j: int| 0 <= i < j < e.len() ==> e[i].1 >= e[j].1
}

/// Whether an entry has count `n`.
pub open spec fn has_count(n: nat) -> spec_fn((Seq<char>, nat)) -> bool {
    |x: (Seq<char>, nat)| x.1 == n
}

/// The entries of `e` whose count is `n`, in their order in `e`.
pub open spec fn with_count(e: Seq<(Seq<char>, nat)>, n: nat) -> Seq<(Seq<char>, nat)> {
    e.filter(has_count(n))
}

pub proof fn lemma_total_add(a: Seq<(Seq<char>, nat)>, b: Seq<(Seq<char>, nat)>)
    ensures
        total(a + b) == total(a) + total(b),
    decreases b.len(),
{
    if b.len() > 0 {
        assert((a + b).drop_last() =~= a + b.drop_last());
        lemma_total_add(a, b.drop_last());
    }
}

/// Inserting `x` before the first entry of `r` whose count is below that of `x`
/// keeps `r` sorted, adds `x` to the entries of its count, and adds its count
/// to the total.
proof fn lemma_insert_by_count(r: Seq<(Seq<char>, nat)>, p: int, x: (Seq<char>, nat))
    requires
        sorted_by_count(r),
        0 <= p <= r.len(),
        forall|k: int| 0 <= k < p ==> r[k].1 >= x.1,
        p < r.len() ==> r[p].1 < x.1,
    ensures
        sorted_by_count(r.insert(p, x)),
        forall|n: nat| #[trigger]
            with_count(r.insert(p, x), n) == if n == x.1 {
                with_count(r, n).push(x)
            } else {
                with_count(r, n)
            },
        total(r.insert(p, x)) == total(r) + x.1,
{
    let a = r.subrange(0, p);
    let b = r.subrange(p, r.len() as int);
    let r2 = r.insert(p, x);
    assert(r2 =~= a + seq![x] + b);
    assert(r =~= a + b);
    assert forall|k: int| 0 <= k < b.len() implies b[k].1 < x.1 by {
        assert(r[p].1 >= r[p + k].1);
    }
    assert forall|n: nat| #[trigger]
        with_count(r2, n) == if n == x.1 {
            with_count(r, n).push(x)
        } else {
            with_count(r, n)
        } by {
        let f = has_count(n);
        Seq::filter_distributes_over_add(a + seq![x], b, f);
        Seq::filter_distributes_over_add(a, seq![x], f);
        Seq::filter_distributes_over_add(a, b, f);
        assert(seq![x].filter(f) =~= if n == x.1 {
            seq![x]
        } else {
            Seq::empty()
        }) by {
            reveal_with_fuel(Seq::filter, 2);
        }
        if n == x.1 {
            assert(b.filter(f) =~= Seq::empty()) by {
                b.lemma_all_neg_filter_empty(f);
            }
        }
    }
    lemma_total_add(a + seq![x], b);
    lemma_total_add(a, seq![x]);
    lemma_total_add(a, b);
    assert(total(seq![x]) == x.1) by {
        assert(seq![x].drop_last() =~= Seq::<(Seq<char>, nat)>::empty());
        assert(total(Seq::<(Seq<char>, nat)>::empty()) == 0);
    }
}

/// `table` ordered by count, highest first; entries of equal count keep their
/// order in `table`.
pub fn sort_by_count(table: &Vec<(String, usize)>) -> (r: Vec<(String, usize)>)
    ensures
        r.len() == table.len(),
        sorted_by_count(entries_view(r@)),
        forall|n: nat| #[trigger]
            with_count(entries_view(r@), n) == with_count(entries_view(table@), n),
        total(entries_view(r@)) == total(entries_view(table@)),
{
    let ghost t = entries_view(table@);
    let mut r: Vec<(String, usize)> = Vec::new();
    let mut i: usize = 0;
    assert(t.subrange(0, 0) =~= Seq::<(Seq<char>, nat)>::empty());
    while i < table.len()
        invariant
            i <= table.len(),
            t == entries_view(table@),
            r.len() == i,
            sorted_by_count(entries_view(r@)),
            forall|n: nat| #[trigger]
                with_count(entries_view(r@), n) == with_count(t.subrange(0, i as int), n),
            total(entries_view(r@)) == total(t.subrange(0, i as int)),
        decreases table.len() - i,
    {
        let count = table[i].1;
        let mut p: usize = 0;
        while p < r.len() && r[p].1 >= count
            invariant
                p <= r.len(),
                forall|k: int| 0 <= k < p ==> r@[k].1 >= count,
            decreases r.len() - p,
        {
            p += 1;
        }
        let ghost before = entries_view(r@);
        let ghost x = t[i as int];
        assert(x == (table@[i as int].0@, count as nat));
        proof {
            lemma_insert_by_count(before, p as int, x);
        }
        r.insert(p, (table[i].0.clone(), count));
        assert(entries_view(r@) =~= before.insert(p as int, x));
        assert(t.subrange(0, i + 1) =~= t.subrange(0, i as int).push(x));
        assert forall|n: nat| #[trigger]
            with_count(entries_view(r@), n) == with_count(t.subrange(0, i + 1), n) by {
            t.subrange(0, i as int).lemma_filter_push(x, has_count(n));
        }
        assert(t.subrange(0, i + 1).drop_last() =~= t.subrange(0, i as int));
        i += 1;
    }
    assert(t.subrange(0, i as int) =~= t);
    r
}

/// What a ranking of `cmds` is: the frequency table of `cmds` ordered by
/// count, highest first, with entries of equal count in the order in which
/// their commands first occur.
pub open spec fn is_ranking(cmds: Seq<Seq<char>>, r: Seq<(Seq<char>, nat)>) -> bool {
    &&& r.len() == frequency_table(cmds).len()
    &&& sorted_by_count(r)
    &&& forall|n: nat| #[trigger] with_count(r, n) == with_count(frequency_table(cmds), n)
    &&& total(r) == total(frequency_table(cmds))
}

proof fn lemma_total_update(t: Seq<(Seq<char>, nat)>, j: int, e: (Seq<char>, nat))
    requires
        0 <= j < t.len(),
    ensures
        total(t.update(j, e)) + t[j].1 == total(t) + e.1,
    decreases t.len(),
{
    if j < t.len() - 1 {
        assert(t.update(j, e).drop_last() =~= t.drop_last().update(j, e));
        lemma_total_update(t.drop_last(), j, e);
    } else {
        assert(t.update(j, e).drop_last() =~= t.drop_last());
    }
}

/// The counts of the frequency table add up to the number of commands.
pub proof fn lemma_table_total(s: Seq<Seq<char>>)
    ensures
        total(frequency_table(s)) == s.len(),
    decreases s.len(),
{
    if s.len() > 0 {
        let x = s.last();
        let s0 = s.drop_last();
        assert(s0.push(x) =~= s);
        lemma_table_total(s0);
        lemma_frequency_table_push(s0, x);
        let t = frequency_table(s0);
        if distinct(s0).contains(x) {
            let j = choose|j: int|
                0 <= j < t.len() && t[j].0 == x && frequency_table(s0.push(x)) == t.update(
                    j,
                    (x, t[j].1 + 1),
                );
            lemma_total_update(t, j, (x, t[j].1 + 1));
        } else {
            assert(t.push((x, 1nat)).drop_last() =~= t);
        }
    }
}

/// The table has one entry for each distinct command.
pub proof fn lemma_table_len(s: Seq<Seq<char>>)
    ensures
        frequency_table(s).len() == s.to_set().len(),
{
    lemma_distinct_no_duplicates(s);
    distinct(s).unique_seq_to_set();
    assert forall|c: Seq<char>| distinct(s).to_set().contains(c) == s.to_set().contains(c) by {
        lemma_distinct_contains(s, c);
    }
    assert(distinct(s).to_set() =~= s.to_set());
}

/// A ranking of `cmds` has one entry for each distinct command, and its counts
/// add up to the number of commands.
pub proof fn lemma_ranking_accounts_for_every_command(
    cmds: Seq<Seq<char>>,
    r: Seq<(Seq<char>, nat)>,
)
    requires
        is_ranking(cmds, r),
    ensures
        r.len() == cmds.to_set().len(),
        total(r) == cmds.len(),
{
    lemma_table_len(cmds);
    lemma_table_total(cmds);
}

proof fn lemma_with_count_push(e: Seq<(Seq<char>, nat)>, x: (Seq<char>, nat), n: nat)
    ensures
        with_count(e.push(x), n) == if x.1 == n {
            with_count(e, n).push(x)
        } else {
            with_count(e, n)
        },
{
    e.lemma_filter_push(x, has_count(n));
}

/// Two sequences sorted by count, with the same entries of each count in the
/// same order, are equal.
pub proof fn lemma_sorted_by_count_unique(e1: Seq<(Seq<char>, nat)>, e2: Seq<(Seq<char>, nat)>)
    requires
        sorted_by_count(e1),
        sorted_by_count(e2),
        forall|n: nat| #[trigger] with_count(e1, n) == with_count(e2, n),
    ensures
        e1 == e2,
    decreases e1.len() + e2.len(),
{
    if e1.len() == 0 && e2.len() == 0 {
        assert(e1 =~= e2);
    } else if e1.len() == 0 || e2.len() == 0 {
        let (a, b) = if e1.len() == 0 {
            (e2, e1)
        } else {
            (e1, e2)
        };
        let n = a[0].1;
        a.lemma_filter_contains(has_count(n), 0);
        assert(with_count(a, n).contains(a[0]));
        assert(b =~= Seq::<(Seq<char>, nat)>::empty());
        assert(with_count(b, n) =~= Seq::<(Seq<char>, nat)>::empty());
        assert(with_count(a, n) == with_count(b, n));
    } else {
        let x1 = e1.last();
        let x2 = e2.last();
        let d1 = e1.drop_last();
        let d2 = e2.drop_last();
        assert(e1 =~= d1.push(x1));
        assert(e2 =~= d2.push(x2));
        // The smallest count of each is the count of its last entry, and the
        // entries of that count agree, so the two smallest counts agree.
        assert forall|a: Seq<(Seq<char>, nat)>, m: nat|
            sorted_by_count(a) && a.len() > 0 && #[trigger] with_count(a, m).len() > 0 implies a.last().1
            <= m by {
            let f = has_count(m);
            a.lemma_filter_pred(f, 0);
            let w = with_count(a, m)[0];
            assert(w.1 == m);
            assert(a.filter(f).contains(w));
            a.lemma_filter_contains_rev(f, w);
            assert(a.contains(w));
            let k = choose|k: int| 0 <= k < a.len() && a[k] == w;
            assert(a[k].1 >= a[a.len() - 1].1);
        }
        lemma_with_count_push(d1, x1, x1.1);
        lemma_with_count_push(d2, x2, x2.1);
        assert(with_count(e2, x1.1).len() > 0);
        assert(with_count(e1, x2.1).len() > 0);
        assert(x1.1 == x2.1);
        let c = x1.1;
        assert(with_count(e1, c).last() == x1);
        assert(with_count(e2, c).last() == x2);
        assert forall|n: nat| #[trigger] with_count(d1, n) == with_count(d2, n) by {
            lemma_with_count_push(d1, x1, n);
            lemma_with_count_push(d2, x2, n);
            if n == c {
                assert(with_count(d1, n) =~= with_count(e1, n).drop_last());
                assert(with_count(d2, n) =~= with_count(e2, n).drop_last());
            }
        }
        lemma_sorted_by_count_unique(d1, d2);
    }
}

/// A sequence of commands has exactly one ranking.
pub proof fn lemma_ranking_unique(
    cmds: Seq<Seq<char>>,
    r1: Seq<(Seq<char>, nat)>,
    r2: Seq<(Seq<char>, nat)>,
)
    requires
        is_ranking(cmds, r1),
        is_ranking(cmds, r2),
    ensures
        r1 == r2,
{
    lemma_sorted_by_count_unique(r1, r2);
}

/// The commands of `commands` with the number of times each was run, ordered
/// by that number, highest first; commands run equally often stand in the
/// order in which they first occur.
pub fn rank_commands(commands: &Vec<String>) -> (r: Vec<(String, usize)>)
    ensures
        is_ranking(strings_view(commands@), entries_view(r@)),
{
    let table = tally(commands);
    let r = sort_by_count(&table);
    assert(entries_view(r@).len() == r.len());
    assert(entries_view(table@).len() == table.len());
    r
}

} // verus!
