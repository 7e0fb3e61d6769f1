//! Character-level helpers: searching a character buffer for a pattern and
//! building strings out of pieces of it.
use vstd::prelude::*;
use vstd::std_specs::iter::IteratorSpec;

verus! {

/// The strings of `v`, each seen as its characters.
pub open spec fn strings_view(v: Seq<String>) -> Seq<Seq<char>> {
    v.map_values(|s: String| s@)
}

/// `pat` stands in `s` starting at index `i`.
pub open spec fn occurs_at(s: Seq<char>, pat: Seq<char>, i: int) -> bool {
    0 <= i && i + pat.len() <= s.len() && s.subrange(i, i + pat.len()) == pat
}

/// The index of the leftmost occurrence of `pat` in `s`, if there is one.
#[verifier::opaque]
pub open spec fn first_occurrence(s: Seq<char>, pat: Seq<char>) -> Option<int> {
    if exists|i: int| occurs_at(s, pat, i) {
        Some(
            choose|i: int|
                occurs_at(s, pat, i) && forall|j: int| 0 <= j < i ==> !occurs_at(s, pat, j),
        )
    } else {
        None
    }
}

/// An occurrence with none before it is the leftmost one.
pub proof fn lemma_first_occurrence_at(s: Seq<char>, pat: Seq<char>, k: int)
    requires
        occurs_at(s, pat, k),
        forall|j: int| 0 <= j < k ==> !occurs_at(s, pat, j),
    ensures
        first_occurrence(s, pat) == Some(k),
{
    reveal(first_occurrence);
    let i = choose|i: int|
        occurs_at(s, pat, i) && forall|j: int| 0 <= j < i ==> !occurs_at(s, pat, j);
    if i < k {
        assert(!occurs_at(s, pat, i));
    }
    if k < i {
        assert(!occurs_at(s, pat, k));
    }
}

/// Where `pat` stands at `k`, it has a leftmost occurrence.
proof fn lemma_leftmost_exists(s: Seq<char>, pat: Seq<char>, k: int)
    requires
        occurs_at(s, pat, k),
    ensures
        exists|i: int| occurs_at(s, pat, i) && forall|j: int| 0 <= j < i ==> !occurs_at(s, pat, j),
    decreases k,
{
    if exists|j: int| 0 <= j < k && occurs_at(s, pat, j) {
        let j = choose|j: int| 0 <= j < k && occurs_at(s, pat, j);
        lemma_leftmost_exists(s, pat, j);
    }
}

/// What the leftmost occurrence is, in terms of `occurs_at`.
pub proof fn lemma_first_occurrence(s: Seq<char>, pat: Seq<char>)
    ensures
        match first_occurrence(s, pat) {
            Some(k) => occurs_at(s, pat, k) && forall|j: int| 0 <= j < k ==> !occurs_at(s, pat, j),
            None => forall|j: int| !occurs_at(s, pat, j),
        },
{
    reveal(first_occurrence);
    if exists|i: int| occurs_at(s, pat, i) {
        let i = choose|i: int| occurs_at(s, pat, i);
        lemma_leftmost_exists(s, pat, i);
    }
}

/// Relies on `String::push`: appends one character at the end.
#[verifier::external_body]
pub(crate) fn push_char(s: &mut String, c: char)
    ensures
        final(s)@ == old(s)@.push(c),
{
    s.push(c)
}

/// The characters of `s`, in order.
pub fn chars_of(s: &str) -> (r: Vec<char>)
    ensures
        r@ == s@,
{
    let mut r: Vec<char> = Vec::new();
    for c in it: s.chars()
        invariant
            it.seq() == s@,
            r@ == s@.subrange(0, it.index() as int),
    {
        r.push(c);
    }
    r
}

/// The characters `t[lo..hi]` as a string.
pub fn string_of(t: &Vec<char>, lo: usize, hi: usize) -> (r: String)
    requires
        lo <= hi <= t.len(),
    ensures
        r@ == t@.subrange(lo as int, hi as int),
{
    let mut r = String::new();
    let mut i: usize = lo;
    while i < hi
        invariant
            lo <= i <= hi <= t.len(),
            r@ == t@.subrange(lo as int, i as int),
        decreases hi - i,
    {
        push_char(&mut r, t[i]);
        assert(t@.subrange(lo as int, i + 1) =~= t@.subrange(lo as int, i as int).push(t@[i as int]));
        i += 1;
    }
    r
}

/// Whether `pat` stands in `t` at index `i`.
pub fn matches_at(t: &Vec<char>, i: usize, pat: &Vec<char>) -> (r: bool)
    requires
        i + pat.len() <= t.len(),
    ensures
        r == (t@.subrange(i as int, i + pat.len()) == pat@),
{
    let mut k: usize = 0;
    while k < pat.len()
        invariant
            k <= pat.len(),
            i + pat.len() <= t.len(),
            forall|j: int| 0 <= j < k ==> t@[i + j] == pat@[j],
        decreases pat.len() - k,
    {
        if t[i + k] != pat[k] {
            assert(t@.subrange(i as int, i + pat.len())[k as int] != pat@[k as int]);
            return false;
        }
        k += 1;
    }
    assert(t@.subrange(i as int, i + pat.len()) =~= pat@);
    true
}

/// The leftmost occurrence of `pat` within `t[lo..hi]`, as an index into `t`.
pub fn find_in(t: &Vec<char>, lo: usize, hi: usize, pat: &Vec<char>) -> (r: Option<usize>)
    requires
        lo <= hi <= t.len(),
    ensures
        match r {
            Some(k) => lo <= k && first_occurrence(t@.subrange(lo as int, hi as int), pat@) == Some(
                k - lo,
            ),
            None => first_occurrence(t@.subrange(lo as int, hi as int), pat@) is None,
        },
{
    let ghost sub = t@.subrange(lo as int, hi as int);
    let mut i: usize = lo;
    while i <= hi && pat.len() <= hi - i
        invariant
            lo <= i,
            lo <= hi <= t.len(),
            sub == t@.subrange(lo as int, hi as int),
            forall|j: int| 0 <= j < i - lo ==> !occurs_at(sub, pat@, j),
        decreases hi + 1 - i,
    {
        let found = matches_at(t, i, pat);
        assert(sub.subrange(i - lo, i - lo + pat.len()) =~= t@.subrange(i as int, i + pat.len()));
        if pat.len() == 0 {
            assert(t@.subrange(i as int, i as int) =~= pat@);
        }
        if found {
            proof {
                lemma_first_occurrence_at(sub, pat@, i - lo);
            }
            return Some(i);
        }
        i += 1;
    }
    assert forall|j: int| !occurs_at(sub, pat@, j) by {
        if 0 <= j && j >= i - lo {
            assert(j + pat.len() > sub.len());
        }
    }
    proof {
        reveal(first_occurrence);
    }
    None
}

/// Appends the characters of `t` to `s`.
pub fn push_str(s: &mut String, t: &str)
    ensures
        final(s)@ == old(s)@ + t@,
{
    let chars = chars_of(t);
    let mut i: usize = 0;
    while i < chars.len()
        invariant
            i <= chars.len(),
            chars@ == t@,
            s@ == old(s)@ + chars@.subrange(0, i as int),
        decreases chars.len() - i,
    {
        push_char(s, chars[i]);
        assert(chars@.subrange(0, i + 1) =~= chars@.subrange(0, i as int).push(chars@[i as int]));
        assert(s@ =~= old(s)@ + chars@.subrange(0, i + 1));
        i += 1;
    }
    assert(chars@.subrange(0, i as int) =~= t@);
}

/// Whether `a` and `b` hold the same characters.
pub fn same_chars(a: &str, b: &str) -> (r: bool)
    ensures
        r == (a@ == b@),
{
    let x = chars_of(a);
    let y = chars_of(b);
    if x.len() != y.len() {
        return false;
    }
    let mut i: usize = 0;
    while i < x.len()
        invariant
            i <= x.len() == y.len(),
            x@ == a@,
            y@ == b@,
            forall|k: int| 0 <= k < i ==> x@[k] == y@[k],
        decreases x.len() - i,
    {
        if x[i] != y[i] {
            return false;
        }
        i += 1;
    }
    assert(x@ =~= y@);
    true
}

} // verus!
