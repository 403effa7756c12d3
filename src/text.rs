use vstd::prelude::*;
#[allow(unused_imports)]
use vstd::std_specs::iter::IteratorSpec;

verus! {

broadcast use vstd::string::axiom_spec_iter, vstd::string::next_postcondition;

/// The characters of `s`, one by one.
pub fn chars_of(s: &str) -> (v: Vec<char>)
    ensures
        v@ == s@,
{
    let mut v: Vec<char> = Vec::new();
    let mut it = s.chars();
    loop
        invariant
            it.remaining() == s@.skip(v.len() as int),
            v@ == s@.take(v.len() as int),
            v.len() <= s@.len(),
        ensures
            v@ == s@,
        decreases s@.len() - v.len(),
    {
        match it.next() {
            Some(c) => {
                assert(s@.skip(v.len() as int).drop_first() =~= s@.skip(v.len() + 1));
                assert(s@.take(v.len() as int).push(c) =~= s@.take(v.len() + 1));
                v.push(c);
            },
            None => {
                assert(s@.take(v.len() as int) =~= s@);
                break ;
            },
        }
    }
    v
}

/// Relies on `String`'s `FromIterator<char>`: the string holds the
/// characters in order.
#[verifier::external_body]
pub(crate) fn string_from_chars(v: &Vec<char>) -> (s: String)
    ensures
        s@ == v@,
{
    v.iter().collect()
}

/// The text that remains after skipping the first `k` lines of `t`, where a
/// line ends at a `'\n'`. When `t` has fewer than `k` line breaks the result
/// is empty.
pub open spec fn drop_lines(t: Seq<char>, k: nat) -> Seq<char>
    decreases t.len(),
{
    if k == 0 || t.len() == 0 {
        t
    } else if t[0] == '\n' {
        drop_lines(t.drop_first(), (k - 1) as nat)
    } else {
        drop_lines(t.drop_first(), k)
    }
}

/// The first `k` lines of `t`, line breaks included.
pub open spec fn take_lines(t: Seq<char>, k: nat) -> Seq<char> {
    t.take(t.len() - drop_lines(t, k).len())
}

/// The index in `t` at which line `k + 1` starts, or the length of `t` when
/// `t` has fewer than `k + 1` lines.
pub open spec fn line_start(t: Seq<char>, k: nat) -> int {
    t.len() - drop_lines(t, k).len()
}

/// Skipping lines leaves a suffix of the text.
pub proof fn lemma_drop_lines_suffix(t: Seq<char>, k: nat)
    ensures
        drop_lines(t, k).len() <= t.len(),
        drop_lines(t, k) == t.skip(line_start(t, k)),
    decreases t.len(),
{
    if k == 0 || t.len() == 0 {
        assert(t.skip(0) =~= t);
    } else if t[0] == '\n' {
        lemma_drop_lines_suffix(t.drop_first(), (k - 1) as nat);
        assert(t.drop_first().skip(line_start(t.drop_first(), (k - 1) as nat)) =~= t.skip(
            line_start(t, k),
        ));
    } else {
        lemma_drop_lines_suffix(t.drop_first(), k);
        assert(t.drop_first().skip(line_start(t.drop_first(), k)) =~= t.skip(line_start(t, k)));
    }
}

/// Skipping `a` lines and then `b` more skips `a + b` lines.
pub proof fn lemma_drop_lines_add(t: Seq<char>, a: nat, b: nat)
    ensures
        drop_lines(drop_lines(t, a), b) == drop_lines(t, a + b),
    decreases t.len(),
{
    if a == 0 {
    } else if t.len() == 0 {
        assert(drop_lines(t, b) == t);
        assert(drop_lines(t, a + b) == t);
    } else if t[0] == '\n' {
        lemma_drop_lines_add(t.drop_first(), (a - 1) as nat, b);
        assert((a - 1) as nat + b == (a + b - 1) as nat);
    } else {
        lemma_drop_lines_add(t.drop_first(), a, b);
    }
}

/// Skipping more lines never leaves more text.
pub proof fn lemma_line_start_monotonic(t: Seq<char>, a: nat, b: nat)
    requires
        a <= b,
    ensures
        line_start(t, a) <= line_start(t, b),
{
    lemma_drop_lines_add(t, a, (b - a) as nat);
    lemma_drop_lines_suffix(drop_lines(t, a), (b - a) as nat);
}

/// The lines taken from the remainder after line `a` are the original text
/// between the starts of lines `a + 1` and `a + b + 1`.
pub proof fn lemma_take_lines_of_rest(t: Seq<char>, a: nat, b: nat)
    ensures
        take_lines(drop_lines(t, a), b) == t.subrange(line_start(t, a), line_start(t, a + b)),
        drop_lines(drop_lines(t, a), b) == t.skip(line_start(t, a + b)),
{
    lemma_drop_lines_add(t, a, b);
    lemma_drop_lines_suffix(t, a);
    lemma_drop_lines_suffix(t, a + b);
    lemma_line_start_monotonic(t, a, a + b);
    let r = drop_lines(t, a);
    assert(take_lines(r, b) =~= t.subrange(line_start(t, a), line_start(t, a + b)));
}

/// The index of the first `'\n'` in `r`, or its length when it has none.
pub open spec fn newline_index(r: Seq<char>) -> nat
    decreases r.len(),
{
    if r.len() == 0 || r[0] == '\n' {
        0
    } else {
        1 + newline_index(r.drop_first())
    }
}

/// The first line of `r` as `str::lines` yields it: up to the first `'\n'`,
/// without a `'\r'` right before that `'\n'`.
pub open spec fn line_text(r: Seq<char>) -> Seq<char> {
    let e = newline_index(r);
    if e < r.len() && e > 0 && r[e - 1] == '\r' {
        r.take(e - 1)
    } else {
        r.take(e as int)
    }
}

/// Whether `t` has a line with 0-based index `j`.
pub open spec fn has_line(t: Seq<char>, j: int) -> bool {
    j >= 0 && drop_lines(t, j as nat).len() > 0
}

/// The line of `t` with 0-based index `j`, empty past the last line.
pub open spec fn line_at(t: Seq<char>, j: int) -> Seq<char> {
    line_text(drop_lines(t, j as nat))
}

/// Where the first line break of `r` is, and what follows it.
pub proof fn lemma_first_line(r: Seq<char>, e: int)
    requires
        0 <= e <= r.len(),
        forall|m: int| 0 <= m < e ==> r[m] != '\n',
        e == r.len() || r[e] == '\n',
    ensures
        newline_index(r) == e,
        e < r.len() ==> drop_lines(r, 1) == r.skip(e + 1),
        e == r.len() ==> drop_lines(r, 1).len() == 0,
    decreases r.len(),
{
    if r.len() == 0 {
    } else if r[0] == '\n' {
        assert(drop_lines(r.drop_first(), 0) == r.drop_first());
        assert(r.drop_first() =~= r.skip(1));
    } else {
        assert forall|m: int| 0 <= m < e - 1 implies r.drop_first()[m] != '\n' by {
            assert(r.drop_first()[m] == r[m + 1]);
        }
        lemma_first_line(r.drop_first(), e - 1);
        if e < r.len() {
            assert(r.drop_first().skip(e) =~= r.skip(e + 1));
        }
    }
}

/// Finds the end of the line that starts at `i`: `r.0` is where its text ends
/// (before `"\n"` or `"\r\n"`), `r.1` is where the next line starts.
pub fn line_end(t: &Vec<char>, i: usize) -> (r: (usize, usize))
    requires
        i < t.len(),
    ensures
        i <= r.0 <= t.len(),
        i < r.1 <= t.len(),
        line_text(t@.skip(i as int)) == t@.subrange(i as int, r.0 as int),
        drop_lines(t@.skip(i as int), 1) == t@.skip(r.1 as int),
{
    let n = t.len();
    let mut e = i;
    while e < n && t[e] != '\n'
        invariant
            i <= e <= n,
            n == t.len(),
            forall|m: int| i <= m < e ==> t@[m] != '\n',
        decreases n - e,
    {
        e = e + 1;
    }
    let le = if e < n && e > i && t[e - 1] == '\r' {
        e - 1
    } else {
        e
    };
    let next = if e < n {
        e + 1
    } else {
        n
    };
    proof {
        let r = t@.skip(i as int);
        lemma_first_line(r, e - i);
        assert(line_text(r) =~= t@.subrange(i as int, le as int));
        if e < n {
            assert(r.skip(e - i + 1) =~= t@.skip(e + 1));
        } else {
            assert(drop_lines(r, 1) =~= t@.skip(n as int));
        }
    }
    (le, next)
}

/// A non-empty text loses at least one character when its first line is skipped.
pub proof fn lemma_drop_line_shrinks(r: Seq<char>)
    requires
        r.len() > 0,
    ensures
        drop_lines(r, 1).len() < r.len(),
{
    if r[0] != '\n' {
        lemma_drop_lines_suffix(r.drop_first(), 1);
        assert(drop_lines(r, 1) == drop_lines(r.drop_first(), 1));
    } else {
        assert(drop_lines(r, 1) == drop_lines(r.drop_first(), 0));
    }
}

} // verus!
