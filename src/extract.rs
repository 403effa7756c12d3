use crate::text::{
    chars_of, drop_lines, has_line, lemma_drop_lines_add, line_at, line_end, string_from_chars,
};
use std::ops::Range;
use vstd::prelude::*;

verus! {

/// Which documentation marker a line carries.
#[derive(Clone, Copy, Debug, PartialEq, Eq, Structural)]
pub enum DocKind {
    /// `//!`
    Inner,
    /// `///`
    Outer,
}

/// Describes documentation lines that are formatted together: lines with
/// equal characteristics that follow one another form one chunk.
#[derive(Clone, Copy, Debug, PartialEq, Eq, Structural)]
pub struct Characteristics {
    pub indent: usize,
    pub kind: DocKind,
}

/// A maximal run of consecutive lines with the same characteristics.
#[derive(Debug)]
pub struct Chunk {
    /// 1-based line numbers, end excluded
    pub lines: Range<usize>,
    pub characteristics: Characteristics,
    /// The payload of each line, each followed by `'\n'`
    pub docs: String,
}

/// `char::is_ascii_whitespace`: space, tab, line feed, form feed, carriage return.
pub open spec fn is_ascii_space(c: char) -> bool {
    c == ' ' || c == '\t' || c == '\n' || c == '\x0C' || c == '\r'
}

/// `char::is_whitespace`: the characters with Unicode's `White_Space` property.
pub open spec fn is_white_space(c: char) -> bool {
    let u = c as u32;
    (0x09 <= u <= 0x0D) || u == 0x20 || u == 0x85 || u == 0xA0 || u == 0x1680 || (0x2000 <= u
        <= 0x200A) || u == 0x2028 || u == 0x2029 || u == 0x202F || u == 0x205F || u == 0x3000
}

/// The number of ASCII whitespace characters at the start of `l`.
pub open spec fn indent_of(l: Seq<char>) -> nat
    decreases l.len(),
{
    if l.len() > 0 && is_ascii_space(l[0]) {
        1 + indent_of(l.drop_first())
    } else {
        0
    }
}

/// Whether `l` holds `/`, `/`, `third` at index `k`.
pub open spec fn has_marker(l: Seq<char>, k: int, third: char) -> bool {
    0 <= k && k + 3 <= l.len() && l[k] == '/' && l[k + 1] == '/' && l[k + 2] == third
}

/// The characteristics of a line, or `None` when it is no documentation line.
pub open spec fn line_key(l: Seq<char>) -> Option<Characteristics> {
    let k = indent_of(l);
    if has_marker(l, k as int, '!') {
        Some(Characteristics { indent: k as usize, kind: DocKind::Inner })
    } else if has_marker(l, k as int, '/') {
        Some(Characteristics { indent: k as usize, kind: DocKind::Outer })
    } else {
        None
    }
}

/// Where the payload of a documentation line starts: after the indentation,
/// the marker, and at most one whitespace character.
pub open spec fn payload_start(l: Seq<char>) -> int {
    let p = indent_of(l) + 3int;
    if p < l.len() && is_white_space(l[p]) {
        p + 1
    } else {
        p
    }
}

/// The payload of a documentation line; empty for any other line.
pub open spec fn line_payload(l: Seq<char>) -> Seq<char> {
    if line_key(l) is Some {
        l.skip(payload_start(l))
    } else {
        Seq::empty()
    }
}

/// The characteristics of line `j` (0-based) of `t`.
pub open spec fn key_at(t: Seq<char>, j: int) -> Option<Characteristics> {
    line_key(line_at(t, j))
}

/// The payloads of lines `s` to `e` (0-based, `e` excluded), each followed
/// by `'\n'`.
pub open spec fn payload_text(t: Seq<char>, s: int, e: int) -> Seq<char>
    decreases e - s,
{
    if e <= s {
        Seq::empty()
    } else {
        payload_text(t, s, e - 1) + line_payload(line_at(t, e - 1)) + seq!['\n']
    }
}

/// `c` is a maximal run of lines of `t` with one characteristics, and holds
/// their payloads.
pub open spec fn chunk_matches(t: Seq<char>, c: Chunk) -> bool {
    let s = c.lines.start - 1;
    let e = c.lines.end - 1;
    &&& 1 <= c.lines.start < c.lines.end
    &&& forall|j: int| s <= j < e ==> key_at(t, j) == Some(c.characteristics)
    &&& (s == 0 || key_at(t, s - 1) != Some(c.characteristics))
    &&& key_at(t, e) != Some(c.characteristics)
    &&& c.docs@ == payload_text(t, s, e)
}

/// `chunks` are the chunks of `t`, in order: each a maximal run, and every
/// documentation line in one of them.
pub open spec fn chunks_of(t: Seq<char>, chunks: Seq<Chunk>) -> bool {
    &&& forall|i: int| 0 <= i < chunks.len() ==> chunk_matches(t, #[trigger] chunks[i])
    &&& forall|i: int|
        0 <= i < chunks.len() - 1 ==> #[trigger] chunks[i].lines.end <= chunks[i + 1].lines.start
    &&& forall|j: int|
        j >= 0 && (#[trigger] key_at(t, j)) is Some ==> exists|i: int|
            0 <= i < chunks.len() && (#[trigger] chunks[i]).lines.start <= j + 1 < chunks[i].lines.end
}

/// Ends where the leading ASCII whitespace of `l` ends.
pub proof fn lemma_indent(l: Seq<char>, k: int)
    requires
        0 <= k <= l.len(),
        forall|m: int| 0 <= m < k ==> is_ascii_space(l[m]),
        k == l.len() || !is_ascii_space(l[k]),
    ensures
        indent_of(l) == k,
    decreases l.len(),
{
    if k > 0 {
        assert forall|m: int| 0 <= m < k - 1 implies is_ascii_space(l.drop_first()[m]) by {
            assert(l.drop_first()[m] == l[m + 1]);
        }
        lemma_indent(l.drop_first(), k - 1);
    }
}

/// `char::is_whitespace`
fn is_white_space_char(c: char) -> (r: bool)
    ensures
        r == is_white_space(c),
{
    let u = c as u32;
    (0x09 <= u && u <= 0x0D) || u == 0x20 || u == 0x85 || u == 0xA0 || u == 0x1680 || (0x2000 <= u
        && u <= 0x200A) || u == 0x2028 || u == 0x2029 || u == 0x202F || u == 0x205F || u == 0x3000
}

/// Classifies the line `t[from..to]`; the second component is where its
/// payload starts in `t`.
fn classify(t: &Vec<char>, from: usize, to: usize) -> (r: (Option<Characteristics>, usize))
    requires
        from <= to <= t.len(),
    ensures
        r.0 == line_key(t@.subrange(from as int, to as int)),
        r.0 is Some ==> r.1 == from + payload_start(t@.subrange(from as int, to as int)),
        r.0 is Some ==> r.1 <= to,
{
    let ghost l = t@.subrange(from as int, to as int);
    let mut k: usize = from;
    while k < to && (t[k] == ' ' || t[k] == '\t' || t[k] == '\n' || t[k] == '\x0C' || t[k]
        == '\r')
        invariant
            from <= k <= to <= t.len(),
            l == t@.subrange(from as int, to as int),
            forall|m: int| 0 <= m < k - from ==> is_ascii_space(l[m]),
        decreases to - k,
    {
        k = k + 1;
    }
    proof {
        lemma_indent(l, k - from);
    }
    let kind = if to - k >= 3 && t[k] == '/' && t[k + 1] == '/' && t[k + 2] == '!' {
        DocKind::Inner
    } else if to - k >= 3 && t[k] == '/' && t[k + 1] == '/' && t[k + 2] == '/' {
        DocKind::Outer
    } else {
        return (None, from);
    };
    let p = k + 3;
    let start = if p < to && is_white_space_char(t[p]) {
        p + 1
    } else {
        p
    };
    (Some(Characteristics { indent: k - from, kind }), start)
}

/// Splits a line into its characteristics and its payload: the text after the
/// indentation, the marker and at most one whitespace character. A line
/// without a marker has no characteristics and an empty payload.
pub fn preprocess_line(line: &str) -> (r: (Option<Characteristics>, &str))
    ensures
        r.0 == line_key(line@),
        r.1@ == line_payload(line@),
{
    let v = chars_of(line);
    assert(v@.subrange(0, v@.len() as int) =~= line@);
    let (key, p) = classify(&v, 0, v.len());
    match key {
        Some(_) => (key, line.substring_char(p, v.len())),
        None => {
            proof {
                reveal_strlit("");
            }
            (None, "")
        },
    }
}

fn same_key(a: Option<Characteristics>, b: Option<Characteristics>) -> (r: bool)
    ensures
        r == (a == b),
{
    match (a, b) {
        (Some(x), Some(y)) => x == y,
        (None, None) => true,
        _ => false,
    }
}

fn push_range(v: &mut Vec<char>, t: &Vec<char>, from: usize, to: usize)
    requires
        from <= to <= t.len(),
    ensures
        final(v)@ == old(v)@ + t@.subrange(from as int, to as int),
{
    let mut k = from;
    while k < to
        invariant
            from <= k <= to <= t.len(),
            v@ == old(v)@ + t@.subrange(from as int, k as int),
        decreases to - k,
    {
        v.push(t[k]);
        assert(t@.subrange(from as int, k + 1) =~= t@.subrange(from as int, k as int).push(t@[k as int]));
        k = k + 1;
    }
}

/// A documentation line exists.
pub proof fn lemma_key_has_line(t: Seq<char>, j: int)
    requires
        j >= 0,
        key_at(t, j) is Some,
    ensures
        has_line(t, j),
{
    if drop_lines(t, j as nat).len() == 0 {
        assert(line_at(t, j).len() == 0);
    }
}

/// Past the last line there is no documentation line.
proof fn lemma_past_end(t: Seq<char>, j: nat, jj: int)
    requires
        drop_lines(t, j).len() == 0,
        j <= jj,
    ensures
        key_at(t, jj) is None,
{
    lemma_drop_lines_add(t, j, (jj - j) as nat);
    assert(drop_lines(t, jj as nat) == drop_lines(t, j));
    assert(line_at(t, jj).len() == 0);
}

/// Appends the chunk for the run of lines `s` to `e` (0-based, `e` excluded).
fn close_run(
    chunks: &mut Vec<Chunk>,
    t: Ghost<Seq<char>>,
    s: usize,
    e: usize,
    c: Characteristics,
    docs: &Vec<char>,
)
    requires
        s < e < usize::MAX,
        forall|m: int| s <= m < e ==> key_at(t@, m) == Some(c),
        s == 0 || key_at(t@, s - 1) != Some(c),
        key_at(t@, e as int) != Some(c),
        docs@ == payload_text(t@, s as int, e as int),
    ensures
        final(chunks)@ == old(chunks)@.push(final(chunks)@.last()),
        final(chunks)@.last().lines == (Range { start: (s + 1) as usize, end: (e + 1) as usize }),
        final(chunks)@.last().characteristics == c,
        chunk_matches(t@, final(chunks)@.last()),
{
    let chunk = Chunk {
        lines: Range { start: s + 1, end: e + 1 },
        characteristics: c,
        docs: string_from_chars(docs),
    };
    chunks.push(chunk);
}

/// Every documentation line before line `upto` (0-based) lies in one of `chunks`.
pub open spec fn covered(t: Seq<char>, chunks: Seq<Chunk>, upto: int) -> bool {
    forall|m: int|
        0 <= m < upto && (#[trigger] key_at(t, m)) is Some ==> exists|k: int|
            0 <= k < chunks.len() && (#[trigger] chunks[k]).lines.start <= m + 1
                < chunks[k].lines.end
}

proof fn lemma_covered_push(t: Seq<char>, chunks: Seq<Chunk>, c: Chunk, s: int, e: int)
    requires
        covered(t, chunks, s),
        c.lines.start == s + 1,
        c.lines.end == e + 1,
    ensures
        covered(t, chunks.push(c), e),
{
    let cs = chunks.push(c);
    assert forall|m: int|
        0 <= m < e && (#[trigger] key_at(t, m)) is Some implies exists|k: int|
            0 <= k < cs.len() && (#[trigger] cs[k]).lines.start <= m + 1 < cs[k].lines.end by {
        if m < s {
            let k = choose|k: int|
                0 <= k < chunks.len() && (#[trigger] chunks[k]).lines.start <= m + 1
                    < chunks[k].lines.end;
            assert(cs[k] == chunks[k]);
        } else {
            assert(cs[cs.len() - 1] == c);
        }
    }
}

proof fn lemma_covered_none(t: Seq<char>, chunks: Seq<Chunk>, s: int, e: int)
    requires
        covered(t, chunks, s),
        forall|m: int| s <= m < e ==> key_at(t, m) is None,
    ensures
        covered(t, chunks, e),
{
    assert forall|m: int|
        0 <= m < e && (#[trigger] key_at(t, m)) is Some implies exists|k: int|
            0 <= k < chunks.len() && (#[trigger] chunks[k]).lines.start <= m + 1
                < chunks[k].lines.end by {
        if m >= s {
            assert(key_at(t, m) is None);
        }
    }
}

/// Groups the lines of `contents` into chunks: maximal runs of consecutive
/// documentation lines with equal characteristics, in order.
#[verifier::rlimit(60)]
pub fn chunk(contents: &str) -> (chunks: Vec<Chunk>)
    requires
        contents@.len() < usize::MAX,
    ensures
        chunks_of(contents@, chunks@),
{
    let t = chars_of(contents);
    let ghost tt = t@;
    let n = t.len();
    let mut chunks: Vec<Chunk> = Vec::new();
    let mut i: usize = 0;
    let mut j: usize = 0;
    let mut run_start: usize = 0;
    let mut run_key: Option<Characteristics> = None;
    let mut docs: Vec<char> = Vec::new();
    while i < n
        invariant
            tt == t@,
            n == t.len(),
            tt == contents@,
            n < usize::MAX,
            i <= n,
            j <= i,
            drop_lines(tt, j as nat) == tt.skip(i as int),
            run_start <= j,
            j > 0 ==> run_start < j,
            run_key is Some ==> j > 0,
            forall|m: int| run_start <= m < j ==> key_at(tt, m) == run_key,
            run_start == 0 || key_at(tt, run_start - 1) != run_key,
            run_key is Some ==> docs@ == payload_text(tt, run_start as int, j as int),
            forall|k: int| 0 <= k < chunks.len() ==> chunk_matches(tt, #[trigger] chunks@[k]),
            forall|k: int|
                0 <= k < chunks.len() - 1 ==> #[trigger] chunks@[k].lines.end
                    <= chunks@[k + 1].lines.start,
            chunks.len() > 0 ==> chunks@.last().lines.end <= run_start + 1,
            covered(tt, chunks@, run_start as int),
        decreases n - i,
    {
        let (le, next) = line_end(&t, i);
        proof {
            lemma_drop_lines_add(tt, j as nat, 1);
        }
        let (key, p) = classify(&t, i, le);
        assert(key == key_at(tt, j as int));
        if !same_key(key, run_key) {
            match run_key {
                Some(c) => {
                    let ghost old_chunks = chunks@;
                    close_run(&mut chunks, Ghost(tt), run_start, j, c, &docs);
                    proof {
                        lemma_covered_push(tt, old_chunks, chunks@.last(), run_start as int, j as int);
                        assert(chunks@ == old_chunks.push(chunks@.last()));
                    }
                },
                None => {
                    proof {
                        lemma_covered_none(tt, chunks@, run_start as int, j as int);
                    }
                },
            }
            run_start = j;
            run_key = key;
            docs = Vec::new();
        }
        if key.is_some() {
            let ghost before = docs@;
            push_range(&mut docs, &t, p, le);
            docs.push('\n');
            proof {
                let line = tt.subrange(i as int, le as int);
                assert(line.skip(payload_start(line)) =~= tt.subrange(p as int, le as int));
                assert(payload_text(tt, run_start as int, j + 1) == payload_text(
                    tt,
                    run_start as int,
                    j as int,
                ) + line_payload(line) + seq!['\n']);
                if run_start == j {
                    assert(payload_text(tt, j as int, j as int) == Seq::<char>::empty());
                }
                assert(docs@ =~= payload_text(tt, run_start as int, j + 1));
            }
        }
        j = j + 1;
        i = next;
    }
    proof {
        assert(drop_lines(tt, j as nat).len() == 0);
        lemma_past_end(tt, j as nat, j as int);
    }
    match run_key {
        Some(c) => {
            let ghost old_chunks = chunks@;
            close_run(&mut chunks, Ghost(tt), run_start, j, c, &docs);
            proof {
                lemma_covered_push(tt, old_chunks, chunks@.last(), run_start as int, j as int);
                assert(chunks@ == old_chunks.push(chunks@.last()));
            }
        },
        None => {
            proof {
                lemma_covered_none(tt, chunks@, run_start as int, j as int);
            }
        },
    }
    proof {
        assert forall|m: int| m >= 0 && (#[trigger] key_at(tt, m)) is Some implies exists|k: int|
            0 <= k < chunks.len() && (#[trigger] chunks@[k]).lines.start <= m + 1
                < chunks@[k].lines.end by {
            if m >= j {
                lemma_past_end(tt, j as nat, m);
            }
        }
    }
    chunks
}

} // verus!
