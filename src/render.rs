use crate::extract::{
    is_white_space, key_at, lemma_indent, line_key, line_payload, payload_text, Characteristics,
    DocKind,
};
use crate::text::{
    chars_of, drop_lines, has_line, lemma_drop_line_shrinks, line_end, line_text, newline_index,
    string_from_chars,
};
use vstd::prelude::*;

verus! {

/// The marker of a kind of documentation line.
pub open spec fn marker(kind: DocKind) -> Seq<char> {
    match kind {
        DocKind::Inner => seq!['/', '/', '!'],
        DocKind::Outer => seq!['/', '/', '/'],
    }
}

/// A line of agent output as a documentation line: the indentation, the
/// marker, a space unless the line is empty, and the line.
pub open spec fn doc_line(c: Characteristics, l: Seq<char>) -> Seq<char> {
    Seq::new(c.indent as nat, |m: int| ' ') + marker(c.kind) + (if l.len() == 0 {
        Seq::<char>::empty()
    } else {
        seq![' ']
    }) + l
}

/// Each line of `r`, as `str::lines` yields them, turned into a
/// documentation line and ended by `'\n'`.
pub open spec fn doc_lines(c: Characteristics, r: Seq<char>) -> Seq<char>
    decreases r.len(),
    via doc_lines_decreases
{
    if r.len() == 0 {
        Seq::empty()
    } else {
        doc_line(c, line_text(r)) + seq!['\n'] + doc_lines(c, drop_lines(r, 1))
    }
}

#[via_fn]
proof fn doc_lines_decreases(c: Characteristics, r: Seq<char>) {
    if r.len() > 0 {
        lemma_drop_line_shrinks(r);
    }
}

fn push_doc_line(out: &mut Vec<char>, c: Characteristics, t: &Vec<char>, from: usize, to: usize)
    requires
        from <= to <= t.len(),
    ensures
        final(out)@ == old(out)@ + doc_line(c, t@.subrange(from as int, to as int)) + seq!['\n'],
{
    let ghost start = out@;
    let mut k: usize = 0;
    while k < c.indent
        invariant
            k <= c.indent,
            out@ == start + Seq::new(k as nat, |m: int| ' '),
        decreases c.indent - k,
    {
        out.push(' ');
        assert(start + Seq::new((k + 1) as nat, |m: int| ' ') =~= (start + Seq::new(
            k as nat,
            |m: int| ' ',
        )).push(' '));
        k = k + 1;
    }
    out.push('/');
    out.push('/');
    match c.kind {
        DocKind::Inner => out.push('!'),
        DocKind::Outer => out.push('/'),
    }
    if from < to {
        out.push(' ');
    }
    let ghost before = out@;
    let mut m = from;
    while m < to
        invariant
            from <= m <= to <= t.len(),
            out@ == before + t@.subrange(from as int, m as int),
        decreases to - m,
    {
        out.push(t[m]);
        assert(t@.subrange(from as int, m + 1) =~= t@.subrange(from as int, m as int).push(
            t@[m as int],
        ));
        m = m + 1;
    }
    out.push('\n');
    assert(out@ =~= start + doc_line(c, t@.subrange(from as int, to as int)) + seq!['\n']);
}

/// Turns the output of the formatting agent back into documentation lines:
/// each of its lines gets `characteristics.indent` spaces, the marker, and a
/// space unless the line is empty, and ends with `'\n'`.
pub fn postprocess_docs(characteristics: Characteristics, docs: &str) -> (r: String)
    ensures
        r@ == doc_lines(characteristics, docs@),
{
    let t = chars_of(docs);
    let n = t.len();
    let mut out: Vec<char> = Vec::new();
    let mut i: usize = 0;
    assert(t@.skip(0) =~= t@);
    assert(out@ + doc_lines(characteristics, t@) =~= doc_lines(characteristics, t@));
    while i < n
        invariant
            t@ == docs@,
            n == t.len(),
            i <= n,
            doc_lines(characteristics, t@) == out@ + doc_lines(characteristics, t@.skip(i as int)),
        decreases n - i,
    {
        let (le, next) = line_end(&t, i);
        let ghost before = out@;
        push_doc_line(&mut out, characteristics, &t, i, le);
        proof {
            let r = t@.skip(i as int);
            assert(doc_lines(characteristics, r) == doc_line(characteristics, line_text(r)) + seq![
                '\n',
            ] + doc_lines(characteristics, drop_lines(r, 1)));
            assert(out@ + doc_lines(characteristics, t@.skip(next as int)) =~= before
                + doc_lines(characteristics, r));
        }
        i = next;
    }
    proof {
        assert(doc_lines(characteristics, t@.skip(n as int)) == Seq::<char>::empty());
        assert(out@ + Seq::<char>::empty() =~= out@);
    }
    string_from_chars(&out)
}

/// A documentation line made from a line of agent output reads back as that
/// line: it has the characteristics it was made with, and its payload is the
/// line itself. So extracting what was written yields what the agent returned.
pub proof fn lemma_doc_line_round_trip(c: Characteristics, l: Seq<char>)
    ensures
        line_key(doc_line(c, l)) == Some(c),
        line_payload(doc_line(c, l)) == l,
{
    let d = doc_line(c, l);
    let k = c.indent as int;
    assert forall|m: int| 0 <= m < k implies crate::extract::is_ascii_space(d[m]) by {
        assert(d[m] == ' ');
    }
    assert(d[k] == '/');
    lemma_indent(d, k);
    assert(d[k + 1] == '/');
    assert(d[k + 2] == marker(c.kind)[2]);
    if l.len() > 0 {
        assert(d[k + 3] == ' ');
        assert(is_white_space(' '));
        assert(d.skip(k + 4) =~= l);
    } else {
        assert(d.skip(k + 3) =~= l);
    }
}

/// The payload of each line of `r`, as `str::lines` yields them, each
/// followed by `'\n'`: what extraction reads back from documentation lines.
pub open spec fn payload_lines(r: Seq<char>) -> Seq<char>
    decreases r.len(),
    via payload_lines_decreases
{
    if r.len() == 0 {
        Seq::empty()
    } else {
        line_payload(line_text(r)) + seq!['\n'] + payload_lines(drop_lines(r, 1))
    }
}

#[via_fn]
proof fn payload_lines_decreases(r: Seq<char>) {
    if r.len() > 0 {
        lemma_drop_line_shrinks(r);
    }
}

/// A line without line breaks, followed by `'\n'`: its text and what follows.
proof fn lemma_split_first_line(l: Seq<char>, x: Seq<char>)
    requires
        forall|m: int| 0 <= m < l.len() ==> l[m] != '\n',
        l.len() == 0 || l.last() != '\r',
    ensures
        line_text(l + seq!['\n'] + x) == l,
        drop_lines(l + seq!['\n'] + x, 1) == x,
{
    let r = l + seq!['\n'] + x;
    assert forall|m: int| 0 <= m < l.len() implies r[m] != '\n' by {
        assert(r[m] == l[m]);
    }
    crate::text::lemma_first_line(r, l.len() as int);
    assert(r.take(l.len() as int) =~= l);
    assert(r.skip(l.len() + 1int) =~= x);
}

/// The first line of a text holds no `'\n'`, and no `'\r'` when the text has none.
proof fn lemma_line_text_clean(r: Seq<char>)
    requires
        forall|m: int| 0 <= m < r.len() ==> r[m] != '\r',
    ensures
        forall|m: int| 0 <= m < line_text(r).len() ==> line_text(r)[m] != '\n' && line_text(r)[m]
            != '\r',
        line_text(r) == r.take(newline_index(r) as int),
        forall|m: int| 0 <= m < drop_lines(r, 1).len() ==> drop_lines(r, 1)[m] != '\r',
{
    let e = newline_index(r);
    lemma_newline_index(r);
    crate::text::lemma_drop_lines_suffix(r, 1);
}

proof fn lemma_newline_index(r: Seq<char>)
    ensures
        newline_index(r) <= r.len(),
        forall|m: int| 0 <= m < newline_index(r) ==> r[m] != '\n',
    decreases r.len(),
{
    if r.len() > 0 && r[0] != '\n' {
        lemma_newline_index(r.drop_first());
        assert forall|m: int| 0 <= m < newline_index(r) implies r[m] != '\n' by {
            if m > 0 {
                assert(r[m] == r.drop_first()[m - 1]);
            }
        }
    }
}

/// Running again on rewritten documentation changes nothing: the payloads
/// read back from the documentation lines made from agent output `o`, turned
/// into documentation lines again, give the same text, byte for byte. So an
/// agent that returns already formatted text unchanged makes a second run
/// reproduce the first. Output holding `'\r'` is left out: `str::lines` drops
/// a `'\r'` before `'\n'`, so such a line does not read back as written.
pub proof fn lemma_rerender_is_identity(c: Characteristics, o: Seq<char>)
    requires
        forall|m: int| 0 <= m < o.len() ==> o[m] != '\r',
    ensures
        payload_lines(doc_lines(c, o)) == normalized(o),
        doc_lines(c, payload_lines(doc_lines(c, o))) == doc_lines(c, o),
    decreases o.len(),
{
    if o.len() > 0 {
        let l = line_text(o);
        let rest = drop_lines(o, 1);
        lemma_line_text_clean(o);
        lemma_drop_line_shrinks(o);
        lemma_rerender_is_identity(c, rest);
        let dl = doc_line(c, l);
        assert forall|m: int| 0 <= m < dl.len() implies dl[m] != '\n' by {
            if m >= c.indent + 3 + (if l.len() == 0 { 0int } else { 1 }) {
                assert(dl[m] == l[m - c.indent - 3 - (if l.len() == 0 { 0int } else { 1 })]);
            }
        }
        assert(dl.len() > 0);
        if l.len() > 0 {
            assert(dl.last() == l.last());
        } else {
            assert(dl.last() == marker(c.kind)[2]);
        }
        let x = doc_lines(c, rest);
        assert(doc_lines(c, o) == dl + seq!['\n'] + x);
        lemma_split_first_line(dl, x);
        lemma_doc_line_round_trip(c, l);
        assert(payload_lines(dl + seq!['\n'] + x) == l + seq!['\n'] + payload_lines(x));
        let y = normalized(rest);
        lemma_split_first_line(l, y);
        assert(normalized(o) == l + seq!['\n'] + y);
        assert(doc_lines(c, l + seq!['\n'] + y) == dl + seq!['\n'] + doc_lines(c, y));
    }
}

/// Each line of `o`, as `str::lines` yields them, followed by `'\n'`.
pub open spec fn normalized(o: Seq<char>) -> Seq<char>
    decreases o.len(),
    via normalized_decreases
{
    if o.len() == 0 {
        Seq::empty()
    } else {
        line_text(o) + seq!['\n'] + normalized(drop_lines(o, 1))
    }
}

#[via_fn]
proof fn normalized_decreases(o: Seq<char>) {
    if o.len() > 0 {
        lemma_drop_line_shrinks(o);
    }
}

/// Skipping `j` rendered lines leaves the rendering of what follows line `j`.
proof fn lemma_drop_rendered_lines(c: Characteristics, o: Seq<char>, j: nat)
    requires
        forall|m: int| 0 <= m < o.len() ==> o[m] != '\r',
    ensures
        drop_lines(doc_lines(c, o), j) == doc_lines(c, drop_lines(o, j)),
        forall|m: int| 0 <= m < drop_lines(o, j).len() ==> drop_lines(o, j)[m] != '\r',
    decreases j,
{
    if j == 0 {
        assert(drop_lines(o, 0) == o);
        assert(drop_lines(doc_lines(c, o), 0) == doc_lines(c, o));
    } else {
        lemma_drop_rendered_lines(c, o, (j - 1) as nat);
        let oj = drop_lines(o, (j - 1) as nat);
        crate::text::lemma_drop_lines_add(o, (j - 1) as nat, 1);
        crate::text::lemma_drop_lines_add(doc_lines(c, o), (j - 1) as nat, 1);
        if oj.len() == 0 {
            assert(doc_lines(c, oj).len() == 0);
            assert(drop_lines(doc_lines(c, oj), 1) == doc_lines(c, oj));
            assert(drop_lines(oj, 1) == oj);
        } else {
            lemma_first_rendered_line(c, oj);
        }
    }
}

/// The first rendered line of `o` and what follows it.
pub proof fn lemma_first_rendered_line(c: Characteristics, o: Seq<char>)
    requires
        o.len() > 0,
        forall|m: int| 0 <= m < o.len() ==> o[m] != '\r',
    ensures
        line_text(doc_lines(c, o)) == doc_line(c, line_text(o)),
        drop_lines(doc_lines(c, o), 1) == doc_lines(c, drop_lines(o, 1)),
        forall|m: int| 0 <= m < drop_lines(o, 1).len() ==> drop_lines(o, 1)[m] != '\r',
{
    let l = line_text(o);
    lemma_line_text_clean(o);
    let dl = doc_line(c, l);
    assert forall|m: int| 0 <= m < dl.len() implies dl[m] != '\n' by {
        if m >= c.indent + 3 + (if l.len() == 0 { 0int } else { 1 }) {
            assert(dl[m] == l[m - c.indent - 3 - (if l.len() == 0 { 0int } else { 1 })]);
        }
    }
    if l.len() > 0 {
        assert(dl.last() == l.last());
    } else {
        assert(dl.last() == marker(c.kind)[2]);
    }
    lemma_split_first_line(dl, doc_lines(c, drop_lines(o, 1)));
}

/// Every line of rendered agent output is a documentation line with the
/// characteristics it was rendered with.
pub proof fn lemma_rendered_keys(c: Characteristics, o: Seq<char>, j: int)
    requires
        forall|m: int| 0 <= m < o.len() ==> o[m] != '\r',
        has_line(doc_lines(c, o), j),
    ensures
        key_at(doc_lines(c, o), j) == Some(c),
{
    lemma_drop_rendered_lines(c, o, j as nat);
    let oj = drop_lines(o, j as nat);
    if oj.len() == 0 {
        assert(doc_lines(c, oj).len() == 0);
    } else {
        lemma_first_rendered_line(c, oj);
        lemma_doc_line_round_trip(c, line_text(oj));
    }
}

/// The payloads of the first `k` lines, followed by those of the rest, are
/// the payloads of all lines.
pub proof fn lemma_payload_text_lines(t: Seq<char>, k: nat)
    requires
        k == 0 || has_line(t, k - 1),
    ensures
        payload_text(t, 0, k as int) + payload_lines(drop_lines(t, k)) == payload_lines(t),
    decreases k,
{
    if k == 0 {
        assert(drop_lines(t, 0) == t);
        assert(payload_text(t, 0, 0) == Seq::<char>::empty());
        assert(Seq::<char>::empty() + payload_lines(t) =~= payload_lines(t));
    } else {
        if k >= 2 {
            crate::text::lemma_drop_lines_add(t, (k - 2) as nat, 1);
            assert(drop_lines(t, (k - 2) as nat).len() > 0) by {
                if drop_lines(t, (k - 2) as nat).len() == 0 {
                    assert(drop_lines(drop_lines(t, (k - 2) as nat), 1) == drop_lines(
                        t,
                        (k - 2) as nat,
                    ));
                }
            }
        }
        lemma_payload_text_lines(t, (k - 1) as nat);
        let r = drop_lines(t, (k - 1) as nat);
        crate::text::lemma_drop_lines_add(t, (k - 1) as nat, 1);
        assert(payload_lines(r) == line_payload(line_text(r)) + seq!['\n'] + payload_lines(
            drop_lines(r, 1),
        ));
        assert(payload_text(t, 0, k as int) + payload_lines(drop_lines(t, k)) =~= payload_text(
            t,
            0,
            k - 1,
        ) + payload_lines(r));
    }
}

/// Nothing is left to skip in an empty text.
pub proof fn lemma_drop_empty(t: Seq<char>, k: nat)
    requires
        t.len() == 0,
    ensures
        drop_lines(t, k) == t,
        payload_lines(t) == Seq::<char>::empty(),
{
}

} // verus!
