use crate::extract::{
    chunk_matches, chunks_of, key_at, lemma_key_has_line, payload_text, Characteristics, Chunk,
};
use crate::pipeline::{
    gap, gap_start, lemma_untouched_text_restores_original, rewritten, rewritten_prefix, span_text,
    span_texts, tail,
};
use crate::render::{
    doc_line, doc_lines, lemma_drop_empty, lemma_first_rendered_line, lemma_payload_text_lines,
    lemma_rendered_keys, lemma_rerender_is_identity, normalized,
};
use crate::text::{
    drop_lines, has_line, lemma_drop_line_shrinks, lemma_drop_lines_add, lemma_take_lines_of_rest,
    line_at, line_start, line_text, newline_index, take_lines,
};
use vstd::prelude::*;

verus! {

/// The number of `'\n'` in `a`.
pub open spec fn newline_count(a: Seq<char>) -> nat
    decreases a.len(),
{
    if a.len() == 0 {
        0
    } else {
        (if a[0] == '\n' {
            1nat
        } else {
            0nat
        }) + newline_count(a.drop_first())
    }
}

/// `a` is made of whole lines: it is empty or ends with `'\n'`.
pub open spec fn whole_lines(a: Seq<char>) -> bool {
    a.len() == 0 || a.last() == '\n'
}

proof fn lemma_drop_concat(a: Seq<char>, b: Seq<char>, j: nat)
    requires
        j <= newline_count(a),
    ensures
        drop_lines(a + b, j) == drop_lines(a, j) + b,
    decreases a.len(),
{
    if j == 0 {
    } else if a.len() == 0 {
    } else {
        assert((a + b).drop_first() =~= a.drop_first() + b);
        assert((a + b)[0] == a[0]);
        if a[0] == '\n' {
            lemma_drop_concat(a.drop_first(), b, (j - 1) as nat);
        } else {
            lemma_drop_concat(a.drop_first(), b, j);
        }
    }
}

proof fn lemma_drop_all(a: Seq<char>)
    requires
        whole_lines(a),
    ensures
        drop_lines(a, newline_count(a)).len() == 0,
    decreases a.len(),
{
    if a.len() > 0 {
        let r = a.drop_first();
        if r.len() > 0 {
            assert(r.last() == a.last());
        }
        lemma_drop_all(r);
        if a[0] != '\n' {
            if newline_count(r) == 0 {
                assert(drop_lines(r, 0) == r);
            }
        }
    }
}

proof fn lemma_count_after_drop(a: Seq<char>, j: nat)
    requires
        j <= newline_count(a),
    ensures
        newline_count(drop_lines(a, j)) == newline_count(a) - j,
    decreases a.len(),
{
    if j == 0 {
    } else if a.len() == 0 {
    } else if a[0] == '\n' {
        lemma_count_after_drop(a.drop_first(), (j - 1) as nat);
    } else {
        lemma_count_after_drop(a.drop_first(), j);
    }
}

proof fn lemma_newline_inside(x: Seq<char>, b: Seq<char>)
    requires
        newline_count(x) >= 1,
    ensures
        newline_index(x) < x.len(),
        newline_index(x + b) == newline_index(x),
        line_text(x + b) == line_text(x),
    decreases x.len(),
{
    assert((x + b)[0] == x[0]);
    if x[0] != '\n' {
        assert((x + b).drop_first() =~= x.drop_first() + b);
        lemma_newline_inside(x.drop_first(), b);
    }
    let e = newline_index(x);
    assert((x + b).take(e as int) =~= x.take(e as int));
    if e > 0 {
        assert((x + b).take(e - 1) =~= x.take(e - 1));
        assert((x + b)[e - 1] == x[e - 1]);
    }
}

/// Lines of a text that starts with whole lines `a`.
pub proof fn lemma_lines_of_concat(a: Seq<char>, b: Seq<char>, j: nat)
    requires
        whole_lines(a),
    ensures
        j < newline_count(a) ==> line_at(a + b, j as int) == line_at(a, j as int),
        j >= newline_count(a) ==> line_at(a + b, j as int) == line_at(b, j - newline_count(a)),
        j >= newline_count(a) ==> drop_lines(a + b, j) == drop_lines(b, (j - newline_count(a)) as nat),
        j <= newline_count(a) ==> drop_lines(a + b, j) == drop_lines(a, j) + b,
{
    let n = newline_count(a);
    if j < n {
        lemma_drop_concat(a, b, j);
        lemma_count_after_drop(a, j);
        lemma_newline_inside(drop_lines(a, j), b);
    } else {
        lemma_drop_lines_add(a + b, n, (j - n) as nat);
        lemma_drop_concat(a, b, n);
        lemma_drop_all(a);
        assert(drop_lines(a, n) + b =~= b);
    }
    if j <= n {
        lemma_drop_concat(a, b, j);
    }
}

pub proof fn lemma_count_concat(a: Seq<char>, b: Seq<char>)
    ensures
        newline_count(a + b) == newline_count(a) + newline_count(b),
    decreases a.len(),
{
    if a.len() == 0 {
        assert(a + b =~= b);
    } else {
        assert((a + b).drop_first() =~= a.drop_first() + b);
        assert((a + b)[0] == a[0]);
        lemma_count_concat(a.drop_first(), b);
    }
}

pub proof fn lemma_whole_concat(a: Seq<char>, b: Seq<char>)
    requires
        whole_lines(a),
        whole_lines(b),
    ensures
        whole_lines(a + b),
{
    if b.len() == 0 {
        assert(a + b =~= a);
    } else {
        assert((a + b).last() == b.last());
    }
}

/// The first `k` lines of a text that has more than `k` lines are whole lines,
/// `k` of them.
pub proof fn lemma_take_whole(u: Seq<char>, k: nat)
    requires
        drop_lines(u, k).len() > 0,
    ensures
        whole_lines(take_lines(u, k)),
        newline_count(take_lines(u, k)) == k,
        u == take_lines(u, k) + drop_lines(u, k),
    decreases u.len(),
{
    crate::text::lemma_drop_lines_suffix(u, k);
    assert(u =~= take_lines(u, k) + drop_lines(u, k));
    if k == 0 {
        assert(take_lines(u, 0) =~= Seq::<char>::empty());
    } else {
        let r = u.drop_first();
        if u[0] == '\n' {
            lemma_take_whole(r, (k - 1) as nat);
            assert(take_lines(u, k) =~= seq!['\n'] + take_lines(r, (k - 1) as nat));
            assert((seq!['\n'] + take_lines(r, (k - 1) as nat)).drop_first() =~= take_lines(
                r,
                (k - 1) as nat,
            ));
            if take_lines(r, (k - 1) as nat).len() > 0 {
                assert(take_lines(u, k).last() == take_lines(r, (k - 1) as nat).last());
            }
        } else {
            lemma_take_whole(r, k);
            assert(take_lines(u, k) =~= seq![u[0]] + take_lines(r, k));
            assert((seq![u[0]] + take_lines(r, k)).drop_first() =~= take_lines(r, k));
            assert(take_lines(r, k).len() > 0);
            assert(take_lines(u, k).last() == take_lines(r, k).last());
        }
    }
}

/// Past the lines of a text made of whole lines, nothing is left; before
/// that, something is.
pub proof fn lemma_lines_exist(a: Seq<char>, j: nat)
    requires
        whole_lines(a),
    ensures
        has_line(a, j as int) <==> j < newline_count(a),
{
    if j < newline_count(a) {
        lemma_count_after_drop(a, j);
    } else {
        lemma_drop_all(a);
        lemma_drop_lines_add(a, newline_count(a), (j - newline_count(a)) as nat);
        lemma_drop_nothing(drop_lines(a, newline_count(a)), (j - newline_count(a)) as nat);
    }
}

proof fn lemma_drop_nothing(t: Seq<char>, k: nat)
    requires
        t.len() == 0,
    ensures
        drop_lines(t, k).len() == 0,
{
}

/// The text from the untouched lines before chunk `i` to the end: the text
/// that follows the first `i` replacements.
pub open spec fn suffix_from(
    t: Seq<char>,
    chunks: Seq<Chunk>,
    reps: Seq<Seq<char>>,
    i: int,
) -> Seq<char>
    decreases chunks.len() - i,
{
    if i >= chunks.len() {
        tail(t, chunks, chunks.len() as int)
    } else {
        gap(t, chunks, i) + reps[i] + suffix_from(t, chunks, reps, i + 1)
    }
}

proof fn lemma_prefix_suffix(t: Seq<char>, chunks: Seq<Chunk>, reps: Seq<Seq<char>>, i: int)
    requires
        0 <= i <= chunks.len(),
    ensures
        rewritten_prefix(t, chunks, reps, i) + suffix_from(t, chunks, reps, i) == rewritten(
            t,
            chunks,
            reps,
        ),
    decreases chunks.len() - i,
{
    if i < chunks.len() {
        lemma_prefix_suffix(t, chunks, reps, i + 1);
        assert(rewritten_prefix(t, chunks, reps, i + 1) + suffix_from(t, chunks, reps, i + 1)
            =~= rewritten_prefix(t, chunks, reps, i) + suffix_from(t, chunks, reps, i));
    }
}

/// Chunk boundaries only move forward.
pub proof fn lemma_chunk_chain(t: Seq<char>, chunks: Seq<Chunk>, k: int, l: int)
    requires
        chunks_of(t, chunks),
        0 <= k <= l < chunks.len(),
    ensures
        chunks[k].lines.start <= chunks[l].lines.start,
        chunks[k].lines.end <= chunks[l].lines.end,
        k < l ==> chunks[k].lines.end <= chunks[l].lines.start,
    decreases l - k,
{
    assert(chunk_matches(t, chunks[k]));
    assert(chunk_matches(t, chunks[l]));
    if k < l {
        lemma_chunk_chain(t, chunks, k, l - 1);
        assert(chunks[l - 1].lines.end <= chunks[l].lines.start);
        assert(chunk_matches(t, chunks[l - 1]));
    }
}

/// Lines between chunks, and lines after the last one, are no documentation lines.
proof fn lemma_outside_chunks(t: Seq<char>, chunks: Seq<Chunk>, i: int, m: int)
    requires
        chunks_of(t, chunks),
        0 <= i <= chunks.len(),
        gap_start(chunks, i) <= m,
        i < chunks.len() ==> m < chunks[i].lines.start - 1,
    ensures
        key_at(t, m) is None,
{
    if key_at(t, m) is Some {
        let k = choose|k: int|
            0 <= k < chunks.len() && (#[trigger] chunks[k]).lines.start <= m + 1
                < chunks[k].lines.end;
        if k < i {
            lemma_chunk_chain(t, chunks, k, i - 1);
        } else {
            lemma_chunk_chain(t, chunks, i, k);
        }
    }
}

/// The first lines of chunk `i` and what precedes it in the original.
proof fn lemma_gap_lines(t: Seq<char>, chunks: Seq<Chunk>, i: int)
    requires
        chunks_of(t, chunks),
        0 <= i < chunks.len(),
    ensures
        gap_start(chunks, i) <= chunks[i].lines.start - 1,
        whole_lines(gap(t, chunks, i)),
        newline_count(gap(t, chunks, i)) == chunks[i].lines.start - 1 - gap_start(chunks, i),
        forall|m: int|
            0 <= m < newline_count(gap(t, chunks, i)) ==> line_at(gap(t, chunks, i), m) == line_at(
                t,
                gap_start(chunks, i) + m,
            ),
{
    let p = gap_start(chunks, i);
    let q = (chunks[i].lines.start - 1) as nat;
    assert(chunk_matches(t, chunks[i]));
    if i > 0 {
        lemma_chunk_chain(t, chunks, i - 1, i);
        assert(chunk_matches(t, chunks[i - 1]));
    }
    lemma_key_has_line(t, q as int);
    let u = drop_lines(t, p);
    lemma_take_lines_of_rest(t, p, (q - p) as nat);
    lemma_drop_lines_add(t, p, (q - p) as nat);
    lemma_take_whole(u, (q - p) as nat);
    let g = gap(t, chunks, i);
    assert(g == take_lines(u, (q - p) as nat));
    assert forall|m: int| 0 <= m < newline_count(g) implies line_at(g, m) == line_at(t, p + m) by {
        lemma_lines_of_concat(g, drop_lines(u, (q - p) as nat), m as nat);
        lemma_drop_lines_add(t, p, m as nat);
    }
}

/// Agent output turned into documentation lines: whole lines, at least one,
/// each a documentation line with the given characteristics.
proof fn lemma_rendered_block(c: Characteristics, o: Seq<char>)
    requires
        o.len() > 0,
        forall|m: int| 0 <= m < o.len() ==> o[m] != '\r',
    ensures
        whole_lines(doc_lines(c, o)),
        newline_count(doc_lines(c, o)) >= 1,
        forall|j: int|
            0 <= j < newline_count(doc_lines(c, o)) ==> key_at(doc_lines(c, o), j) == Some(c),
        payload_text(doc_lines(c, o), 0, newline_count(doc_lines(c, o)) as int) == normalized(o),
{
    let r = doc_lines(c, o);
    lemma_first_rendered_line(c, o);
    lemma_whole_rendered(c, o);
    assert(drop_lines(r, 0) == r);
    lemma_lines_exist(r, 0);
    assert forall|j: int| 0 <= j < newline_count(r) implies key_at(r, j) == Some(c) by {
        lemma_lines_exist(r, j as nat);
        lemma_rendered_keys(c, o, j);
    }
    let n = newline_count(r);
    lemma_lines_exist(r, (n - 1) as nat);
    lemma_payload_text_lines(r, n);
    lemma_drop_all(r);
    lemma_drop_empty(drop_lines(r, n), 0);
    lemma_rerender_is_identity(c, o);
}

proof fn lemma_whole_rendered(c: Characteristics, o: Seq<char>)
    ensures
        whole_lines(doc_lines(c, o)),
    decreases o.len(),
{
    if o.len() > 0 {
        lemma_drop_line_shrinks(o);
        lemma_whole_rendered(c, drop_lines(o, 1));
        let x = doc_lines(c, drop_lines(o, 1));
        let h = doc_line(c, line_text(o)) + seq!['\n'];
        assert(doc_lines(c, o) == h + x);
        lemma_whole_concat(h, x);
    }
}

/// The replacement of each chunk: the agent's output as documentation lines.
pub open spec fn rendered(chunks: Seq<Chunk>, outputs: Seq<Seq<char>>) -> Seq<Seq<char>> {
    Seq::new(chunks.len(), |i: int| doc_lines(chunks[i].characteristics, outputs[i]))
}

/// The agent outputs are usable for a second run: one per chunk, none empty,
/// none holding `'\r'`.
pub open spec fn clean_outputs(chunks: Seq<Chunk>, outputs: Seq<Seq<char>>) -> bool {
    &&& outputs.len() == chunks.len()
    &&& forall|i: int| 0 <= i < outputs.len() ==> (#[trigger] outputs[i]).len() > 0
    &&& forall|i: int, m: int|
        0 <= i < outputs.len() && 0 <= m < outputs[i].len() ==> (#[trigger] outputs[i][m]) != '\r'
}

/// The line of the rewritten text where the replacement of chunk `i` starts.
pub open spec fn block_start(t: Seq<char>, chunks: Seq<Chunk>, reps: Seq<Seq<char>>, i: int) -> nat {
    newline_count(rewritten_prefix(t, chunks, reps, i)) + newline_count(gap(t, chunks, i))
}

/// The line of the rewritten text where the replacement of chunk `i` ends.
pub open spec fn block_end(t: Seq<char>, chunks: Seq<Chunk>, reps: Seq<Seq<char>>, i: int) -> nat {
    block_start(t, chunks, reps, i) + newline_count(reps[i])
}

/// Before each chunk, the rewritten text is made of whole lines.
proof fn lemma_prefix_whole(t: Seq<char>, chunks: Seq<Chunk>, outputs: Seq<Seq<char>>, i: int)
    requires
        chunks_of(t, chunks),
        clean_outputs(chunks, outputs),
        0 <= i <= chunks.len(),
    ensures
        whole_lines(rewritten_prefix(t, chunks, rendered(chunks, outputs), i)),
        i < chunks.len() ==> newline_count(
            rewritten_prefix(t, chunks, rendered(chunks, outputs), i + 1),
        ) == block_end(t, chunks, rendered(chunks, outputs), i),
        i < chunks.len() ==> block_start(t, chunks, rendered(chunks, outputs), i) < block_end(
            t,
            chunks,
            rendered(chunks, outputs),
            i,
        ),
    decreases i,
{
    let reps = rendered(chunks, outputs);
    if i > 0 {
        lemma_prefix_whole(t, chunks, outputs, i - 1);
        lemma_gap_lines(t, chunks, i - 1);
        lemma_rendered_block(chunks[i - 1].characteristics, outputs[i - 1]);
        let a = rewritten_prefix(t, chunks, reps, i - 1);
        lemma_whole_concat(a, gap(t, chunks, i - 1));
        lemma_whole_concat(a + gap(t, chunks, i - 1), reps[i - 1]);
    }
    if i < chunks.len() {
        lemma_gap_lines(t, chunks, i);
        lemma_rendered_block(chunks[i].characteristics, outputs[i]);
        let a = rewritten_prefix(t, chunks, reps, i);
        lemma_count_concat(a, gap(t, chunks, i));
        lemma_count_concat(a + gap(t, chunks, i), reps[i]);
    }
}

/// Line counts of the rewritten prefixes grow with the number of chunks.
proof fn lemma_prefix_counts_grow(
    t: Seq<char>,
    chunks: Seq<Chunk>,
    outputs: Seq<Seq<char>>,
    a: int,
    b: int,
)
    requires
        chunks_of(t, chunks),
        clean_outputs(chunks, outputs),
        0 <= a <= b <= chunks.len(),
    ensures
        newline_count(rewritten_prefix(t, chunks, rendered(chunks, outputs), a)) <= newline_count(
            rewritten_prefix(t, chunks, rendered(chunks, outputs), b),
        ),
    decreases b - a,
{
    if a < b {
        lemma_prefix_counts_grow(t, chunks, outputs, a, b - 1);
        lemma_prefix_whole(t, chunks, outputs, b - 1);
    }
}

/// The rewritten text around the replacement of chunk `i`: what precedes the
/// untouched lines before it, those lines, the replacement, and the rest.
proof fn lemma_doc_shape(t: Seq<char>, chunks: Seq<Chunk>, outputs: Seq<Seq<char>>, i: int)
    requires
        chunks_of(t, chunks),
        clean_outputs(chunks, outputs),
        0 <= i < chunks.len(),
    ensures
        ({
            let reps = rendered(chunks, outputs);
            let pre = rewritten_prefix(t, chunks, reps, i);
            let g = gap(t, chunks, i);
            let r = reps[i];
            let rest = suffix_from(t, chunks, reps, i + 1);
            let d = rewritten(t, chunks, reps);
            &&& d == pre + (g + (r + rest))
            &&& d == (pre + g) + (r + rest)
            &&& d == (pre + g + r) + rest
            &&& whole_lines(pre)
            &&& whole_lines(g)
            &&& whole_lines(r)
            &&& whole_lines(pre + g)
            &&& whole_lines(pre + g + r)
            &&& newline_count(pre + g) == block_start(t, chunks, reps, i)
            &&& newline_count(pre + g + r) == block_end(t, chunks, reps, i)
            &&& r == doc_lines(chunks[i].characteristics, outputs[i])
        }),
{
    let reps = rendered(chunks, outputs);
    let pre = rewritten_prefix(t, chunks, reps, i);
    let g = gap(t, chunks, i);
    let r = reps[i];
    let rest = suffix_from(t, chunks, reps, i + 1);
    let d = rewritten(t, chunks, reps);
    lemma_prefix_suffix(t, chunks, reps, i);
    lemma_prefix_whole(t, chunks, outputs, i);
    lemma_gap_lines(t, chunks, i);
    assert(r == doc_lines(chunks[i].characteristics, outputs[i]));
    lemma_rendered_block(chunks[i].characteristics, outputs[i]);
    assert(suffix_from(t, chunks, reps, i) == g + r + rest);
    assert(d =~= pre + (g + (r + rest)));
    assert(d =~= (pre + g) + (r + rest));
    assert(d =~= (pre + g + r) + rest);
    lemma_whole_concat(pre, g);
    lemma_whole_concat(pre + g, r);
    lemma_count_concat(pre, g);
    lemma_count_concat(pre + g, r);
}

/// The lines of the replacement of chunk `i` in the rewritten text.
proof fn lemma_block_lines(t: Seq<char>, chunks: Seq<Chunk>, outputs: Seq<Seq<char>>, i: int, j: int)
    requires
        chunks_of(t, chunks),
        clean_outputs(chunks, outputs),
        0 <= i < chunks.len(),
        0 <= j < newline_count(rendered(chunks, outputs)[i]),
    ensures
        line_at(
            rewritten(t, chunks, rendered(chunks, outputs)),
            block_start(t, chunks, rendered(chunks, outputs), i) + j,
        ) == line_at(rendered(chunks, outputs)[i], j),
{
    let reps = rendered(chunks, outputs);
    let pre = rewritten_prefix(t, chunks, reps, i);
    let g = gap(t, chunks, i);
    let r = reps[i];
    let rest = suffix_from(t, chunks, reps, i + 1);
    lemma_doc_shape(t, chunks, outputs, i);
    let bs = block_start(t, chunks, reps, i);
    lemma_lines_of_concat(pre + g, r + rest, (bs + j) as nat);
    lemma_lines_of_concat(r, rest, j as nat);
}

/// Where the replacement of chunk `i` starts and ends in the rewritten text.
proof fn lemma_block_drops(t: Seq<char>, chunks: Seq<Chunk>, outputs: Seq<Seq<char>>, i: int)
    requires
        chunks_of(t, chunks),
        clean_outputs(chunks, outputs),
        0 <= i < chunks.len(),
    ensures
        drop_lines(
            rewritten(t, chunks, rendered(chunks, outputs)),
            block_start(t, chunks, rendered(chunks, outputs), i),
        ) == rendered(chunks, outputs)[i] + suffix_from(t, chunks, rendered(chunks, outputs), i + 1),
        drop_lines(
            rewritten(t, chunks, rendered(chunks, outputs)),
            block_end(t, chunks, rendered(chunks, outputs), i),
        ) == suffix_from(t, chunks, rendered(chunks, outputs), i + 1),
{
    let reps = rendered(chunks, outputs);
    let pre = rewritten_prefix(t, chunks, reps, i);
    let g = gap(t, chunks, i);
    let r = reps[i];
    let rest = suffix_from(t, chunks, reps, i + 1);
    lemma_doc_shape(t, chunks, outputs, i);
    lemma_lines_of_concat(pre + g, r + rest, block_start(t, chunks, reps, i));
    lemma_lines_of_concat(pre + g + r, rest, block_end(t, chunks, reps, i));
    assert(drop_lines(r + rest, 0) == r + rest);
    assert(drop_lines(rest, 0) == rest);
}

/// The untouched lines before chunk `i` in the rewritten text are lines of the
/// original.
proof fn lemma_gap_doc_lines(t: Seq<char>, chunks: Seq<Chunk>, outputs: Seq<Seq<char>>, i: int, j: int)
    requires
        chunks_of(t, chunks),
        clean_outputs(chunks, outputs),
        0 <= i < chunks.len(),
        0 <= j < newline_count(gap(t, chunks, i)),
    ensures
        line_at(
            rewritten(t, chunks, rendered(chunks, outputs)),
            newline_count(rewritten_prefix(t, chunks, rendered(chunks, outputs), i)) + j,
        ) == line_at(t, gap_start(chunks, i) + j),
{
    let reps = rendered(chunks, outputs);
    let pre = rewritten_prefix(t, chunks, reps, i);
    let g = gap(t, chunks, i);
    let r = reps[i];
    let rest = suffix_from(t, chunks, reps, i + 1);
    lemma_doc_shape(t, chunks, outputs, i);
    lemma_gap_lines(t, chunks, i);
    lemma_lines_of_concat(pre, g + (r + rest), (newline_count(pre) + j) as nat);
    lemma_lines_of_concat(g, r + rest, j as nat);
}

/// The lines after the last replacement are lines of the original.
proof fn lemma_tail_doc_lines(t: Seq<char>, chunks: Seq<Chunk>, outputs: Seq<Seq<char>>, j: int)
    requires
        chunks_of(t, chunks),
        clean_outputs(chunks, outputs),
        0 <= j,
    ensures
        line_at(
            rewritten(t, chunks, rendered(chunks, outputs)),
            newline_count(
                rewritten_prefix(t, chunks, rendered(chunks, outputs), chunks.len() as int),
            ) + j,
        ) == line_at(t, gap_start(chunks, chunks.len() as int) + j),
{
    let reps = rendered(chunks, outputs);
    let n = chunks.len() as int;
    let pre = rewritten_prefix(t, chunks, reps, n);
    let tl = tail(t, chunks, n);
    lemma_prefix_whole(t, chunks, outputs, n);
    assert(rewritten(t, chunks, reps) == pre + tl);
    lemma_lines_of_concat(pre, tl, (newline_count(pre) + j) as nat);
    crate::text::lemma_drop_lines_suffix(t, gap_start(chunks, n));
    lemma_drop_lines_add(t, gap_start(chunks, n), j as nat);
}

/// The lines of each replacement carry its chunk's characteristics.
proof fn lemma_block_key(t: Seq<char>, chunks: Seq<Chunk>, outputs: Seq<Seq<char>>, i: int, j: int)
    requires
        chunks_of(t, chunks),
        clean_outputs(chunks, outputs),
        0 <= i < chunks.len(),
        block_start(t, chunks, rendered(chunks, outputs), i) <= j < block_end(
            t,
            chunks,
            rendered(chunks, outputs),
            i,
        ),
    ensures
        key_at(rewritten(t, chunks, rendered(chunks, outputs)), j) == Some(
            chunks[i].characteristics,
        ),
{
    let reps = rendered(chunks, outputs);
    let bs = block_start(t, chunks, reps, i);
    assert(reps[i] == doc_lines(chunks[i].characteristics, outputs[i]));
    lemma_rendered_block(chunks[i].characteristics, outputs[i]);
    lemma_block_lines(t, chunks, outputs, i, j - bs);
    assert(key_at(reps[i], j - bs) == Some(chunks[i].characteristics));
}

/// The untouched lines before a replacement are no documentation lines.
proof fn lemma_gap_key(t: Seq<char>, chunks: Seq<Chunk>, outputs: Seq<Seq<char>>, i: int, j: int)
    requires
        chunks_of(t, chunks),
        clean_outputs(chunks, outputs),
        0 <= i < chunks.len(),
        newline_count(rewritten_prefix(t, chunks, rendered(chunks, outputs), i)) <= j
            < block_start(t, chunks, rendered(chunks, outputs), i),
    ensures
        key_at(rewritten(t, chunks, rendered(chunks, outputs)), j) is None,
{
    let reps = rendered(chunks, outputs);
    let p = newline_count(rewritten_prefix(t, chunks, reps, i));
    lemma_gap_lines(t, chunks, i);
    lemma_prefix_whole(t, chunks, outputs, i);
    lemma_gap_doc_lines(t, chunks, outputs, i, j - p);
    lemma_outside_chunks(t, chunks, i, gap_start(chunks, i) + j - p);
    assert(line_at(rewritten(t, chunks, reps), j) == line_at(t, gap_start(chunks, i) + j - p));
}

/// The untouched lines after the last replacement are no documentation lines.
proof fn lemma_tail_key(t: Seq<char>, chunks: Seq<Chunk>, outputs: Seq<Seq<char>>, j: int)
    requires
        chunks_of(t, chunks),
        clean_outputs(chunks, outputs),
        newline_count(rewritten_prefix(t, chunks, rendered(chunks, outputs), chunks.len() as int))
            <= j,
    ensures
        key_at(rewritten(t, chunks, rendered(chunks, outputs)), j) is None,
{
    let reps = rendered(chunks, outputs);
    let n = chunks.len() as int;
    let p = newline_count(rewritten_prefix(t, chunks, reps, n));
    lemma_tail_doc_lines(t, chunks, outputs, j - p);
    lemma_outside_chunks(t, chunks, n, gap_start(chunks, n) + j - p);
    assert(line_at(rewritten(t, chunks, reps), j) == line_at(t, gap_start(chunks, n) + j - p));
}

/// Two chunks with no line between them differ in characteristics.
proof fn lemma_neighbours_differ(t: Seq<char>, chunks: Seq<Chunk>, i: int)
    requires
        chunks_of(t, chunks),
        0 < i < chunks.len(),
        newline_count(gap(t, chunks, i)) == 0,
    ensures
        chunks[i - 1].characteristics != chunks[i].characteristics,
{
    lemma_gap_lines(t, chunks, i);
    assert(chunk_matches(t, chunks[i - 1]));
    assert(chunk_matches(t, chunks[i]));
}

/// The chunks found in the rewritten text agree with its blocks up to `k`.
pub open spec fn agrees_up_to(
    t: Seq<char>,
    chunks: Seq<Chunk>,
    reps: Seq<Seq<char>>,
    found: Seq<Chunk>,
    k: int,
) -> bool {
    &&& found.len() >= k
    &&& forall|i: int|
        0 <= i < k ==> (#[trigger] found[i]).lines.start == block_start(t, chunks, reps, i) + 1
            && found[i].lines.end == block_end(t, chunks, reps, i) + 1
            && found[i].characteristics == chunks[i].characteristics
}

/// A chunk found in the rewritten text that holds the first line of block `k`
/// starts there and has the block's characteristics.
proof fn lemma_found_start(
    t: Seq<char>,
    chunks: Seq<Chunk>,
    outputs: Seq<Seq<char>>,
    f: Chunk,
    k: int,
)
    requires
        chunks_of(t, chunks),
        clean_outputs(chunks, outputs),
        chunk_matches(rewritten(t, chunks, rendered(chunks, outputs)), f),
        0 <= k < chunks.len(),
        f.lines.start <= block_start(t, chunks, rendered(chunks, outputs), k) + 1 < f.lines.end,
    ensures
        f.characteristics == chunks[k].characteristics,
        f.lines.start == block_start(t, chunks, rendered(chunks, outputs), k) + 1,
{
    let reps = rendered(chunks, outputs);
    let d = rewritten(t, chunks, reps);
    let bs = block_start(t, chunks, reps, k) as int;
    let p = newline_count(rewritten_prefix(t, chunks, reps, k)) as int;
    lemma_prefix_whole(t, chunks, outputs, k);
    lemma_block_key(t, chunks, outputs, k, bs);
    assert(key_at(d, bs) == Some(f.characteristics));
    if f.lines.start - 1 < bs {
        assert(key_at(d, bs - 1) == Some(f.characteristics));
        if p < bs {
            lemma_gap_key(t, chunks, outputs, k, bs - 1);
        } else if k == 0 {
            assert(rewritten_prefix(t, chunks, reps, 0) == Seq::<char>::empty());
        } else {
            lemma_neighbours_differ(t, chunks, k);
            lemma_prefix_whole(t, chunks, outputs, k - 1);
            lemma_block_key(t, chunks, outputs, k - 1, bs - 1);
        }
    }
}

/// A chunk found in the rewritten text that starts at block `k` ends where
/// the block ends.
proof fn lemma_found_end(
    t: Seq<char>,
    chunks: Seq<Chunk>,
    outputs: Seq<Seq<char>>,
    f: Chunk,
    k: int,
)
    requires
        chunks_of(t, chunks),
        clean_outputs(chunks, outputs),
        chunk_matches(rewritten(t, chunks, rendered(chunks, outputs)), f),
        0 <= k < chunks.len(),
        f.lines.start == block_start(t, chunks, rendered(chunks, outputs), k) + 1,
        f.characteristics == chunks[k].characteristics,
    ensures
        f.lines.end == block_end(t, chunks, rendered(chunks, outputs), k) + 1,
{
    let reps = rendered(chunks, outputs);
    let d = rewritten(t, chunks, reps);
    let be = block_end(t, chunks, reps, k) as int;
    lemma_prefix_whole(t, chunks, outputs, k);
    if f.lines.end - 1 < be {
        lemma_block_key(t, chunks, outputs, k, f.lines.end - 1);
    }
    if f.lines.end - 1 > be {
        assert(key_at(d, be) == Some(f.characteristics));
        if k + 1 < chunks.len() {
            lemma_prefix_whole(t, chunks, outputs, k + 1);
            let p1 = newline_count(rewritten_prefix(t, chunks, reps, k + 1)) as int;
            if p1 < block_start(t, chunks, reps, k + 1) {
                lemma_gap_key(t, chunks, outputs, k + 1, be);
            } else {
                lemma_neighbours_differ(t, chunks, k + 1);
                lemma_block_key(t, chunks, outputs, k + 1, be);
            }
        } else {
            lemma_tail_key(t, chunks, outputs, be);
        }
    }
}

/// No chunk found before block `k` starts where block `k` starts.
proof fn lemma_not_earlier(
    t: Seq<char>,
    chunks: Seq<Chunk>,
    outputs: Seq<Seq<char>>,
    found: Seq<Chunk>,
    k: int,
    m: int,
)
    requires
        chunks_of(t, chunks),
        clean_outputs(chunks, outputs),
        0 <= m < k < chunks.len(),
        agrees_up_to(t, chunks, rendered(chunks, outputs), found, k),
    ensures
        found[m].lines.start != block_start(t, chunks, rendered(chunks, outputs), k) + 1,
{
    assert(found[m].lines.start == block_start(t, chunks, rendered(chunks, outputs), m) + 1);
    lemma_prefix_whole(t, chunks, outputs, m);
    lemma_prefix_counts_grow(t, chunks, outputs, m + 1, k);
}

/// No chunk is found between block `k - 1` and block `k`.
proof fn lemma_not_later(
    t: Seq<char>,
    chunks: Seq<Chunk>,
    outputs: Seq<Seq<char>>,
    found: Seq<Chunk>,
    k: int,
    m: int,
)
    requires
        chunks_of(t, chunks),
        clean_outputs(chunks, outputs),
        chunks_of(rewritten(t, chunks, rendered(chunks, outputs)), found),
        0 <= k < m < found.len(),
        k < chunks.len(),
        agrees_up_to(t, chunks, rendered(chunks, outputs), found, k),
    ensures
        found[m].lines.start != block_start(t, chunks, rendered(chunks, outputs), k) + 1,
{
    let reps = rendered(chunks, outputs);
    let d = rewritten(t, chunks, reps);
    let g = found[k];
    lemma_chunk_chain(d, found, k, m);
    assert(chunk_matches(d, g));
    lemma_prefix_whole(t, chunks, outputs, k);
    if k > 0 {
        lemma_chunk_chain(d, found, k - 1, k);
        lemma_prefix_whole(t, chunks, outputs, k - 1);
        assert(found[k - 1].lines.end == block_end(t, chunks, reps, k - 1) + 1);
    } else {
        assert(rewritten_prefix(t, chunks, reps, 0) == Seq::<char>::empty());
    }
    if found[m].lines.start == block_start(t, chunks, reps, k) + 1 {
        lemma_gap_key(t, chunks, outputs, k, g.lines.start - 1);
    }
}

/// The chunk that holds documentation line `j`.
proof fn covering_chunk(d: Seq<char>, found: Seq<Chunk>, j: int) -> (m: int)
    requires
        chunks_of(d, found),
        j >= 0,
        key_at(d, j) is Some,
    ensures
        0 <= m < found.len(),
        found[m].lines.start <= j + 1 < found[m].lines.end,
        chunk_matches(d, found[m]),
{
    choose|m: int| 0 <= m < found.len() && (#[trigger] found[m]).lines.start <= j + 1 < found[m].lines.end
}

/// Some chunk found in the rewritten text is exactly block `k`.
#[verifier::spinoff_prover]
proof fn found_at_block(
    t: Seq<char>,
    chunks: Seq<Chunk>,
    outputs: Seq<Seq<char>>,
    found: Seq<Chunk>,
    k: int,
) -> (m: int)
    requires
        chunks_of(t, chunks),
        clean_outputs(chunks, outputs),
        chunks_of(rewritten(t, chunks, rendered(chunks, outputs)), found),
        0 <= k < chunks.len(),
    ensures
        0 <= m < found.len(),
        found[m].lines.start == block_start(t, chunks, rendered(chunks, outputs), k) + 1,
        found[m].lines.end == block_end(t, chunks, rendered(chunks, outputs), k) + 1,
        found[m].characteristics == chunks[k].characteristics,
{
    let reps = rendered(chunks, outputs);
    let d = rewritten(t, chunks, reps);
    let bs = block_start(t, chunks, reps, k) as int;
    lemma_prefix_whole(t, chunks, outputs, k);
    lemma_block_key(t, chunks, outputs, k, bs);
    let m = covering_chunk(d, found, bs);
    lemma_found_start(t, chunks, outputs, found[m], k);
    lemma_found_end(t, chunks, outputs, found[m], k);
    m
}

#[verifier::spinoff_prover]
proof fn lemma_found_step(
    t: Seq<char>,
    chunks: Seq<Chunk>,
    outputs: Seq<Seq<char>>,
    found: Seq<Chunk>,
    k: int,
)
    requires
        chunks_of(t, chunks),
        clean_outputs(chunks, outputs),
        chunks_of(rewritten(t, chunks, rendered(chunks, outputs)), found),
        0 <= k < chunks.len(),
        agrees_up_to(t, chunks, rendered(chunks, outputs), found, k),
    ensures
        agrees_up_to(t, chunks, rendered(chunks, outputs), found, k + 1),
{
    let reps = rendered(chunks, outputs);
    let m = found_at_block(t, chunks, outputs, found, k);
    if m < k {
        lemma_not_earlier(t, chunks, outputs, found, k, m);
    }
    if m > k {
        lemma_not_later(t, chunks, outputs, found, k, m);
    }
    assert(m == k);
    assert forall|i: int| 0 <= i < k + 1 implies (#[trigger] found[i]).lines.start == block_start(
        t,
        chunks,
        reps,
        i,
    ) + 1 && found[i].lines.end == block_end(t, chunks, reps, i) + 1
        && found[i].characteristics == chunks[i].characteristics by {
        if i < k {
            assert(found[i].lines.start == block_start(t, chunks, reps, i) + 1);
        }
    }
}

proof fn lemma_found_prefix(
    t: Seq<char>,
    chunks: Seq<Chunk>,
    outputs: Seq<Seq<char>>,
    found: Seq<Chunk>,
    k: int,
)
    requires
        chunks_of(t, chunks),
        clean_outputs(chunks, outputs),
        chunks_of(rewritten(t, chunks, rendered(chunks, outputs)), found),
        0 <= k <= chunks.len(),
    ensures
        agrees_up_to(t, chunks, rendered(chunks, outputs), found, k),
    decreases k,
{
    if k > 0 {
        lemma_found_prefix(t, chunks, outputs, found, k - 1);
        lemma_found_step(t, chunks, outputs, found, k - 1);
    }
}

proof fn lemma_payload_text_shift(d: Seq<char>, r: Seq<char>, s: int, k: int)
    requires
        0 <= k,
        forall|j: int| 0 <= j < k ==> line_at(d, s + j) == line_at(r, j),
    ensures
        payload_text(d, s, s + k) == payload_text(r, 0, k),
    decreases k,
{
    if k > 0 {
        lemma_payload_text_shift(d, r, s, k - 1);
        assert(line_at(d, s + (k - 1)) == line_at(r, k - 1));
    }
}

/// A chunk found at block `i` holds the agent's lines, and its lines are the
/// replacement of chunk `i`.
proof fn lemma_found_block(
    t: Seq<char>,
    chunks: Seq<Chunk>,
    outputs: Seq<Seq<char>>,
    f: Chunk,
    i: int,
)
    requires
        chunks_of(t, chunks),
        clean_outputs(chunks, outputs),
        chunk_matches(rewritten(t, chunks, rendered(chunks, outputs)), f),
        0 <= i < chunks.len(),
        f.lines.start == block_start(t, chunks, rendered(chunks, outputs), i) + 1,
        f.lines.end == block_end(t, chunks, rendered(chunks, outputs), i) + 1,
    ensures
        f.docs@ == normalized(outputs[i]),
        span_text(rewritten(t, chunks, rendered(chunks, outputs)), f) == rendered(
            chunks,
            outputs,
        )[i],
{
    let reps = rendered(chunks, outputs);
    let d = rewritten(t, chunks, reps);
    let r = reps[i];
    let bs = block_start(t, chunks, reps, i) as int;
    let be = block_end(t, chunks, reps, i) as int;
    assert(r == doc_lines(chunks[i].characteristics, outputs[i]));
    lemma_rendered_block(chunks[i].characteristics, outputs[i]);
    assert forall|j: int| 0 <= j < be - bs implies line_at(d, bs + j) == line_at(r, j) by {
        lemma_block_lines(t, chunks, outputs, i, j);
    }
    lemma_payload_text_shift(d, r, bs, be - bs);
    lemma_block_drops(t, chunks, outputs, i);
    let suf = suffix_from(t, chunks, reps, i + 1);
    crate::text::lemma_drop_lines_suffix(d, bs as nat);
    crate::text::lemma_drop_lines_suffix(d, be as nat);
    assert(d.skip(line_start(d, bs as nat)) == r + suf);
    assert(d.subrange(line_start(d, bs as nat), line_start(d, be as nat)) =~= (r + suf).take(
        r.len() as int,
    ));
    assert((r + suf).take(r.len() as int) =~= r);
}

/// The chunks of the rewritten text are its replacements: one for each chunk
/// of the original, in order, with the same characteristics. Each holds the
/// lines the agent returned, and spans exactly its replacement.
pub proof fn lemma_rewritten_chunks(
    t: Seq<char>,
    chunks: Seq<Chunk>,
    outputs: Seq<Seq<char>>,
    found: Seq<Chunk>,
)
    requires
        chunks_of(t, chunks),
        clean_outputs(chunks, outputs),
        chunks_of(rewritten(t, chunks, rendered(chunks, outputs)), found),
    ensures
        found.len() == chunks.len(),
        forall|i: int|
            0 <= i < found.len() ==> (#[trigger] found[i]).characteristics
                == chunks[i].characteristics && found[i].docs@ == normalized(outputs[i])
                && span_text(rewritten(t, chunks, rendered(chunks, outputs)), found[i]) == rendered(
                chunks,
                outputs,
            )[i],
{
    let reps = rendered(chunks, outputs);
    let d = rewritten(t, chunks, reps);
    let n = chunks.len() as int;
    lemma_found_prefix(t, chunks, outputs, found, n);
    if found.len() > n {
        let g = found[n];
        assert(chunk_matches(d, g));
        if n > 0 {
            lemma_chunk_chain(d, found, n - 1, n);
            lemma_prefix_whole(t, chunks, outputs, n - 1);
        } else {
            assert(rewritten_prefix(t, chunks, reps, 0) == Seq::<char>::empty());
        }
        lemma_tail_key(t, chunks, outputs, g.lines.start - 1);
    }
    assert forall|i: int| 0 <= i < found.len() implies (#[trigger] found[i]).characteristics
        == chunks[i].characteristics && found[i].docs@ == normalized(outputs[i]) && span_text(
        d,
        found[i],
    ) == reps[i] by {
        assert(chunk_matches(d, found[i]));
        lemma_found_block(t, chunks, outputs, found[i], i);
    }
}

/// Running again on the output changes nothing. Take a text, its chunks, and
/// agent outputs that are not empty and hold no `'\r'`; rewrite the text with
/// them; then take the chunks of the result and, for each, agent output that
/// renders as the chunk's own payload does (an agent that leaves formatted
/// text as it is). Rewriting the result with those gives it back byte for
/// byte. An empty output is left out: a chunk that vanishes can let its
/// neighbours merge into one chunk on the second run.
pub proof fn lemma_second_run_changes_nothing(
    t: Seq<char>,
    chunks: Seq<Chunk>,
    outputs: Seq<Seq<char>>,
    found: Seq<Chunk>,
    outputs2: Seq<Seq<char>>,
)
    requires
        chunks_of(t, chunks),
        clean_outputs(chunks, outputs),
        chunks_of(rewritten(t, chunks, rendered(chunks, outputs)), found),
        outputs2.len() == found.len(),
        forall|i: int|
            0 <= i < found.len() ==> doc_lines(found[i].characteristics, #[trigger] outputs2[i])
                == doc_lines(found[i].characteristics, found[i].docs@),
    ensures
        rewritten(
            rewritten(t, chunks, rendered(chunks, outputs)),
            found,
            rendered(found, outputs2),
        ) == rewritten(t, chunks, rendered(chunks, outputs)),
{
    let reps = rendered(chunks, outputs);
    let d = rewritten(t, chunks, reps);
    lemma_rewritten_chunks(t, chunks, outputs, found);
    assert forall|i: int| 0 <= i < found.len() implies rendered(found, outputs2)[i] == span_texts(
        d,
        found,
    )[i] by {
        let c = chunks[i].characteristics;
        assert(found[i].characteristics == c);
        assert(outputs2[i] == outputs2[i]);
        lemma_rerender_is_identity(c, outputs[i]);
        assert(reps[i] == doc_lines(c, outputs[i]));
    }
    assert(rendered(found, outputs2) =~= span_texts(d, found));
    lemma_untouched_text_restores_original(d, found);
}

} // verus!
