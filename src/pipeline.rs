use crate::extract::{
    chunk, chunk_matches, chunks_of, lemma_key_has_line, Characteristics, Chunk,
};
use crate::render::{doc_lines, postprocess_docs};
use crate::rewrite::{
    rewriter_contents, rewriter_line, rewriter_new, rewriter_output, rewriter_rest,
    rewriter_rewrite, LineRewriter,
};
use crate::text::{
    drop_lines, lemma_drop_lines_add, lemma_drop_lines_suffix, lemma_take_lines_of_rest,
    line_start,
};
use vstd::prelude::*;
use vstd::utf8::{decode_utf8, valid_utf8};

verus! {

/// Why formatting a file stopped.
#[derive(Clone, Copy, Debug, PartialEq, Eq, Structural)]
pub enum FormatError {
    /// The agent for the chunk on lines `start..end` did not exit successfully;
    /// `code` is its exit code, if it has one.
    AgentFailure { start: usize, end: usize, code: Option<i32> },
    /// The agent for the chunk on lines `start..end` wrote text that is not UTF-8.
    MalformedOutput { start: usize, end: usize },
    /// Cancellation was requested before all chunks were formatted.
    Interrupted,
}

/// What the driver of a file does next.
#[derive(Clone, Copy, Debug, PartialEq, Eq, Structural)]
pub enum Step {
    /// Hand chunk `index` to its agent and pass its output to `accept_output`.
    Format(usize),
    /// Stop: cancellation was requested.
    Interrupted,
    /// Every chunk is rewritten: take the result with `finish`.
    Done,
}

/// How many lines of the original precede the text that follows chunk
/// `i - 1` (all lines before chunk 0 when `i` is 0).
pub open spec fn gap_start(chunks: Seq<Chunk>, i: int) -> nat {
    if i <= 0 {
        0
    } else {
        (chunks[i - 1].lines.end - 1) as nat
    }
}

/// The original text between chunk `i - 1` (or the start) and chunk `i`.
pub open spec fn gap(t: Seq<char>, chunks: Seq<Chunk>, i: int) -> Seq<char> {
    t.subrange(
        line_start(t, gap_start(chunks, i)),
        line_start(t, (chunks[i].lines.start - 1) as nat),
    )
}

/// The untouched text before each of the first `n` chunks, each followed by
/// the replacement of that chunk.
pub open spec fn rewritten_prefix(
    t: Seq<char>,
    chunks: Seq<Chunk>,
    reps: Seq<Seq<char>>,
    n: int,
) -> Seq<char>
    decreases n,
{
    if n <= 0 {
        Seq::empty()
    } else {
        rewritten_prefix(t, chunks, reps, n - 1) + gap(t, chunks, n - 1) + reps[n - 1]
    }
}

/// The text of `t` after the last of its first `n` chunks.
pub open spec fn tail(t: Seq<char>, chunks: Seq<Chunk>, n: int) -> Seq<char> {
    t.skip(line_start(t, gap_start(chunks, n)))
}

/// `t` with the lines of each chunk replaced by the corresponding replacement.
pub open spec fn rewritten(t: Seq<char>, chunks: Seq<Chunk>, reps: Seq<Seq<char>>) -> Seq<char> {
    rewritten_prefix(t, chunks, reps, chunks.len() as int) + tail(t, chunks, chunks.len() as int)
}

/// Relies on `String::from_utf8`: it succeeds exactly on valid UTF-8, and the
/// string holds the decoded characters.
#[verifier::external_body]
fn decode_output(bytes: Vec<u8>) -> (r: Option<String>)
    ensures
        r is Some <==> valid_utf8(bytes@),
        r is Some ==> r->0@ == decode_utf8(bytes@),
{
    match String::from_utf8(bytes) {
        Ok(s) => Some(s),
        Err(_) => None,
    }
}

/// The rewriting of one file: its chunks, how many of them have been
/// rewritten, and the text assembled so far.
pub struct FilePipeline<'a> {
    chunks: Vec<Chunk>,
    next: usize,
    rewriter: LineRewriter<'a>,
    original: Ghost<Seq<char>>,
    replacements: Ghost<Seq<Seq<char>>>,
}

impl<'a> FilePipeline<'a> {
    /// The text of the file.
    pub closed spec fn original(&self) -> Seq<char> {
        self.original@
    }

    /// The chunks of the file, in order.
    pub closed spec fn chunk_list(&self) -> Seq<Chunk> {
        self.chunks@
    }

    /// How many chunks have been rewritten.
    pub closed spec fn done(&self) -> nat {
        self.next as nat
    }

    /// What replaced each rewritten chunk, in chunk order.
    pub closed spec fn replacements(&self) -> Seq<Seq<char>> {
        self.replacements@
    }

    /// The line at which the text not yet copied starts.
    spec fn resume_line(&self) -> nat {
        if self.next == 0 {
            1
        } else {
            self.chunks@[self.next - 1].lines.end as nat
        }
    }

    pub closed spec fn wf(&self) -> bool {
        &&& chunks_of(self.original@, self.chunks@)
        &&& self.next <= self.chunks.len()
        &&& self.replacements@.len() == self.next
        &&& rewriter_output(self.rewriter) == rewritten_prefix(
            self.original@,
            self.chunks@,
            self.replacements@,
            self.next as int,
        )
        &&& rewriter_line(self.rewriter) == self.resume_line()
        &&& rewriter_rest(self.rewriter) == tail(self.original@, self.chunks@, self.next as int)
    }

    /// One replacement has been recorded for each chunk rewritten so far:
    /// replacement `k` belongs to chunk `k`.
    pub proof fn lemma_one_replacement_per_chunk(&self)
        requires
            self.wf(),
        ensures
            self.replacements().len() == self.done(),
            self.done() <= self.chunk_list().len(),
    {
    }

    /// Starts the rewriting of `contents`: finds its chunks, none rewritten yet.
    pub fn new(contents: &'a str) -> (p: FilePipeline<'a>)
        requires
            contents@.len() < usize::MAX,
        ensures
            p.wf(),
            p.original() == contents@,
            chunks_of(contents@, p.chunk_list()),
            p.done() == 0,
            p.replacements() == Seq::<Seq<char>>::empty(),
    {
        let chunks = chunk(contents);
        let rewriter = rewriter_new(contents);
        proof {
            assert(drop_lines(contents@, 0) == contents@);
            lemma_drop_lines_suffix(contents@, 0);
        }
        FilePipeline {
            chunks,
            next: 0,
            rewriter,
            original: Ghost(contents@),
            replacements: Ghost(Seq::empty()),
        }
    }

    /// The chunks of the file, in order.
    pub fn chunks(&self) -> (r: &Vec<Chunk>)
        ensures
            r@ == self.chunk_list(),
    {
        &self.chunks
    }

    /// The characteristics of each chunk, in order: what the agents are
    /// configured from.
    pub fn characteristics(&self) -> (r: Vec<Characteristics>)
        ensures
            r@.len() == self.chunk_list().len(),
            forall|i: int| 0 <= i < r@.len() ==> r@[i] == self.chunk_list()[i].characteristics,
    {
        let mut r: Vec<Characteristics> = Vec::new();
        let mut i: usize = 0;
        while i < self.chunks.len()
            invariant
                i <= self.chunks.len(),
                r@.len() == i,
                forall|k: int| 0 <= k < i ==> r@[k] == self.chunks@[k].characteristics,
            decreases self.chunks.len() - i,
        {
            r.push(self.chunks[i].characteristics);
            i = i + 1;
        }
        r
    }

    /// Decides what to do next. Cancellation is honoured only while chunks
    /// remain; the next chunk to format is always the first one not yet
    /// rewritten.
    pub fn poll(&self, cancelled: bool) -> (s: Step)
        requires
            self.wf(),
        ensures
            self.done() == self.chunk_list().len() ==> s == Step::Done,
            self.done() < self.chunk_list().len() && cancelled ==> s == Step::Interrupted,
            self.done() < self.chunk_list().len() && !cancelled ==> s == Step::Format(
                self.done() as usize,
            ),
    {
        if self.next == self.chunks.len() {
            Step::Done
        } else if cancelled {
            Step::Interrupted
        } else {
            Step::Format(self.next)
        }
    }

    /// Takes the agent's result for the next chunk. On success its output,
    /// turned back into documentation lines, replaces that chunk's lines.
    /// An unsuccessful exit or output that is not UTF-8 fails with the
    /// chunk's line range and leaves the pipeline as it was.
    pub fn accept_output(&mut self, success: bool, code: Option<i32>, stdout: Vec<u8>) -> (r:
        Result<(), FormatError>)
        requires
            old(self).wf(),
            old(self).done() < old(self).chunk_list().len(),
        ensures
            final(self).wf(),
            final(self).original() == old(self).original(),
            final(self).chunk_list() == old(self).chunk_list(),
            ({
                let c = old(self).chunk_list()[old(self).done() as int];
                &&& !success ==> r == Err::<(), FormatError>(
                    FormatError::AgentFailure { start: c.lines.start, end: c.lines.end, code },
                )
                &&& success && !valid_utf8(stdout@) ==> r == Err::<(), FormatError>(
                    FormatError::MalformedOutput { start: c.lines.start, end: c.lines.end },
                )
                &&& r is Err ==> final(self).done() == old(self).done()
                    && final(self).replacements() == old(self).replacements()
                &&& success && valid_utf8(stdout@) ==> r is Ok && final(self).done()
                    == old(self).done() + 1 && final(self).replacements()
                    == old(self).replacements().push(
                    doc_lines(c.characteristics, decode_utf8(stdout@)),
                )
            }),
    {
        let i = self.next;
        let start = self.chunks[i].lines.start;
        let end = self.chunks[i].lines.end;
        if !success {
            return Err(FormatError::AgentFailure { start, end, code });
        }
        let text = match decode_output(stdout) {
            Some(text) => text,
            None => {
                return Err(FormatError::MalformedOutput { start, end });
            },
        };
        let docs = postprocess_docs(self.chunks[i].characteristics, text.as_str());
        let ghost t = self.original@;
        let ghost cs = self.chunks@;
        let ghost line = self.resume_line();
        proof {
            assert(chunk_matches(t, cs[i as int]));
            lemma_key_has_line(t, start - 1);
            if i > 0 {
                assert(cs[i - 1].lines.end <= cs[i as int].lines.start);
                assert(chunk_matches(t, cs[i - 1]));
            }
            lemma_take_lines_of_rest(t, (line - 1) as nat, (start - line) as nat);
            lemma_take_lines_of_rest(t, (line - 1) as nat, (end - line) as nat);
            lemma_drop_lines_add(t, (line - 1) as nat, (start - line) as nat);
            lemma_drop_lines_suffix(t, (line - 1) as nat);
            assert(drop_lines(t, (start - 1) as nat).len() > 0);
        }
        rewriter_rewrite(&mut self.rewriter, start, end, docs.as_str());
        self.next = i + 1;
        self.replacements = Ghost(self.replacements@.push(docs@));
        proof {
            let reps = self.replacements@;
            assert(rewritten_prefix(t, cs, reps, i as int) == rewritten_prefix(
                t,
                cs,
                old(self).replacements@,
                i as int,
            )) by {
                lemma_prefix_ignores_later(t, cs, old(self).replacements@, reps, i as int);
            }
        }
        Ok(())
    }

    /// The rewritten text, once every chunk has been rewritten: the original
    /// with each chunk's lines replaced by its replacement.
    pub fn finish(self) -> (r: String)
        requires
            self.wf(),
            self.done() == self.chunk_list().len(),
        ensures
            r@ == rewritten(self.original(), self.chunk_list(), self.replacements()),
    {
        rewriter_contents(self.rewriter)
    }
}

/// The assembled text of the first `n` chunks depends only on their
/// replacements.
proof fn lemma_prefix_ignores_later(
    t: Seq<char>,
    chunks: Seq<Chunk>,
    a: Seq<Seq<char>>,
    b: Seq<Seq<char>>,
    n: int,
)
    requires
        n <= a.len(),
        n <= b.len(),
        forall|k: int| 0 <= k < n ==> a[k] == b[k],
    ensures
        rewritten_prefix(t, chunks, a, n) == rewritten_prefix(t, chunks, b, n),
    decreases n,
{
    if n > 0 {
        lemma_prefix_ignores_later(t, chunks, a, b, n - 1);
    }
}

/// The original text of the lines of chunk `c`.
pub open spec fn span_text(t: Seq<char>, c: Chunk) -> Seq<char> {
    t.subrange(line_start(t, (c.lines.start - 1) as nat), line_start(t, (c.lines.end - 1) as nat))
}

/// The original text of each chunk's lines, in order.
pub open spec fn span_texts(t: Seq<char>, chunks: Seq<Chunk>) -> Seq<Seq<char>> {
    Seq::new(chunks.len(), |i: int| span_text(t, chunks[i]))
}

proof fn lemma_prefix_of_span_texts(t: Seq<char>, chunks: Seq<Chunk>, n: int)
    requires
        chunks_of(t, chunks),
        0 <= n <= chunks.len(),
    ensures
        rewritten_prefix(t, chunks, span_texts(t, chunks), n) == t.take(
            line_start(t, gap_start(chunks, n)),
        ),
        line_start(t, gap_start(chunks, n)) <= t.len(),
    decreases n,
{
    lemma_drop_lines_suffix(t, gap_start(chunks, n));
    if n > 0 {
        lemma_prefix_of_span_texts(t, chunks, n - 1);
        let c = chunks[n - 1];
        assert(chunk_matches(t, c));
        if n > 1 {
            assert(chunks[n - 2].lines.end <= chunks[n - 1].lines.start);
        }
        crate::text::lemma_line_start_monotonic(
            t,
            gap_start(chunks, n - 1),
            (c.lines.start - 1) as nat,
        );
        crate::text::lemma_line_start_monotonic(
            t,
            (c.lines.start - 1) as nat,
            (c.lines.end - 1) as nat,
        );
        lemma_drop_lines_suffix(t, (c.lines.end - 1) as nat);
        lemma_drop_lines_suffix(t, (c.lines.start - 1) as nat);
        lemma_drop_lines_suffix(t, gap_start(chunks, n - 1));
        assert(gap_start(chunks, n) == (c.lines.end - 1) as nat);
        assert(t.take(line_start(t, gap_start(chunks, n - 1))) + gap(t, chunks, n - 1) + span_text(
            t,
            c,
        ) =~= t.take(line_start(t, gap_start(chunks, n))));
    } else {
        assert(t.take(0) =~= Seq::<char>::empty());
    }
}

/// Nothing outside the chunks is lost or altered: the untouched text between
/// chunks, interleaved in order with each chunk's own original lines, gives
/// back the original exactly.
pub proof fn lemma_untouched_text_restores_original(t: Seq<char>, chunks: Seq<Chunk>)
    requires
        chunks_of(t, chunks),
    ensures
        rewritten(t, chunks, span_texts(t, chunks)) == t,
{
    lemma_prefix_of_span_texts(t, chunks, chunks.len() as int);
    lemma_drop_lines_suffix(t, gap_start(chunks, chunks.len() as int));
    assert(t.take(line_start(t, gap_start(chunks, chunks.len() as int))) + tail(
        t,
        chunks,
        chunks.len() as int,
    ) =~= t);
}

} // verus!
