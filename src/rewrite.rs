use crate::text::{drop_lines, take_lines};
use vstd::prelude::*;

verus! {

/// A `rewriter::Rewriter` over an original text, replacing whole lines.
/// Verus sees it only through the three names below.
#[verifier::external_body]
pub struct LineRewriter<'a> {
    inner: rewriter::Rewriter<'a>,
}

/// What a `LineRewriter` has assembled so far.
pub uninterp spec fn rewriter_output(r: LineRewriter) -> Seq<char>;

/// The part of the original text that a `LineRewriter` has not yet copied.
pub uninterp spec fn rewriter_rest(r: LineRewriter) -> Seq<char>;

/// The line at which the last rewritten span of a `LineRewriter` ended.
pub uninterp spec fn rewriter_line(r: LineRewriter) -> nat;

/// Relies on `rewriter::Rewriter::new`: nothing is assembled yet, the whole
/// original remains, and the position is the start of line 1.
#[verifier::external_body]
pub(crate) fn rewriter_new<'a>(original: &'a str) -> (r: LineRewriter<'a>)
    ensures
        rewriter_output(r) == Seq::<char>::empty(),
        rewriter_rest(r) == original@,
        rewriter_line(r) == 1,
{
    LineRewriter { inner: rewriter::Rewriter::new(original) }
}

/// Relies on `rewriter::Rewriter::rewrite` with a span from column 0 of line
/// `start` to column 0 of line `end`. It panics unless `start` is at or after
/// the end of the previous span. It finds offsets by splitting the original at
/// `'\n'`, copies the original from the previous end offset up to the start
/// offset, appends `replacement`, and resumes at the end offset, clamped to the
/// length of the original. A start offset at or past the end of the original
/// is left out here: the crate then returns early.
#[verifier::external_body]
pub(crate) fn rewriter_rewrite(r: &mut LineRewriter, start: usize, end: usize, replacement: &str)
    requires
        rewriter_line(*old(r)) <= start <= end,
        drop_lines(rewriter_rest(*old(r)), (start - rewriter_line(*old(r))) as nat).len() > 0,
    ensures
        rewriter_output(*final(r)) == rewriter_output(*old(r)) + take_lines(
            rewriter_rest(*old(r)),
            (start - rewriter_line(*old(r))) as nat,
        ) + replacement@,
        rewriter_rest(*final(r)) == drop_lines(
            rewriter_rest(*old(r)),
            (end - rewriter_line(*old(r))) as nat,
        ),
        rewriter_line(*final(r)) == end,
{
    let start = rewriter::LineColumn { line: start, column: 0 };
    let end = rewriter::LineColumn { line: end, column: 0 };
    let _: String = r.inner.rewrite(&rewriter::Span::new(start, end), replacement);
}

/// Relies on `rewriter::Rewriter::contents`: what was assembled, followed by
/// the rest of the original.
#[verifier::external_body]
pub(crate) fn rewriter_contents(r: LineRewriter) -> (s: String)
    ensures
        s@ == rewriter_output(r) + rewriter_rest(r),
{
    r.inner.contents()
}

} // verus!
