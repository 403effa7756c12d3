use crate::extract::Characteristics;
use crate::text::{chars_of, string_from_chars};
use vstd::prelude::*;

verus! {

/// What a run was asked to do.
#[derive(Clone)]
pub struct Options {
    /// Preferred maximum width of a formatted line
    pub max_width: Option<usize>,
    /// Source files to format
    pub patterns: Vec<String>,
    /// Whether `args` includes `--check` and thus files should not be overwritten
    pub check: bool,
    /// Arguments to pass to the agent
    pub args: Vec<String>,
}

impl Options {
    /// No width, no files, no passthrough arguments, files are written.
    pub fn new() -> (o: Options)
        ensures
            o.max_width is None,
            o.patterns@.len() == 0,
            !o.check,
            o.args@.len() == 0,
    {
        Options { max_width: None, patterns: Vec::new(), check: false, args: Vec::new() }
    }
}

/// The decimal digits of `n`.
pub open spec fn decimal(n: nat) -> Seq<char>
    decreases n,
{
    if n < 10 {
        seq![digit(n)]
    } else {
        decimal(n / 10) + seq![digit(n % 10)]
    }
}

/// The character of a decimal digit.
pub open spec fn digit(d: nat) -> char {
    seq!['0', '1', '2', '3', '4', '5', '6', '7', '8', '9'][d as int]
}

fn digit_char(d: usize) -> (c: char)
    requires
        d < 10,
    ensures
        c == digit(d as nat),
{
    match d {
        0 => '0',
        1 => '1',
        2 => '2',
        3 => '3',
        4 => '4',
        5 => '5',
        6 => '6',
        7 => '7',
        8 => '8',
        _ => '9',
    }
}

/// Appends the decimal digits of `n`.
pub fn push_decimal(out: &mut Vec<char>, n: usize)
    ensures
        final(out)@ == old(out)@ + decimal(n as nat),
    decreases n,
{
    if n >= 10 {
        push_decimal(out, n / 10);
    }
    out.push(digit_char(n % 10));
    assert(out@ =~= old(out)@ + decimal(n as nat));
}

/// The width left for the text of a line of `indent` spaces, a marker and
/// a space, out of `max_width`; 0 when nothing is left.
pub open spec fn print_width(max_width: nat, indent: nat) -> nat {
    if max_width >= indent + 4 {
        (max_width - indent - 4) as nat
    } else {
        0
    }
}

/// The arguments the agent for a chunk with `characteristics` is started with.
pub open spec fn agent_args_spec(
    max_width: Option<usize>,
    indent: nat,
    args: Seq<Seq<char>>,
) -> Seq<Seq<char>> {
    seq!["--parser=markdown"@] + match max_width {
        Some(w) => seq![
            "--prose-wrap=always"@,
            "--print-width="@ + decimal(print_width(w as nat, indent)),
        ],
        None => Seq::empty(),
    } + args
}

/// The views of a list of strings.
pub open spec fn views(v: Seq<String>) -> Seq<Seq<char>> {
    Seq::new(v.len(), |i: int| v[i]@)
}

/// The arguments for the agent of a chunk: markdown input, then, when a
/// maximum width is configured, prose wrapping at that width less the
/// indentation, the marker and a space, then the passthrough arguments.
pub fn prettier_args(opts: &Options, characteristics: Characteristics) -> (r: Vec<String>)
    ensures
        views(r@) == agent_args_spec(
            opts.max_width,
            characteristics.indent as nat,
            views(opts.args@),
        ),
{
    let mut r: Vec<String> = Vec::new();
    r.push("--parser=markdown".to_owned());
    match opts.max_width {
        Some(w) => {
            r.push("--prose-wrap=always".to_owned());
            let mut width = chars_of("--print-width=");
            let indent = characteristics.indent;
            let n = if w >= indent && w - indent >= 4 {
                w - indent - 4
            } else {
                0
            };
            push_decimal(&mut width, n);
            r.push(string_from_chars(&width));
        },
        None => {},
    }
    let ghost base = views(r@);
    let mut k: usize = 0;
    while k < opts.args.len()
        invariant
            k <= opts.args.len(),
            views(r@) == base + views(opts.args@).take(k as int),
        decreases opts.args.len() - k,
    {
        let ghost before = r@;
        let a = opts.args[k].clone();
        r.push(a);
        assert(r@ == before.push(a));
        assert(views(r@) =~= views(before).push(opts.args@[k as int]@));
        assert(views(r@) =~= base + views(opts.args@).take(k + 1));
        k = k + 1;
    }
    assert(views(opts.args@).take(opts.args.len() as int) =~= views(opts.args@));
    assert(views(r@) =~= agent_args_spec(
        opts.max_width,
        characteristics.indent as nat,
        views(opts.args@),
    ));
    r
}

} // verus!
