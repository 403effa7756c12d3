use crate::agent::{views, Options};
use crate::text::chars_of;
use vstd::string::StrSliceExecFns;
use vstd::prelude::*;

verus! {

/// Whether `c` is an ASCII decimal digit.
pub open spec fn is_digit(c: char) -> bool {
    48 <= c as u32 <= 57
}

/// The number that the decimal digits `d` spell.
pub open spec fn digits_value(d: Seq<char>) -> nat
    decreases d.len(),
{
    if d.len() == 0 {
        0
    } else {
        digits_value(d.drop_last()) * 10 + (d.last() as u32 - 48) as nat
    }
}

/// `s` without a leading `+`.
pub open spec fn unsigned_part(s: Seq<char>) -> Seq<char> {
    if s.len() > 0 && s[0] == '+' {
        s.drop_first()
    } else {
        s
    }
}

/// Every character of `d` is a decimal digit.
pub open spec fn all_digits(d: Seq<char>) -> bool {
    forall|k: int| 0 <= k < d.len() ==> is_digit(#[trigger] d[k])
}

/// What `str::parse::<usize>` accepts: an optional `+`, then one or more
/// decimal digits, whose value fits in `usize`.
pub open spec fn parse_usize_spec(s: Seq<char>) -> Option<usize> {
    let d = unsigned_part(s);
    if d.len() > 0 && all_digits(d) && digits_value(d) <= usize::MAX {
        Some(digits_value(d) as usize)
    } else {
        None
    }
}

proof fn lemma_digits_value_grows(d: Seq<char>, k: int)
    requires
        0 <= k <= d.len(),
        forall|m: int| 0 <= m < d.len() ==> is_digit(#[trigger] d[m]),
    ensures
        digits_value(d.take(k)) <= digits_value(d),
    decreases d.len() - k,
{
    if k < d.len() {
        lemma_digits_value_grows(d, k + 1);
        assert(d.take(k + 1).drop_last() =~= d.take(k));
    } else {
        assert(d.take(k) =~= d);
    }
}

/// Parses `t[from..]` as `str::parse::<usize>` does.
fn parse_usize(t: &Vec<char>, from: usize) -> (r: Option<usize>)
    requires
        from <= t.len(),
    ensures
        r == parse_usize_spec(t@.skip(from as int)),
{
    let ghost s = t@.skip(from as int);
    let n = t.len();
    let start = if from < n && t[from] == '+' {
        from + 1
    } else {
        from
    };
    let ghost d = t@.skip(start as int);
    assert(d =~= unsigned_part(s));
    if start == n {
        return None;
    }
    let mut value: usize = 0;
    let mut k = start;
    while k < n
        invariant
            start <= k <= n,
            n == t.len(),
            d == t@.skip(start as int),
            s == t@.skip(from as int),
            d == unsigned_part(s),
            forall|m: int| 0 <= m < k - start ==> is_digit(#[trigger] d[m]),
            value == digits_value(d.take(k - start)),
        decreases n - k,
    {
        let c = t[k];
        let u = c as u32;
        assert(d[k - start] == c);
        if u < 48 || u > 57 {
            assert(!is_digit(d[k - start]));
            return None;
        }
        assert(is_digit(d[k - start]));
        assert(digits_value(d.take(k - start + 1)) == value * 10 + (u - 48) as nat) by {
            assert(d.take(k - start + 1).drop_last() =~= d.take(k - start));
        }
        match value.checked_mul(10) {
            None => {
                proof {
                    lemma_value_too_big(t, d, start, k);
                }
                return None;
            },
            Some(v10) => match v10.checked_add((u - 48) as usize) {
                None => {
                    proof {
                        lemma_value_too_big(t, d, start, k);
                    }
                    return None;
                },
                Some(v) => {
                    value = v;
                },
            },
        }
        k = k + 1;
    }
    assert(d.take(n - start) =~= d);
    Some(value)
}

/// Once a prefix of digits is too big, the whole is too big or has a non-digit.
proof fn lemma_value_too_big(t: &Vec<char>, d: Seq<char>, start: usize, k: usize)
    requires
        start <= k < t.len(),
        d == t@.skip(start as int),
        forall|m: int| 0 <= m <= k - start ==> is_digit(#[trigger] d[m]),
        digits_value(d.take(k - start + 1)) > usize::MAX,
    ensures
        !(d.len() > 0 && all_digits(d) && digits_value(d) <= usize::MAX),
{
    if d.len() > 0 && all_digits(d) {
        lemma_digits_value_grows(d, k - start + 1);
    }
}

/// What `str::to_lowercase` returns for `s`.
pub uninterp spec fn lower_of(s: Seq<char>) -> Seq<char>;

/// Relies on `str::to_lowercase`: the result depends on the characters alone.
#[verifier::external_body]
fn lowercase(s: &str) -> (r: String)
    ensures
        r@ == lower_of(s@),
{
    s.to_lowercase()
}

pub open spec fn has_prefix(s: Seq<char>, p: Seq<char>) -> bool {
    p.len() <= s.len() && s.take(p.len() as int) == p
}

pub open spec fn has_suffix(s: Seq<char>, p: Seq<char>) -> bool {
    p.len() <= s.len() && s.skip(s.len() - p.len()) == p
}

fn starts_with(s: &Vec<char>, p: &Vec<char>) -> (r: bool)
    ensures
        r == has_prefix(s@, p@),
{
    if p.len() > s.len() {
        return false;
    }
    let mut k: usize = 0;
    while k < p.len()
        invariant
            k <= p.len() <= s.len(),
            s@.take(k as int) == p@.take(k as int),
        decreases p.len() - k,
    {
        if s[k] != p[k] {
            assert(s@.take(p.len() as int)[k as int] != p@[k as int]);
            return false;
        }
        assert(s@.take(k + 1) =~= s@.take(k as int).push(s@[k as int]));
        assert(p@.take(k + 1) =~= p@.take(k as int).push(p@[k as int]));
        k = k + 1;
    }
    assert(p@.take(p.len() as int) =~= p@);
    true
}

fn ends_with(s: &Vec<char>, p: &Vec<char>) -> (r: bool)
    ensures
        r == has_suffix(s@, p@),
{
    if p.len() > s.len() {
        return false;
    }
    let base = s.len() - p.len();
    let mut k: usize = 0;
    while k < p.len()
        invariant
            k <= p.len() <= s.len(),
            base == s.len() - p.len(),
            forall|m: int| 0 <= m < k ==> s@[base + m] == p@[m],
        decreases p.len() - k,
    {
        if s[base + k] != p[k] {
            assert(s@.skip(base as int)[k as int] != p@[k as int]);
            return false;
        }
        k = k + 1;
    }
    assert(s@.skip(base as int) =~= p@);
    true
}

fn same_chars(s: &Vec<char>, p: &Vec<char>) -> (r: bool)
    ensures
        r == (s@ == p@),
{
    if s.len() != p.len() {
        return false;
    }
    let r = starts_with(s, p);
    assert(s@.take(p.len() as int) =~= s@);
    r
}

/// The meaning of a run's arguments, over the views of the strings.
pub struct ArgsModel {
    pub max_width: Option<usize>,
    pub patterns: Seq<Seq<char>>,
    pub check: bool,
    pub args: Seq<Seq<char>>,
}

/// The meaning of `o`.
pub open spec fn model_of(o: Options) -> ArgsModel {
    ArgsModel {
        max_width: o.max_width,
        patterns: views(o.patterns@),
        check: o.check,
        args: views(o.args@),
    }
}

/// No width, no files, no passthrough arguments, files are written.
pub open spec fn empty_model() -> ArgsModel {
    ArgsModel { max_width: None, patterns: Seq::empty(), check: false, args: Seq::empty() }
}

/// What a list of arguments asks for.
pub enum ArgsOutcome {
    Help,
    Run(ArgsModel),
    MissingWidth,
    InvalidWidth(Seq<char>),
}

/// Reads the arguments in order, starting from `o`. `--help` or `-h` asks for
/// help at once. `--max-width` takes the next argument as the width, and
/// `--max-width=N` takes `N`; each must parse as a `usize`. An argument whose
/// lowercase form ends in `.rs` is a file pattern. Any other argument is
/// passed to the agent, and `--check` also turns on check mode.
pub open spec fn parse_args_from(args: Seq<Seq<char>>, o: ArgsModel) -> ArgsOutcome
    decreases args.len(),
{
    if args.len() == 0 {
        ArgsOutcome::Run(o)
    } else {
        let a = args[0];
        let rest = args.drop_first();
        if a == "--help"@ || a == "-h"@ {
            ArgsOutcome::Help
        } else if a == "--max-width"@ {
            if rest.len() == 0 {
                ArgsOutcome::MissingWidth
            } else {
                match parse_usize_spec(rest[0]) {
                    Some(w) => parse_args_from(
                        rest.drop_first(),
                        ArgsModel { max_width: Some(w), ..o },
                    ),
                    None => ArgsOutcome::InvalidWidth(rest[0]),
                }
            }
        } else if has_prefix(a, "--max-width="@) {
            let v = a.skip("--max-width="@.len() as int);
            match parse_usize_spec(v) {
                Some(w) => parse_args_from(rest, ArgsModel { max_width: Some(w), ..o }),
                None => ArgsOutcome::InvalidWidth(v),
            }
        } else if has_suffix(lower_of(a), ".rs"@) {
            parse_args_from(rest, ArgsModel { patterns: o.patterns.push(a), ..o })
        } else {
            parse_args_from(
                rest,
                ArgsModel { check: o.check || a == "--check"@, args: o.args.push(a), ..o },
            )
        }
    }
}

/// What the command line asks for.
pub enum Invocation {
    /// Print the usage and stop.
    Help,
    /// Format files.
    Run(Options),
}

/// Why the command line was refused.
#[derive(Debug)]
pub enum ArgsError {
    /// `--max-width` came last, with no width after it.
    MissingWidth,
    /// The width given is not a `usize`.
    InvalidWidth(String),
}

/// `r` is what `outcome` describes.
pub open spec fn outcome_is(r: Result<Invocation, ArgsError>, outcome: ArgsOutcome) -> bool {
    match outcome {
        ArgsOutcome::Help => r matches Ok(Invocation::Help),
        ArgsOutcome::Run(m) => r matches Ok(Invocation::Run(o)) && model_of(o) == m,
        ArgsOutcome::MissingWidth => r matches Err(ArgsError::MissingWidth),
        ArgsOutcome::InvalidWidth(v) => r matches Err(ArgsError::InvalidWidth(s)) && s@ == v,
    }
}

/// Files an argument that is neither help nor a width, given its lowercase
/// form `lowered`: a file pattern when `lowered` ends in `.rs`, else an
/// argument for the agent, where `--check` also turns on check mode.
pub fn add_plain_arg(opts: &mut Options, arg: String, lowered: &str)
    ensures
        model_of(*final(opts)) == (if has_suffix(lowered@, ".rs"@) {
            ArgsModel {
                patterns: model_of(*old(opts)).patterns.push(arg@),
                ..model_of(*old(opts))
            }
        } else {
            ArgsModel {
                check: model_of(*old(opts)).check || arg@ == "--check"@,
                args: model_of(*old(opts)).args.push(arg@),
                ..model_of(*old(opts))
            }
        }),
{
    let rs = chars_of(".rs");
    let check = chars_of("--check");
    let a = chars_of(arg.as_str());
    let l = chars_of(lowered);
    if ends_with(&l, &rs) {
        let ghost before = opts.patterns@;
        opts.patterns.push(arg);
        assert(views(opts.patterns@) =~= views(before).push(a@));
    } else {
        if same_chars(&a, &check) {
            opts.check = true;
        }
        let ghost before = opts.args@;
        opts.args.push(arg);
        assert(views(opts.args@) =~= views(before).push(a@));
    }
}

/// Interprets the command-line arguments (the program name left out).
pub fn process_args(args: Vec<String>) -> (r: Result<Invocation, ArgsError>)
    ensures
        outcome_is(r, parse_args_from(views(args@), empty_model())),
{
    let help = chars_of("--help");
    let h = chars_of("-h");
    let max_width = chars_of("--max-width");
    let max_width_eq = chars_of("--max-width=");
    let mut opts = Options::new();
    assert(views(opts.patterns@) =~= Seq::<Seq<char>>::empty());
    assert(views(opts.args@) =~= Seq::<Seq<char>>::empty());
    assert(model_of(opts) == empty_model());
    let ghost all = views(args@);
    assert(all.skip(0) =~= all);
    let mut i: usize = 0;
    while i < args.len()
        invariant
            i <= args.len(),
            all == views(args@),
            help@ == "--help"@,
            h@ == "-h"@,
            max_width@ == "--max-width"@,
            max_width_eq@ == "--max-width="@,
            parse_args_from(all, empty_model()) == parse_args_from(
                all.skip(i as int),
                model_of(opts),
            ),
        decreases args.len() - i,
    {
        let ghost rest = all.skip(i as int);
        let ghost m = model_of(opts);
        assert(rest[0] == args@[i as int]@);
        assert(rest.drop_first() =~= all.skip(i + 1));
        let arg = args[i].clone();
        let a = chars_of(arg.as_str());
        if same_chars(&a, &help) || same_chars(&a, &h) {
            return Ok(Invocation::Help);
        } else if same_chars(&a, &max_width) {
            if i + 1 >= args.len() {
                return Err(ArgsError::MissingWidth);
            }
            assert(rest.drop_first()[0] == args@[i + 1]@);
            let v = chars_of(args[i + 1].as_str());
            assert(v@.skip(0) =~= v@);
            match parse_usize(&v, 0) {
                Some(w) => {
                    opts.max_width = Some(w);
                    assert(model_of(opts) == ArgsModel { max_width: Some(w), ..m });
                    assert(rest.drop_first().drop_first() =~= all.skip(i + 2));
                    i = i + 2;
                },
                None => {
                    return Err(ArgsError::InvalidWidth(args[i + 1].clone()));
                },
            }
        } else if starts_with(&a, &max_width_eq) {
            let k = max_width_eq.len();
            match parse_usize(&a, k) {
                Some(w) => {
                    opts.max_width = Some(w);
                    assert(model_of(opts) == ArgsModel { max_width: Some(w), ..m });
                    i = i + 1;
                },
                None => {
                    let v = arg.as_str().substring_char(k, a.len());
                    assert(v@ =~= a@.skip(k as int));
                    return Err(ArgsError::InvalidWidth(v.to_owned()));
                },
            }
        } else {
            let lower = lowercase(arg.as_str());
            add_plain_arg(&mut opts, arg, lower.as_str());
            i = i + 1;
        }
    }
    assert(all.skip(i as int) =~= Seq::<Seq<char>>::empty());
    Ok(Invocation::Run(opts))
}

} // verus!
