use vstd::prelude::*;

use crate::scan::chars_of;

verus! {

/// Workers used when the command line names no count.
pub const DEFAULT_THREADS: usize = 2;

/// What one search run needs; built once from the command line and read by every worker.
pub struct SearchConfig {
    /// Literal text searched for.
    pub pattern: String,
    /// File, or directory root, to search.
    pub path: String,
    /// Whether directories are descended.
    pub recursive: bool,
    /// Number of workers; never zero.
    pub num_threads: usize,
}

/// Why a command line was refused.
pub enum ArgError {
    /// `-n` or `--num-threads` stood last, with no count after it.
    MissingThreadCount,
    /// The thread count is not a positive integer that fits in `usize`.
    InvalidThreadCount,
    /// A third positional argument.
    UnknownArgument(String),
    /// No pattern was given.
    MissingPattern,
    /// No path was given.
    MissingPath,
}

/// The abstract value of a configuration.
pub struct ConfigView {
    pub pattern: Seq<char>,
    pub path: Seq<char>,
    pub recursive: bool,
    pub num_threads: nat,
}

/// The abstract value of an argument error.
pub enum ArgErrorView {
    MissingThreadCount,
    InvalidThreadCount,
    UnknownArgument(Seq<char>),
    MissingPattern,
    MissingPath,
}

impl View for SearchConfig {
    type V = ConfigView;

    open spec fn view(&self) -> ConfigView {
        ConfigView {
            pattern: self.pattern@,
            path: self.path@,
            recursive: self.recursive,
            num_threads: self.num_threads as nat,
        }
    }
}

impl View for ArgError {
    type V = ArgErrorView;

    open spec fn view(&self) -> ArgErrorView {
        match self {
            ArgError::MissingThreadCount => ArgErrorView::MissingThreadCount,
            ArgError::InvalidThreadCount => ArgErrorView::InvalidThreadCount,
            ArgError::UnknownArgument(a) => ArgErrorView::UnknownArgument(a@),
            ArgError::MissingPattern => ArgErrorView::MissingPattern,
            ArgError::MissingPath => ArgErrorView::MissingPath,
        }
    }
}

impl SearchConfig {
    /// A configuration is usable when it has at least one worker.
    pub open spec fn wf(&self) -> bool {
        self.num_threads >= 1
    }
}

/// A decimal digit.
pub open spec fn is_digit(c: char) -> bool {
    '0' <= c <= '9'
}

/// Every character of `s` is a decimal digit.
pub open spec fn all_digits(s: Seq<char>) -> bool {
    forall|i: int| 0 <= i < s.len() ==> is_digit(#[trigger] s[i])
}

/// The number written by the decimal digits `s`.
pub open spec fn digits_value(s: Seq<char>) -> nat
    decreases s.len(),
{
    if s.len() == 0 {
        0
    } else {
        digits_value(s.drop_last()) * 10 + ((s.last() as u32) - ('0' as u32)) as nat
    }
}

/// `s` without one leading `+`, if it has one.
pub open spec fn unsigned_digits(s: Seq<char>) -> Seq<char> {
    if s.len() > 0 && s[0] == '+' {
        s.drop_first()
    } else {
        s
    }
}

/// The worker count that `s` names: an optional `+` and one or more decimal digits,
/// whose value is positive and fits in `usize`.
pub open spec fn thread_count_value(s: Seq<char>) -> Option<nat> {
    let d = unsigned_digits(s);
    if d.len() > 0 && all_digits(d) && 1 <= digits_value(d) <= usize::MAX {
        Some(digits_value(d))
    } else {
        None
    }
}

/// The outcome once every argument is read: pattern and path must both be set.
pub open spec fn finish_parse(pattern: Seq<char>, path: Seq<char>, recursive: bool, threads: nat) -> Result<
    ConfigView,
    ArgErrorView,
> {
    if pattern.len() == 0 {
        Err(ArgErrorView::MissingPattern)
    } else if path.len() == 0 {
        Err(ArgErrorView::MissingPath)
    } else {
        Ok(ConfigView { pattern, path, recursive, num_threads: threads })
    }
}

/// The argument asks for a recursive search.
pub open spec fn is_recursive_flag(a: Seq<char>) -> bool {
    a == "-r"@ || a == "--recursive"@
}

/// The argument announces a worker count in the next one.
pub open spec fn is_threads_flag(a: Seq<char>) -> bool {
    a == "-n"@ || a == "--num-threads"@
}

/// The outcome of reading `args[i..]`, given what the earlier arguments set. The first
/// bare argument is the pattern, the second the path; an empty bare argument leaves
/// its slot open for the next one.
pub open spec fn parse_from(
    args: Seq<Seq<char>>,
    i: int,
    pattern: Seq<char>,
    path: Seq<char>,
    recursive: bool,
    threads: nat,
) -> Result<ConfigView, ArgErrorView>
    decreases args.len() - i,
{
    if i < 0 || i >= args.len() {
        finish_parse(pattern, path, recursive, threads)
    } else {
        let a = args[i];
        if is_recursive_flag(a) {
            parse_from(args, i + 1, pattern, path, true, threads)
        } else if is_threads_flag(a) {
            if i + 1 >= args.len() {
                Err(ArgErrorView::MissingThreadCount)
            } else {
                match thread_count_value(args[i + 1]) {
                    None => Err(ArgErrorView::InvalidThreadCount),
                    Some(v) => parse_from(args, i + 2, pattern, path, recursive, v),
                }
            }
        } else if pattern.len() == 0 {
            parse_from(args, i + 1, a, path, recursive, threads)
        } else if path.len() == 0 {
            parse_from(args, i + 1, pattern, a, recursive, threads)
        } else {
            Err(ArgErrorView::UnknownArgument(a))
        }
    }
}

/// The outcome of a whole command line, whose first entry is the program's name.
pub open spec fn parse_spec(args: Seq<Seq<char>>) -> Result<ConfigView, ArgErrorView> {
    parse_from(args, 1, Seq::empty(), Seq::empty(), false, DEFAULT_THREADS as nat)
}

/// The text of each argument.
pub open spec fn arg_views(args: Seq<String>) -> Seq<Seq<char>> {
    args.map_values(|a: String| a@)
}

fn same_text(a: &String, lit: &str) -> (r: bool)
    ensures
        r == (a@ == lit@),
{
    let b = lit.to_owned();
    a.eq(&b)
}

proof fn lemma_digits_value_push(s: Seq<char>, c: char)
    ensures
        digits_value(s.push(c)) == digits_value(s) * 10 + ((c as u32) - ('0' as u32)) as nat,
{
    assert(s.push(c).drop_last() =~= s);
}

/// The worker count written in `s`: an optional `+` followed by decimal digits, whose
/// value is at least one and fits in `usize`; `None` for anything else.
pub fn parse_thread_count(s: &str) -> (r: Option<usize>)
    ensures
        r matches Some(v) ==> thread_count_value(s@) == Some(v as nat),
        r is None ==> thread_count_value(s@) is None,
{
    let cs = chars_of(s);
    let n = cs.len();
    let mut i: usize = 0;
    if n > 0 && cs[0] == '+' {
        i = 1;
    }
    let ghost d = unsigned_digits(s@);
    assert(d =~= s@.subrange(i as int, n as int));
    if i == n {
        return None;
    }
    let mut value: usize = 0;
    let mut j: usize = i;
    while j < n
        invariant
            i <= j <= n == cs@.len(),
            cs@ == s@,
            d == cs@.subrange(i as int, n as int),
            d == unsigned_digits(s@),
            all_digits(cs@.subrange(i as int, j as int)),
            value as nat == digits_value(cs@.subrange(i as int, j as int)),
        decreases n - j,
    {
        let c = cs[j];
        proof {
            assert(cs@.subrange(i as int, j + 1) =~= cs@.subrange(i as int, j as int).push(c));
            lemma_digits_value_push(cs@.subrange(i as int, j as int), c);
        }
        if c < '0' || c > '9' {
            assert(d[j - i] == c);
            assert(!all_digits(d));
            return None;
        }
        let digit = (c as u32 - '0' as u32) as usize;
        let next = match value.checked_mul(10) {
            Some(t) => t.checked_add(digit),
            None => None,
        };
        match next {
            Some(v) => {
                value = v;
            },
            None => {
                proof {
                    assert(d =~= cs@.subrange(i as int, j + 1) + cs@.subrange(j + 1, n as int));
                    assert(d.subrange(0, j + 1 - i) =~= cs@.subrange(i as int, j + 1));
                    if all_digits(d) {
                        lemma_digits_value_prefix(d, (j + 1 - i) as nat);
                    }
                }
                return None;
            },
        }
        j = j + 1;
    }
    assert(cs@.subrange(i as int, n as int) =~= d);
    if value == 0 {
        return None;
    }
    Some(value)
}

/// The value of a string of digits is at least the value of any of its prefixes.
proof fn lemma_digits_value_prefix(s: Seq<char>, m: nat)
    requires
        m <= s.len(),
        all_digits(s),
    ensures
        digits_value(s.subrange(0, m as int)) <= digits_value(s),
    decreases s.len() - m,
{
    if m < s.len() {
        lemma_digits_value_prefix(s, m + 1);
        let t = s.subrange(0, (m + 1) as int);
        assert(t.drop_last() =~= s.subrange(0, m as int));
        assert(is_digit(s[m as int]));
    } else {
        assert(s.subrange(0, m as int) =~= s);
    }
}

/// Reads a command line whose first entry is the program's name: the pattern and the
/// path as the first two bare arguments, `-r`/`--recursive`, and `-n`/`--num-threads`
/// followed by a positive count (two when absent).
pub fn parse_args(args: &Vec<String>) -> (r: Result<SearchConfig, ArgError>)
    ensures
        match r {
            Ok(c) => parse_spec(arg_views(args@)) == Ok::<ConfigView, ArgErrorView>(c@) && c.wf(),
            Err(e) => parse_spec(arg_views(args@)) == Err::<ConfigView, ArgErrorView>(e@),
        },
{
    let ghost a = arg_views(args@);
    let n = args.len();
    let mut pattern = String::new();
    let mut path = String::new();
    let mut recursive = false;
    let mut num_threads: usize = DEFAULT_THREADS;
    let mut i: usize = 1;
    while i < n
        invariant
            i >= 1,
            n == args@.len() == a.len(),
            a == arg_views(args@),
            num_threads >= 1,
            parse_from(a, i as int, pattern@, path@, recursive, num_threads as nat) == parse_spec(a),
        decreases n - i,
    {
        let arg = &args[i];
        assert(a[i as int] == arg@);
        if same_text(arg, "-r") || same_text(arg, "--recursive") {
            recursive = true;
            i = i + 1;
        } else if same_text(arg, "-n") || same_text(arg, "--num-threads") {
            if i + 1 >= n {
                return Err(ArgError::MissingThreadCount);
            }
            assert(a[i + 1] == args@[i + 1]@);
            match parse_thread_count(args[i + 1].as_str()) {
                None => {
                    return Err(ArgError::InvalidThreadCount);
                },
                Some(v) => {
                    num_threads = v;
                    i = i + 2;
                },
            }
        } else if pattern.as_str().is_empty() {
            pattern = arg.clone();
            i = i + 1;
        } else if path.as_str().is_empty() {
            path = arg.clone();
            i = i + 1;
        } else {
            return Err(ArgError::UnknownArgument(arg.clone()));
        }
    }
    if pattern.as_str().is_empty() {
        return Err(ArgError::MissingPattern);
    }
    if path.as_str().is_empty() {
        return Err(ArgError::MissingPath);
    }
    Ok(SearchConfig { pattern, path, recursive, num_threads })
}

} // verus!
