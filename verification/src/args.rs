//! Command-line arguments.

use vstd::prelude::*;

verus! {

#[derive(Debug, Clone, Copy, PartialEq, Eq, Structural)]
pub enum Mode {
    /// Walk the tree and count.
    Fast,
    /// Find junk and offer to delete it.
    Clean,
}

#[derive(Debug)]
pub struct Args {
    pub root: String,
    pub mode: Mode,
    pub threads: Option<usize>,
    pub follow_symlinks: bool,
    pub list: bool,
    pub with_size: bool,
}

/// What arguments ask for.
pub struct ArgFacts {
    pub root: Seq<char>,
    pub mode: Mode,
    pub threads: Option<usize>,
    pub follow_symlinks: bool,
    pub list: bool,
    pub with_size: bool,
}

impl View for Args {
    type V = ArgFacts;

    open spec fn view(&self) -> ArgFacts {
        ArgFacts {
            root: self.root@,
            mode: self.mode,
            threads: self.threads,
            follow_symlinks: self.follow_symlinks,
            list: self.list,
            with_size: self.with_size,
        }
    }
}

/// What the program is to do.
#[derive(Debug)]
pub enum Command {
    Run(Args),
    Help,
}

#[derive(Debug)]
pub enum ArgError {
    /// `--threads` stands last.
    MissingThreads,
    /// What follows `--threads` is no number.
    BadThreads,
    Unknown(String),
}

impl ArgError {
    pub open spec fn text(self) -> Seq<char> {
        match self {
            ArgError::MissingThreads => "--threads requires a value"@,
            ArgError::BadThreads => "--threads value must be a number"@,
            ArgError::Unknown(arg) => "unknown argument: "@ + arg@,
        }
    }

    /// The error in words.
    pub fn message(&self) -> (message: String)
        ensures
            message@ == self.text(),
    {
        match self {
            ArgError::MissingThreads => "--threads requires a value".to_owned(),
            ArgError::BadThreads => "--threads value must be a number".to_owned(),
            ArgError::Unknown(arg) => {
                let mut message: String = "unknown argument: ".to_owned();
                message.append(arg.as_str());
                message
            },
        }
    }
}

/// What a command line comes to.
pub enum Outcome {
    Run(ArgFacts),
    Help,
    MissingThreads,
    BadThreads,
    Unknown(Seq<char>),
}

pub open spec fn outcome_of(result: Result<Command, ArgError>) -> Outcome {
    match result {
        Ok(Command::Run(args)) => Outcome::Run(args@),
        Ok(Command::Help) => Outcome::Help,
        Err(ArgError::MissingThreads) => Outcome::MissingThreads,
        Err(ArgError::BadThreads) => Outcome::BadThreads,
        Err(ArgError::Unknown(arg)) => Outcome::Unknown(arg@),
    }
}

// ── Numbers ─────────────────────────────────────────────────────────────

pub open spec fn is_digit(c: char) -> bool {
    '0' <= c <= '9'
}

pub open spec fn all_digits(s: Seq<char>) -> bool {
    forall|i: int| 0 <= i < s.len() ==> is_digit(#[trigger] s[i])
}

/// The number that decimal digits write.
pub open spec fn digits_value(s: Seq<char>) -> nat
    decreases s.len(),
{
    if s.len() == 0 {
        0
    } else {
        digits_value(s.drop_last()) * 10 + ((s.last() as int - '0' as int) as nat)
    }
}

/// The number that a text writes: digits, with a plus sign before them or not.
pub open spec fn number_in(s: Seq<char>) -> Option<usize> {
    let digits = if s.len() > 0 && s[0] == '+' {
        s.skip(1)
    } else {
        s
    };
    if digits.len() > 0 && all_digits(digits) && digits_value(digits) <= usize::MAX {
        Some(digits_value(digits) as usize)
    } else {
        None
    }
}

proof fn lemma_prefix_is_no_larger(s: Seq<char>, k: int)
    requires
        0 <= k <= s.len(),
        all_digits(s),
    ensures
        digits_value(s.take(k)) <= digits_value(s),
    decreases s.len(),
{
    if k == s.len() {
        assert(s.take(k) =~= s);
    } else {
        assert(s.drop_last().take(k) =~= s.take(k));
        lemma_prefix_is_no_larger(s.drop_last(), k);
    }
}

/// Reads a number.
pub fn parse_number(text: &str) -> (number: Option<usize>)
    ensures
        number == number_in(text@),
{
    let len: usize = text.unicode_len();
    let start: usize = if len > 0 && text.get_char(0) == '+' {
        1
    } else {
        0
    };
    let ghost digits = text@.skip(start as int);
    assert(start == 0 ==> digits =~= text@);
    if start == len {
        return None;
    }
    let mut value: usize = 0;
    let mut i: usize = start;
    assert(digits.take(0).len() == 0);
    while i < len
        invariant
            start <= i <= len,
            len == text@.len(),
            start < len,
            digits == text@.skip(start as int),
            number_in(text@) == (if all_digits(digits) && digits_value(digits) <= usize::MAX {
                Some(digits_value(digits) as usize)
            } else {
                None
            }),
            all_digits(digits.take(i - start)),
            value == digits_value(digits.take(i - start)),
        decreases len - i,
    {
        let c: char = text.get_char(i);
        proof {
            let next = digits.take(i - start + 1);
            assert(next.drop_last() =~= digits.take(i - start));
            assert(next.last() == c);
            assert(c == digits[i - start]);
            if all_digits(digits) {
                lemma_prefix_is_no_larger(digits, i - start + 1);
            }
        }
        if !('0' <= c && c <= '9') {
            return None;
        }
        let digit: usize = (c as u32 - '0' as u32) as usize;
        value = match value.checked_mul(10) {
            Some(tens) => match tens.checked_add(digit) {
                Some(sum) => sum,
                None => {
                    return None;
                },
            },
            None => {
                return None;
            },
        };
        i = i + 1;
        assert(all_digits(digits.take(i - start))) by {
            assert forall|j: int| 0 <= j < i - start implies is_digit(
                #[trigger] digits.take(i - start)[j],
            ) by {
                if j < i - start - 1 {
                    assert(digits.take(i - start - 1)[j] == digits.take(i - start)[j]);
                }
            }
        }
    }
    assert(digits.take(i - start) =~= digits);
    Some(value)
}

// ── Arguments ───────────────────────────────────────────────────────────

pub open spec fn asks_clean(arg: Seq<char>) -> bool {
    arg == "clean"@ || arg == "--clean"@ || arg == "--junk"@
}

pub open spec fn asks_threads(arg: Seq<char>) -> bool {
    arg == "--threads"@ || arg == "-t"@
}

pub open spec fn asks_follow(arg: Seq<char>) -> bool {
    arg == "--follow-symlinks"@ || arg == "-L"@
}

pub open spec fn asks_list(arg: Seq<char>) -> bool {
    arg == "--list"@ || arg == "-l"@
}

pub open spec fn asks_size(arg: Seq<char>) -> bool {
    arg == "--with-size"@ || arg == "-s"@
}

pub open spec fn asks_help(arg: Seq<char>) -> bool {
    arg == "-h"@ || arg == "--help"@
}

pub open spec fn is_option(arg: Seq<char>) -> bool {
    arg.len() > 0 && arg[0] == '-'
}

/// What the arguments from `i` on come to, after those before them have asked for `so_far`:
/// a later root, mode or thread count replaces an earlier one, and a request for help or a
/// wrong argument ends the reading.
pub open spec fn outcome_from(args: Seq<Seq<char>>, i: int, so_far: ArgFacts) -> Outcome
    decreases args.len() - i,
{
    if i >= args.len() {
        Outcome::Run(so_far)
    } else {
        let arg = args[i];
        if asks_clean(arg) {
            outcome_from(args, i + 1, ArgFacts { mode: Mode::Clean, ..so_far })
        } else if asks_threads(arg) {
            if i + 1 >= args.len() {
                Outcome::MissingThreads
            } else {
                match number_in(args[i + 1]) {
                    Some(n) => outcome_from(args, i + 2, ArgFacts { threads: Some(n), ..so_far }),
                    None => Outcome::BadThreads,
                }
            }
        } else if asks_follow(arg) {
            outcome_from(args, i + 1, ArgFacts { follow_symlinks: true, ..so_far })
        } else if asks_list(arg) {
            outcome_from(args, i + 1, ArgFacts { list: true, ..so_far })
        } else if asks_size(arg) {
            outcome_from(args, i + 1, ArgFacts { with_size: true, ..so_far })
        } else if asks_help(arg) {
            Outcome::Help
        } else if !is_option(arg) {
            outcome_from(args, i + 1, ArgFacts { root: arg, ..so_far })
        } else {
            Outcome::Unknown(arg)
        }
    }
}

/// What a command line without arguments asks for.
pub open spec fn defaults() -> ArgFacts {
    ArgFacts {
        root: "."@,
        mode: Mode::Fast,
        threads: None,
        follow_symlinks: false,
        list: false,
        with_size: false,
    }
}

/// The arguments as texts.
pub open spec fn texts(args: Seq<String>) -> Seq<Seq<char>> {
    args.map_values(|s: String| s@)
}

fn is_word(arg: &String, word: &str) -> (same: bool)
    ensures
        same == (arg@ == word@),
{
    *arg == word.to_owned()
}

fn copy_text(text: &String) -> (copy: String)
    ensures
        copy@ == text@,
{
    text.as_str().to_owned()
}

/// Reads the arguments that follow the program's name.
pub fn parse_args(raw: &[String]) -> (result: Result<Command, ArgError>)
    ensures
        outcome_of(result) == outcome_from(texts(raw@), 0, defaults()),
{
    let ghost all = texts(raw@);
    let mut args = Args {
        root: ".".to_owned(),
        mode: Mode::Fast,
        threads: None,
        follow_symlinks: false,
        list: false,
        with_size: false,
    };
    let mut i: usize = 0;
    while i < raw.len()
        invariant
            i <= raw@.len(),
            all == texts(raw@),
            outcome_from(all, 0, defaults()) == outcome_from(all, i as int, args@),
        decreases raw@.len() - i,
    {
        let arg = &raw[i];
        assert(all[i as int] == arg@);
        if is_word(arg, "clean") || is_word(arg, "--clean") || is_word(arg, "--junk") {
            args.mode = Mode::Clean;
        } else if is_word(arg, "--threads") || is_word(arg, "-t") {
            i = i + 1;
            if i >= raw.len() {
                return Err(ArgError::MissingThreads);
            }
            assert(all[i as int] == raw@[i as int]@);
            match parse_number(raw[i].as_str()) {
                Some(n) => {
                    args.threads = Some(n);
                },
                None => {
                    return Err(ArgError::BadThreads);
                },
            }
        } else if is_word(arg, "--follow-symlinks") || is_word(arg, "-L") {
            args.follow_symlinks = true;
        } else if is_word(arg, "--list") || is_word(arg, "-l") {
            args.list = true;
        } else if is_word(arg, "--with-size") || is_word(arg, "-s") {
            args.with_size = true;
        } else if is_word(arg, "-h") || is_word(arg, "--help") {
            return Ok(Command::Help);
        } else if arg.as_str().unicode_len() == 0 || arg.as_str().get_char(0) != '-' {
            args.root = copy_text(arg);
        } else {
            return Err(ArgError::Unknown(copy_text(arg)));
        }
        i = i + 1;
    }
    Ok(Command::Run(args))
}

} // verus!
