//! Laws of the command line: what each argument asks for, and how arguments go together.

use vstd::prelude::*;

use crate::args::{ArgError, ArgFacts, Args, Command, Mode, Outcome};
use crate::args;

verus! {

/// Without arguments the current directory is walked and counted, with the number of threads left
/// open, without sizes, without a list, and without following links.
pub proof fn nothing_asks_for_a_plain_walk(args: Seq<Seq<char>>)
    requires
        args.len() == 0,
    ensures
        args::outcome_from(args, 0, args::defaults()) == Outcome::Run(
            ArgFacts {
                root: "."@,
                mode: Mode::Fast,
                threads: None,
                follow_symlinks: false,
                list: false,
                with_size: false,
            },
        ),
{
}

/// What one argument adds to what was asked for, where it stands alone: the rest of the line is
/// read with that added.
pub open spec fn adds(args: Seq<Seq<char>>, i: int, so_far: ArgFacts, added: ArgFacts) -> bool {
    args::outcome_from(args, i, so_far) == args::outcome_from(args, i + 1, added)
}

proof fn lemma_words()
    ensures
        args::asks_clean("clean"@) && args::asks_clean("--clean"@) && args::asks_clean("--junk"@),
        !args::asks_clean("--threads"@) && !args::asks_clean("-t"@),
        !args::asks_clean("--follow-symlinks"@) && !args::asks_clean("-L"@),
        !args::asks_clean("--list"@) && !args::asks_clean("-l"@),
        !args::asks_clean("--with-size"@) && !args::asks_clean("-s"@),
        !args::asks_clean("--help"@) && !args::asks_clean("-h"@),
        !args::asks_threads("--follow-symlinks"@) && !args::asks_threads("-L"@),
        !args::asks_threads("--list"@) && !args::asks_threads("-l"@),
        !args::asks_threads("--with-size"@) && !args::asks_threads("-s"@),
        !args::asks_threads("--help"@) && !args::asks_threads("-h"@),
        !args::asks_follow("--list"@) && !args::asks_follow("-l"@),
        !args::asks_follow("--with-size"@) && !args::asks_follow("-s"@),
        !args::asks_follow("--help"@) && !args::asks_follow("-h"@),
        !args::asks_list("--with-size"@) && !args::asks_list("-s"@),
        !args::asks_list("--help"@) && !args::asks_list("-h"@),
        !args::asks_size("--help"@) && !args::asks_size("-h"@),
{
    reveal_strlit("clean");
    reveal_strlit("--clean");
    reveal_strlit("--junk");
    reveal_strlit("--threads");
    reveal_strlit("-t");
    reveal_strlit("--follow-symlinks");
    reveal_strlit("-L");
    reveal_strlit("--list");
    reveal_strlit("-l");
    reveal_strlit("--with-size");
    reveal_strlit("-s");
    reveal_strlit("--help");
    reveal_strlit("-h");
    assert("clean"@.len() == 5);
    assert("--clean"@.len() == 7);
    assert("--junk"@.len() == 6);
    assert("--threads"@.len() == 9);
    assert("-t"@.len() == 2);
    assert("--follow-symlinks"@.len() == 17);
    assert("-L"@.len() == 2);
    assert("--list"@.len() == 6);
    assert("-l"@.len() == 2);
    assert("--with-size"@.len() == 11);
    assert("-s"@.len() == 2);
    assert("--help"@.len() == 6);
    assert("-h"@.len() == 2);
    assert("--junk"@[2] == 'j');
    assert("-t"@[1] == 't');
    assert("-L"@[1] == 'L');
    assert("--list"@[2] == 'l');
    assert("-l"@[1] == 'l');
    assert("-s"@[1] == 's');
    assert("--help"@[2] == 'h');
    assert("-h"@[1] == 'h');
}

/// The words that ask for something add just that, wherever they stand and whatever was asked for
/// before, and a request for help ends the reading.
pub proof fn words_add_what_they_say(args: Seq<Seq<char>>, i: int, so_far: ArgFacts)
    requires
        0 <= i < args.len(),
    ensures
        args[i] == "clean"@ || args[i] == "--clean"@ || args[i] == "--junk"@ ==> adds(
            args,
            i,
            so_far,
            ArgFacts { mode: Mode::Clean, ..so_far },
        ),
        args[i] == "--follow-symlinks"@ || args[i] == "-L"@ ==> adds(
            args,
            i,
            so_far,
            ArgFacts { follow_symlinks: true, ..so_far },
        ),
        args[i] == "--list"@ || args[i] == "-l"@ ==> adds(
            args,
            i,
            so_far,
            ArgFacts { list: true, ..so_far },
        ),
        args[i] == "--with-size"@ || args[i] == "-s"@ ==> adds(
            args,
            i,
            so_far,
            ArgFacts { with_size: true, ..so_far },
        ),
        args[i] == "--help"@ || args[i] == "-h"@ ==> args::outcome_from(args, i, so_far)
            == Outcome::Help,
{
    lemma_words();
}

/// `--threads` and `-t` take the number behind them. Without one, or with something else behind
/// them, the line is wrong.
pub proof fn threads_take_a_number(args: Seq<Seq<char>>, i: int, so_far: ArgFacts, n: usize)
    requires
        0 <= i < args.len(),
        args[i] == "--threads"@ || args[i] == "-t"@,
    ensures
        i + 1 < args.len() && args::number_in(args[i + 1]) == Some(n) ==> args::outcome_from(
            args,
            i,
            so_far,
        ) == args::outcome_from(args, i + 2, ArgFacts { threads: Some(n), ..so_far }),
        i + 1 < args.len() && args::number_in(args[i + 1]) is None ==> args::outcome_from(
            args,
            i,
            so_far,
        ) == Outcome::BadThreads,
        i + 1 == args.len() ==> args::outcome_from(args, i, so_far) == Outcome::MissingThreads,
{
    lemma_words();
}

/// Whatever does not start with a dash and asks for nothing else is the root; the last one counts.
/// What starts with a dash and is not known is an error, which names it.
pub proof fn other_words_are_the_root_or_wrong(
    args: Seq<Seq<char>>,
    i: int,
    so_far: ArgFacts,
)
    requires
        0 <= i < args.len(),
        args[i] != "clean"@ && args[i] != "--clean"@ && args[i] != "--junk"@,
        args[i] != "--threads"@ && args[i] != "-t"@,
        args[i] != "--follow-symlinks"@ && args[i] != "-L"@,
        args[i] != "--list"@ && args[i] != "-l"@,
        args[i] != "--with-size"@ && args[i] != "-s"@,
        args[i] != "--help"@ && args[i] != "-h"@,
    ensures
        args[i].len() == 0 || args[i][0] != '-' ==> adds(
            args,
            i,
            so_far,
            ArgFacts { root: args[i], ..so_far },
        ),
        args[i].len() > 0 && args[i][0] == '-' ==> args::outcome_from(args, i, so_far)
            == Outcome::Unknown(args[i]),
{
}

/// At the end of the line what was asked for is done.
pub proof fn the_end_of_the_line_runs(args: Seq<Seq<char>>, so_far: ArgFacts)
    ensures
        args::outcome_from(args, args.len() as int, so_far) == Outcome::Run(so_far),
{
}

/// Arguments and what they come to are taken as they stand; the errors say what is wrong.
pub proof fn outcomes_are_taken_as_they_stand(a: Args, error: ArgError, word: String)
    ensures
        a@.root == a.root@ && a@.mode == a.mode && a@.threads == a.threads,
        a@.follow_symlinks == a.follow_symlinks && a@.list == a.list,
        a@.with_size == a.with_size,
        args::outcome_of(Ok(Command::Run(a))) == Outcome::Run(a@),
        args::outcome_of(Ok(Command::Help)) == Outcome::Help,
        args::outcome_of(Err(ArgError::MissingThreads)) == Outcome::MissingThreads,
        args::outcome_of(Err(ArgError::BadThreads)) == Outcome::BadThreads,
        args::outcome_of(Err(ArgError::Unknown(word))) == Outcome::Unknown(word@),
        ArgError::MissingThreads.text() == "--threads requires a value"@,
        ArgError::BadThreads.text() == "--threads value must be a number"@,
        ArgError::Unknown(word).text() == "unknown argument: "@ + word@,
{
}

/// The arguments are read as texts, one by one.
pub proof fn arguments_are_read_one_by_one(raw: Seq<String>, i: int)
    requires
        0 <= i < raw.len(),
    ensures
        args::texts(raw).len() == raw.len(),
        args::texts(raw)[i] == raw[i]@,
{
}

} // verus!
