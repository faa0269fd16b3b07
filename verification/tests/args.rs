use kosu::args::{parse_args, parse_number, ArgError, Command, Mode};
use kosu::counters::Counters;
use kosu::walker::EntryKind;

fn parse(args: &[&str]) -> Result<Command, ArgError> {
    let owned: Vec<String> = args.iter().map(|a| a.to_string()).collect();
    parse_args(&owned)
}

fn run(args: &[&str]) -> kosu::args::Args {
    match parse(args) {
        Ok(Command::Run(args)) => args,
        other => panic!("{:?}", other),
    }
}

#[test]
fn no_arguments_mean_the_defaults() {
    let args = run(&[]);
    assert_eq!(args.root, ".");
    assert_eq!(args.mode, Mode::Fast);
    assert_eq!(args.threads, None);
    assert!(!args.follow_symlinks && !args.list && !args.with_size);
}

#[test]
fn every_option_is_understood() {
    let args = run(&["/p", "-s", "--list", "-L", "-t", "8"]);
    assert_eq!(args.root, "/p");
    assert_eq!(args.threads, Some(8));
    assert!(args.follow_symlinks && args.list && args.with_size);
    let long = run(&["--with-size", "-l", "--follow-symlinks", "--threads", "+3"]);
    assert_eq!(long.threads, Some(3));
    assert!(long.follow_symlinks && long.list && long.with_size);
    for word in ["clean", "--clean", "--junk"] {
        assert_eq!(run(&[word, "/p"]).mode, Mode::Clean);
        assert_eq!(run(&[word, "/p"]).root, "/p");
    }
}

#[test]
fn later_arguments_replace_earlier_ones() {
    let args = run(&["a", "-t", "1", "b", "-t", "2"]);
    assert_eq!(args.root, "b");
    assert_eq!(args.threads, Some(2));
    assert_eq!(run(&["a", ""]).root, "");
}

#[test]
fn help_ends_the_reading() {
    assert!(matches!(parse(&["-h"]), Ok(Command::Help)));
    assert!(matches!(parse(&["a", "--help", "--nonsense"]), Ok(Command::Help)));
}

#[test]
fn wrong_arguments_are_refused() {
    let missing = parse(&["--threads"]).unwrap_err();
    assert!(matches!(missing, ArgError::MissingThreads));
    assert_eq!(missing.message(), "--threads requires a value");
    let bad = parse(&["-t", "many"]).unwrap_err();
    assert!(matches!(bad, ArgError::BadThreads));
    assert_eq!(bad.message(), "--threads value must be a number");
    let unknown = parse(&["--nonsense", "-h"]).unwrap_err();
    assert!(matches!(unknown, ArgError::Unknown(_)));
    assert_eq!(unknown.message(), "unknown argument: --nonsense");
}

#[test]
fn numbers_are_read_as_std_reads_them() {
    for text in [
        "", "+", "0", "7", "007", "+12", "++1", "-1", "1a", " 1", "1_000", "18446744073709551615",
        "18446744073709551616", "99999999999999999999999", "99999999999999999999999x", "\u{661}",
    ] {
        assert_eq!(parse_number(text), text.parse::<usize>().ok(), "{:?}", text);
    }
}

#[test]
fn entries_are_counted_by_kind() {
    let mut c = Counters::new();
    c.record(EntryKind::Dir, None);
    c.record(EntryKind::File, Some(10));
    c.record(EntryKind::File, Some(5));
    c.record(EntryKind::Symlink, Some(1));
    c.record(EntryKind::Other, None);
    assert_eq!(
        c,
        Counters { entries: 5, dirs: 1, files: 2, symlinks: 1, total_size: 16 }
    );
    let mut all = Counters::new();
    all.merge(&c);
    all.merge(&c);
    assert_eq!(
        all,
        Counters { entries: 10, dirs: 2, files: 4, symlinks: 2, total_size: 32 }
    );
    let mut full = Counters { entries: u64::MAX, ..Counters::new() };
    full.merge(&c);
    assert_eq!(full.entries, 4);
}
