use bigtiff_consolidate::arguments::{parse_args, parse_positive, Command, UsageError};
use bigtiff_consolidate::outputs::{can_rename_in_place, find_conflict, name_outputs,
    writes_metadata, Conflict, Target};
use bigtiff_consolidate::source::Mode;

fn parse(args: &[&str]) -> Command {
    let args: Vec<String> = args.iter().map(|a| a.to_string()).collect();
    parse_args(&args)
}

fn run(args: &[&str]) -> (Mode, u32, String) {
    match parse(args) {
        Command::Run { mode, allowed_crossings, input } => (mode, allowed_crossings, input),
        _ => panic!("not a run"),
    }
}

#[test]
fn defaults() {
    assert_eq!(run(&["a.tiff"]), (Mode::Consolidate, 10, "a.tiff".to_string()));
}

#[test]
fn options() {
    assert_eq!(run(&["-plain", "a"]), (Mode::Plain, 10, "a".to_string()));
    assert_eq!(run(&["a", "-ome"]), (Mode::Ome, 10, "a".to_string()));
    assert_eq!(run(&["-plain", "-ome", "a"]), (Mode::Ome, 10, "a".to_string()));
    assert_eq!(run(&["-c", "1", "a"]), (Mode::Consolidate, 1, "a".to_string()));
    assert_eq!(run(&["-c", "20", "a", "-c", "+3"]), (Mode::Consolidate, 3, "a".to_string()));
    assert_eq!(run(&[""]), (Mode::Consolidate, 10, "".to_string()));
}

#[test]
fn help_comes_first() {
    assert!(matches!(parse(&["-h"]), Command::Help));
    assert!(matches!(parse(&["a", "--help", "-x"]), Command::Help));
    assert!(matches!(
        parse(&["-x", "--help"]),
        Command::Invalid(UsageError::UnknownOption(_))
    ));
}

#[test]
fn wrong_command_lines() {
    assert!(matches!(parse(&[]), Command::Invalid(UsageError::NoInput)));
    assert!(matches!(parse(&["-plain"]), Command::Invalid(UsageError::NoInput)));
    assert!(matches!(parse(&["a", "b"]), Command::Invalid(UsageError::MultipleInputs)));
    assert!(matches!(parse(&["a", "-c"]), Command::Invalid(UsageError::MissingNumber)));
    for number in ["0", "-1", "x", "", "+", "4294967296", "1.5", " 1", "++1", "99999999999999999999"]
    {
        assert!(matches!(parse(&["-c", number, "a"]), Command::Invalid(UsageError::BadNumber)));
    }
    match parse(&["-", "a"]) {
        Command::Invalid(UsageError::UnknownOption(o)) => assert_eq!(o, "-"),
        _ => panic!("accepted"),
    }
    match parse(&["-plane", "a"]) {
        Command::Invalid(UsageError::UnknownOption(o)) => assert_eq!(o, "-plane"),
        _ => panic!("accepted"),
    }
}

#[test]
fn numbers_are_read_as_std_reads_them() {
    for text in
        ["1", "10", "007", "+5", "4294967295", "4294967296", "0", "00", "", "+", "-3", "1a", "\u{661}"]
    {
        let expected = match text.parse::<u32>() {
            Ok(n) if n >= 1 => Some(n),
            _ => None,
        };
        assert_eq!(parse_positive(text), expected, "{}", text);
    }
}

#[test]
fn names() {
    let o = name_outputs(Mode::Consolidate, Some("input"), Some("tiff"), true);
    match &o.target {
        Target::Replace { backup, temporary } => {
            assert_eq!(backup, "input_original.tiff");
            assert_eq!(temporary, "input_consolidating.tiff");
        }
        Target::Create { .. } => panic!("a copy"),
    }
    assert!(o.metadata.is_none());
    let cases = [
        (Mode::Consolidate, "input_copy.tif", None),
        (Mode::Plain, "input_plain.tif", Some("input_metadata.json".to_string())),
        (Mode::Ome, "input.ome.tiff", Some("input_metadata.json".to_string())),
    ];
    for (mode, name, metadata) in cases {
        let o = name_outputs(mode, Some("input"), Some("tif"), false);
        match o.target {
            Target::Create { output } => assert_eq!(output, name),
            Target::Replace { .. } => panic!("no copy"),
        }
        assert_eq!(o.metadata, metadata);
    }
}

#[test]
fn names_of_a_run_differ() {
    for mode in [Mode::Consolidate, Mode::Plain, Mode::Ome] {
        for rename in [true, false] {
            let o = name_outputs(mode, Some("a"), Some("tiff"), rename);
            let mut all = vec!["a.tiff".to_string()];
            match o.target {
                Target::Replace { backup, temporary } => all.extend([backup, temporary]),
                Target::Create { output } => all.push(output),
            }
            all.extend(o.metadata);
            let total = all.len();
            all.sort();
            all.dedup();
            assert_eq!(all.len(), total);
        }
    }
}

#[test]
fn names_without_stem_or_extension() {
    match name_outputs(Mode::Plain, None, None, true).target {
        Target::Create { output } => assert_eq!(output, "output_plain.tiff"),
        Target::Replace { .. } => panic!("no copy"),
    }
}

#[test]
fn devices() {
    assert!(can_rename_in_place(Some(1), Some(1)));
    assert!(!can_rename_in_place(Some(1), Some(2)));
    assert!(can_rename_in_place(None, Some(2)));
    assert!(can_rename_in_place(Some(1), None));
}

#[test]
fn nothing_is_overwritten() {
    let replace = Target::Replace { backup: "b".to_string(), temporary: "t".to_string() };
    assert_eq!(find_conflict(&replace, true, true, true), Some(Conflict::Backup));
    assert_eq!(find_conflict(&replace, false, true, true), Some(Conflict::Temporary));
    assert_eq!(find_conflict(&replace, false, false, true), None);
    let create = Target::Create { output: "o".to_string() };
    assert_eq!(find_conflict(&create, true, true, true), Some(Conflict::Output));
    assert_eq!(find_conflict(&create, true, true, false), None);
}

#[test]
fn metadata_files_are_left_alone() {
    let plain = name_outputs(Mode::Plain, Some("a"), None, true);
    assert!(writes_metadata(&plain, false));
    assert!(!writes_metadata(&plain, true));
    let consolidate = name_outputs(Mode::Consolidate, Some("a"), None, true);
    assert!(!writes_metadata(&consolidate, false));
}
