use rustdoc_prettier::agent::Options;
use rustdoc_prettier::args::{add_plain_arg, process_args, ArgsError, Invocation};

fn strings(args: &[&str]) -> Vec<String> {
    args.iter().map(|s| s.to_string()).collect()
}

#[test]
fn files_flags_and_width() {
    let Ok(Invocation::Run(opts)) = process_args(strings(&[
        "src/**/*.rs",
        "--check",
        "--max-width",
        "100",
        "MAIN.RS",
        "--tab-width=2",
    ])) else {
        panic!("expected a run");
    };
    assert_eq!(Some(100), opts.max_width);
    assert_eq!(strings(&["src/**/*.rs", "MAIN.RS"]), opts.patterns);
    assert!(opts.check);
    assert_eq!(strings(&["--check", "--tab-width=2"]), opts.args);
}

#[test]
fn width_with_equals() {
    let Ok(Invocation::Run(opts)) = process_args(strings(&["--max-width=+42"])) else {
        panic!("expected a run");
    };
    assert_eq!(Some(42), opts.max_width);
    assert!(!opts.check);
}

#[test]
fn help_wins_over_later_errors() {
    assert!(matches!(
        process_args(strings(&["a.rs", "-h", "--max-width"])),
        Ok(Invocation::Help)
    ));
    assert!(matches!(process_args(strings(&["--help"])), Ok(Invocation::Help)));
}

#[test]
fn missing_width() {
    assert!(matches!(
        process_args(strings(&["a.rs", "--max-width"])),
        Err(ArgsError::MissingWidth)
    ));
}

#[test]
fn invalid_width() {
    match process_args(strings(&["--max-width=-1"])) {
        Err(ArgsError::InvalidWidth(v)) => assert_eq!("-1", v),
        _ => panic!("expected an invalid width"),
    }
    match process_args(strings(&["--max-width", "99999999999999999999999"])) {
        Err(ArgsError::InvalidWidth(v)) => assert_eq!("99999999999999999999999", v),
        _ => panic!("expected an invalid width"),
    }
}

#[test]
fn plain_args_by_lowercase_form() {
    let mut opts = Options::new();
    add_plain_arg(&mut opts, "LIB.RS".to_string(), "lib.rs");
    add_plain_arg(&mut opts, "--check".to_string(), "--check");
    add_plain_arg(&mut opts, "notes.rst".to_string(), "notes.rst");
    assert_eq!(vec!["LIB.RS".to_string()], opts.patterns);
    assert_eq!(vec!["--check".to_string(), "notes.rst".to_string()], opts.args);
    assert!(opts.check);
}
