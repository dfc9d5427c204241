use dirtree::cli::{is_all_switch, is_output_switch, parse_args, Config, UsageError};

fn args(list: &[&str]) -> Vec<String> {
    list.iter().map(|a| a.to_string()).collect()
}

#[test]
fn no_switch_gives_the_defaults() {
    assert_eq!(parse_args(&args(&["tree"])), Ok(Config { show_all: false, output: None }));
}

#[test]
fn no_argument_at_all_gives_the_defaults() {
    assert_eq!(parse_args(&[]), Ok(Config { show_all: false, output: None }));
}

#[test]
fn short_all_switch() {
    assert_eq!(parse_args(&args(&["tree", "-a"])), Ok(Config { show_all: true, output: None }));
}

#[test]
fn long_all_switch() {
    assert_eq!(parse_args(&args(&["tree", "--all"])), Ok(Config { show_all: true, output: None }));
}

#[test]
fn short_output_switch_takes_the_next_argument() {
    assert_eq!(
        parse_args(&args(&["tree", "-o", "out.txt"])),
        Ok(Config { show_all: false, output: Some("out.txt".to_string()) })
    );
}

#[test]
fn long_output_switch_takes_the_next_argument() {
    assert_eq!(
        parse_args(&args(&["tree", "--output", "out.txt"])),
        Ok(Config { show_all: false, output: Some("out.txt".to_string()) })
    );
}

#[test]
fn both_switches_in_either_order() {
    let expected = Ok(Config { show_all: true, output: Some("out.txt".to_string()) });
    assert_eq!(parse_args(&args(&["tree", "-a", "-o", "out.txt"])), expected);
    assert_eq!(parse_args(&args(&["tree", "-o", "out.txt", "--all"])), expected);
}

#[test]
fn output_switch_without_path_is_refused() {
    assert_eq!(parse_args(&args(&["tree", "-o"])), Err(UsageError::MissingOutputPath));
    assert_eq!(parse_args(&args(&["tree", "-a", "--output"])), Err(UsageError::MissingOutputPath));
    assert_eq!(parse_args(&args(&["-o"])), Err(UsageError::MissingOutputPath));
}

#[test]
fn first_output_switch_decides() {
    assert_eq!(
        parse_args(&args(&["tree", "-o", "one", "--output", "two"])),
        Ok(Config { show_all: false, output: Some("one".to_string()) })
    );
    assert_eq!(
        parse_args(&args(&["tree", "-o", "one", "-o"])),
        Ok(Config { show_all: false, output: Some("one".to_string()) })
    );
}

#[test]
fn path_may_look_like_a_switch() {
    assert_eq!(
        parse_args(&args(&["tree", "-o", "-a"])),
        Ok(Config { show_all: true, output: Some("-a".to_string()) })
    );
    assert_eq!(
        parse_args(&args(&["tree", "-o", "-o"])),
        Ok(Config { show_all: false, output: Some("-o".to_string()) })
    );
}

#[test]
fn other_arguments_are_passed_over() {
    assert_eq!(
        parse_args(&args(&["tree", "src", "-x", "--al", "-all", "-A", "--out"])),
        Ok(Config { show_all: false, output: None })
    );
}

#[test]
fn switches_are_told_apart() {
    assert!(is_all_switch("-a"));
    assert!(is_all_switch("--all"));
    assert!(!is_all_switch("-o"));
    assert!(!is_all_switch("--al"));
    assert!(!is_all_switch(""));
    assert!(is_output_switch("-o"));
    assert!(is_output_switch("--output"));
    assert!(!is_output_switch("-a"));
    assert!(!is_output_switch("--output="));
    assert!(!is_output_switch("-O"));
}
