use dlisp::config::{sort_input, CliRequest, Config};
use dlisp::error::{ErrorType, LispError};

#[test]
fn test_sort_input() {
    let test = ["-i", "-f", "hello", "(test", "this)", "12"]
        .iter()
        .map(|e| e.to_string())
        .collect::<Vec<String>>();
    let exp = ["-i", "-f", "hello"]
        .iter()
        .map(|e| e.to_string())
        .collect::<Vec<String>>();
    let other = ["(test", "this)", "12"]
        .iter()
        .map(|e| e.to_string())
        .collect::<Vec<String>>();
    let (s1, s2) = sort_input(&test);
    assert_eq!(s1, exp);
    assert_eq!(s2, other);
}

#[test]
fn sort_input_of_nothing_is_nothing() {
    let (s1, s2) = sort_input(&[]);
    assert!(s1.is_empty());
    assert!(s2.is_empty());
}

#[test]
fn config_reads_the_file_flag() {
    let args: Vec<String> = ["-f", "prog.lisp"].iter().map(|e| e.to_string()).collect();
    let config = Config::new(args).unwrap();
    assert_eq!(config.file, Some("prog.lisp".to_string()));
    assert!(!config.eval_input);
}

#[test]
fn config_without_flags_names_no_file() {
    let config = Config::new(Vec::new()).unwrap();
    assert_eq!(config.file, None);
}

#[test]
fn config_stops_for_version_and_help() {
    let version: Vec<String> = ["-v"].iter().map(|e| e.to_string()).collect();
    assert_eq!(Config::new(version), Err(CliRequest::Version));
    let help: Vec<String> = ["--help"].iter().map(|e| e.to_string()).collect();
    assert_eq!(Config::new(help), Err(CliRequest::Help));
}

#[test]
fn lisp_error_carries_its_parts() {
    let err = LispError::parsing_error(3, "prog.lisp".to_string());
    assert_eq!(err.explanation, None);
    assert_eq!(
        err.err_type,
        ErrorType::ParsingError {
            line: 3,
            file: "prog.lisp".to_string()
        }
    );
    assert_eq!(err.to_string(), "3: prog.lisp");

    let err = LispError::runtime_error("went wrong").add_reason("badly");
    assert_eq!(err.explanation, Some("badly".to_string()));
    assert_eq!(err.to_string(), "went wrong => badly");
}
