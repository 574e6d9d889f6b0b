use trash::error::{Error, PatternProblem};
use trash::logger::{Error as LoggerError, Logger};

#[test]
fn each_error_kind_prints_one_descriptive_line() {
    assert_eq!(Error::InvalidArguments.print().as_str(), "trash: error: invalid arguments!");
    assert_eq!(
        Error::InvalidJSON(3, 14).print().as_str(),
        "trash: error: syntax error on line 3, column 14, of settings.json or cache.json!"
    );
    assert_eq!(
        Error::InvalidRegex(PatternProblem::Syntax).print().as_str(),
        "trash: error: syntax error in regular expression!"
    );
    assert_eq!(
        Error::InvalidRegex(PatternProblem::CompiledTooBig).print().as_str(),
        "trash: error: oversized regular expression!"
    );
    assert_eq!(
        Error::InvalidRegex(PatternProblem::Other).print().as_str(),
        "trash: error: invalid regular expression!"
    );
    assert_eq!(
        Error::MissingTarget(String::from("v9")).print().as_str(),
        "trash: error: could not locate 'v9'!"
    );
    assert_eq!(
        Error::MissingTargetPredicate.print().as_str(),
        "trash: error: could not locate any target satisfying given conditions!"
    );
    assert_eq!(Error::Unknown.print().as_str(), "trash: error: unknown!");
}

#[test]
fn large_positions_print_all_their_digits() {
    assert_eq!(
        Error::InvalidJSON(120, 4096).print().as_str(),
        "trash: error: syntax error on line 120, column 4096, of settings.json or cache.json!"
    );
    assert_eq!(
        Error::InvalidJSON(0, 10).print().as_str(),
        "trash: error: syntax error on line 0, column 10, of settings.json or cache.json!"
    );
}

#[test]
fn logger_errors_describe_themselves() {
    assert_eq!(LoggerError::InvalidCommandLine.to_string().as_str(), "invalid command line");
    assert_eq!(
        LoggerError::MissingTargetFile(String::from("/tmp/a")).to_string().as_str(),
        "missing target file '/tmp/a'"
    );
}

#[test]
fn logger_prefixes_lines_with_the_application_name() {
    let logger = Logger::new(String::from("trash"));
    assert_eq!(
        logger.error(&LoggerError::InvalidCommandLine).as_str(),
        "trash: error: invalid command line!"
    );
}
