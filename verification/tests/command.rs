use crabdb::command::{parse, split_word, trim_end, Command, ParseError};

#[test]
fn parses_set_with_single_space() {
    assert_eq!(
        parse("SET key value").unwrap(),
        Command::Put("key".to_owned(), "value".to_owned())
    );
}

#[test]
fn set_with_repeated_spaces_does_not_leak_into_value() {
    assert_eq!(
        parse("SET key  value").unwrap(),
        Command::Put("key".to_owned(), "value".to_owned())
    );

    assert_eq!(
        parse("SET   key    value").unwrap(),
        Command::Put("key".to_owned(), "value".to_owned())
    );
}

#[test]
fn set_value_may_contain_internal_spaces() {
    assert_eq!(
        parse("SET key hello world").unwrap(),
        Command::Put("key".to_owned(), "hello world".to_owned())
    );
}

#[test]
fn set_missing_value_is_an_error() {
    assert!(matches!(parse("SET key"), Err(ParseError::MissingValue(_))));
}

#[test]
fn set_missing_key_is_an_error() {
    assert!(matches!(parse("SET"), Err(ParseError::MissingKey(_))));
}

#[test]
fn parses_get() {
    assert_eq!(parse("GET key").unwrap(), Command::Get("key".to_owned()));
}

#[test]
fn get_missing_key_is_an_error() {
    assert!(matches!(parse("GET"), Err(ParseError::MissingKey(_))));
}

#[test]
fn get_with_extra_argument_is_an_error() {
    assert!(matches!(
        parse("GET key extra"),
        Err(ParseError::ExtraArgument(_))
    ));
}

#[test]
fn parses_delete() {
    assert_eq!(
        parse("DELETE key").unwrap(),
        Command::Delete("key".to_owned())
    );
}

#[test]
fn delete_with_extra_argument_is_an_error() {
    assert!(matches!(
        parse("DELETE key extra"),
        Err(ParseError::ExtraArgument(_))
    ));
}

#[test]
fn command_names_are_case_insensitive() {
    assert_eq!(
        parse("set key value").unwrap(),
        Command::Put("key".to_owned(), "value".to_owned())
    );
}

#[test]
fn unknown_command_is_an_error() {
    assert!(matches!(
        parse("FROB key"),
        Err(ParseError::UnknownCommand(cmd)) if cmd == "FROB"
    ));
}

#[test]
fn mixed_case_command_names_parse() {
    assert_eq!(parse("GeT k").unwrap(), Command::Get("k".to_owned()));
    assert_eq!(parse("dElEtE k").unwrap(), Command::Delete("k".to_owned()));
    assert_eq!(
        parse("sEt k v").unwrap(),
        Command::Put("k".to_owned(), "v".to_owned())
    );
}

#[test]
fn non_ascii_case_is_not_folded() {
    // Only ASCII letters are folded: a dotted capital I does not match `i`.
    assert_eq!(
        parse("GET\u{0130} k"),
        Err(ParseError::UnknownCommand("GET\u{0130}".to_owned()))
    );
}

#[test]
fn error_carries_the_usage_line() {
    assert_eq!(parse("SET"), Err(ParseError::MissingKey("SET <key> <value>")));
    assert_eq!(parse("set k"), Err(ParseError::MissingValue("SET <key> <value>")));
    assert_eq!(parse("GET"), Err(ParseError::MissingKey("GET <key>")));
    assert_eq!(parse("DELETE"), Err(ParseError::MissingKey("DELETE <key>")));
}

#[test]
fn extra_argument_is_the_rest_of_the_line() {
    assert_eq!(
        parse("GET key  extra more"),
        Err(ParseError::ExtraArgument("extra more".to_owned()))
    );
    assert_eq!(
        parse("DELETE key\textra"),
        Err(ParseError::ExtraArgument("extra".to_owned()))
    );
}

#[test]
fn empty_and_blank_lines_are_unknown_commands() {
    assert_eq!(parse(""), Err(ParseError::UnknownCommand(String::new())));
    assert_eq!(parse("   \t "), Err(ParseError::UnknownCommand(String::new())));
}

#[test]
fn unicode_white_space_separates_words() {
    // Tabs, newlines and a no-break space all count as white space.
    assert_eq!(
        parse("\tSET\nkey\u{00A0} value here").unwrap(),
        Command::Put("key".to_owned(), "value here".to_owned())
    );
    // A character without the property does not.
    assert_eq!(parse("GET a\u{8d8a}b").unwrap(), Command::Get("a\u{8d8a}b".to_owned()));
}

#[test]
fn split_word_drops_leading_space_of_both_parts() {
    assert_eq!(split_word("  alpha   beta gamma"), ("alpha", "beta gamma"));
    assert_eq!(split_word("alpha"), ("alpha", ""));
    assert_eq!(split_word("   "), ("", ""));
    assert_eq!(split_word("alpha   "), ("alpha", ""));
}

#[test]
fn parse_error_messages() {
    assert_eq!(
        parse("SET").unwrap_err().message(),
        "error: missing key\n\nUsage: SET <key> <value>"
    );
    assert_eq!(
        parse("SET k").unwrap_err().message(),
        "error: missing value\n\nUsage: SET <key> <value>"
    );
    assert_eq!(parse("GET").unwrap_err().message(), "error: missing key\n\nUsage: GET <key>");
    assert_eq!(
        parse("DELETE").unwrap_err().message(),
        "error: missing key\n\nUsage: DELETE <key>"
    );
    assert_eq!(
        ParseError::ExtraArgument("x y".to_owned()).message(),
        "error: extra argument 'x y'"
    );
    assert_eq!(parse("FROB key").unwrap_err().message(), "error: unknown command 'FROB'");
}

#[test]
fn trim_end_drops_trailing_white_space_only() {
    assert_eq!(trim_end("SET k v \r\n"), "SET k v");
    assert_eq!(trim_end("  GET k"), "  GET k");
    assert_eq!(trim_end(" \t\n"), "");
    assert_eq!(trim_end(""), "");
    assert_eq!(parse(trim_end("SET k two words\n")).unwrap(), Command::Put("k".to_owned(), "two words".to_owned()));
}
