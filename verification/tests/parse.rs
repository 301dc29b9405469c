use lib::operation::Operation;
use lib::parse::{include_paths, parse_source, ParseError};

fn parse(code: &str) -> Result<Vec<Operation>, ParseError> {
    parse_source(code, &vec![])
}

#[test]
fn readme_loop_parses() {
    let ops = parse("10 0 while 2dup > do\n    1 +\n    dup dump\nend\n").unwrap();
    assert_eq!(
        ops,
        vec![
            Operation::Push(10),
            Operation::Push(0),
            Operation::While,
            Operation::Dup { depth: 2 },
            Operation::Greater,
            Operation::Do { address: 0 },
            Operation::Push(1),
            Operation::Plus { depth: 1 },
            Operation::Dup { depth: 1 },
            Operation::Dump,
            Operation::End { address: 0 },
        ]
    );
}

#[test]
fn every_keyword_has_its_operation() {
    let ops = parse("+ - / % = not != > < & | << >> if else while do end dup 2dup swap over rot mem ! @ !32 @32 !64 @64 drop syscall1 syscall2 syscall3 ; dump").unwrap();
    assert_eq!(
        ops,
        vec![
            Operation::Plus { depth: 1 },
            Operation::Minus,
            Operation::Div,
            Operation::Mod,
            Operation::Equals,
            Operation::Not,
            Operation::NotEqual,
            Operation::Greater,
            Operation::Lower,
            Operation::BitAnd,
            Operation::BitOr,
            Operation::BitShiftLeft,
            Operation::BitShiftRight,
            Operation::If { address: 0 },
            Operation::Else { address: 0 },
            Operation::While,
            Operation::Do { address: 0 },
            Operation::End { address: 0 },
            Operation::Dup { depth: 1 },
            Operation::Dup { depth: 2 },
            Operation::Swap,
            Operation::Over,
            Operation::Rot,
            Operation::Mem,
            Operation::Store,
            Operation::Load,
            Operation::Store32,
            Operation::Load32,
            Operation::Store64,
            Operation::Load64,
            Operation::Drop,
            Operation::Syscall { arg_count: 1 },
            Operation::Syscall { arg_count: 2 },
            Operation::Syscall { arg_count: 3 },
            Operation::EndMacro,
            Operation::Dump,
        ]
    );
}

#[test]
fn comments_end_the_line() {
    assert_eq!(
        parse("1 2 + // 3 4\n5").unwrap(),
        vec![Operation::Push(1), Operation::Push(2), Operation::Plus { depth: 1 }, Operation::Push(5)]
    );
}

#[test]
fn string_literal_with_escaped_newline() {
    assert_eq!(
        parse("\"hello\\n\" 1 1 syscall3").unwrap(),
        vec![
            Operation::String("hello\n".to_string()),
            Operation::Push(1),
            Operation::Push(1),
            Operation::Syscall { arg_count: 3 },
        ]
    );
}

#[test]
fn string_literal_with_spaces_is_one_word() {
    assert_eq!(
        parse("\"a b\" drop").unwrap(),
        vec![Operation::String("a b".to_string()), Operation::Drop]
    );
}

#[test]
fn two_literals_on_a_line_are_taken_from_the_last() {
    assert_eq!(
        parse("\"x\" \"y\"").unwrap(),
        vec![Operation::String("y".to_string()), Operation::String("x".to_string())]
    );
}

#[test]
fn macro_definition_takes_the_next_word() {
    assert_eq!(
        parse("macro BYTE 8 ;").unwrap(),
        vec![
            Operation::DefineMacro { name: "BYTE".to_string() },
            Operation::Push(8),
            Operation::EndMacro,
        ]
    );
}

#[test]
fn unknown_words_call_macros() {
    assert_eq!(parse("first").unwrap(), vec![Operation::CallMacro { name: "first".to_string() }]);
}

#[test]
fn number_errors() {
    assert_eq!(parse("12abc"), Err(ParseError::InvalidNumber("12abc".to_string())));
    assert_eq!(
        parse("18446744073709551616"),
        Err(ParseError::InvalidNumber("18446744073709551616".to_string()))
    );
    assert_eq!(parse("18446744073709551615").unwrap(), vec![Operation::Push(u64::MAX)]);
}

#[test]
fn macro_without_name_is_refused() {
    assert_eq!(parse("1 macro\nfoo"), Err(ParseError::MissingMacroName));
}

#[test]
fn string_word_without_literal_is_refused() {
    assert_eq!(parse("string"), Err(ParseError::MissingString));
}

#[test]
fn first_error_in_text_order_wins() {
    assert_eq!(parse("9x\nmacro"), Err(ParseError::InvalidNumber("9x".to_string())));
}

#[test]
fn carriage_returns_before_newlines_are_dropped() {
    assert_eq!(parse("1\r\n2\r\n").unwrap(), vec![Operation::Push(1), Operation::Push(2)]);
}

#[test]
fn include_paths_are_listed_without_quotes() {
    let paths = include_paths("include \"std.can\"\n1 dump\ninclude other.can\n").unwrap();
    assert_eq!(paths, vec!["std.can".to_string(), "other.can".to_string()]);
}

#[test]
fn include_without_path_is_refused() {
    assert_eq!(include_paths("include\n"), Err(ParseError::MissingIncludePath));
}

#[test]
fn included_text_comes_first_and_include_lines_are_dropped() {
    let ops = parse_source("1\ninclude \"lib.can\"\n2\n", &vec!["7\n".to_string()]).unwrap();
    assert_eq!(ops, vec![Operation::Push(7), Operation::Push(1), Operation::Push(2)]);
}

#[test]
fn included_texts_without_final_newline_join_the_next_line() {
    let ops = parse_source("2", &vec!["1".to_string()]).unwrap();
    assert_eq!(ops, vec![Operation::Push(12)]);
}
