//! The tokenizer, the reader's error taxonomy, and print/read round trips.

use mal::reader::Reader;
use mal::repl::read_print;
use mal::types::MalError;
use mal::types::Token;

fn chars(s: &str) -> Vec<char> {
    let mut v = Vec::new();
    for c in s.chars() {
        v.push(c);
    }
    v
}

#[test]
fn tokenize_test() {
    let test_input = "(+ 1 2)";
    let reader = Reader::tokenize(test_input);
    let expected = vec![chars("("), chars("+"), chars("1"), chars("2"), chars(")")];
    assert_eq!(reader.tokens, expected);
}

#[test]
fn tokenize_comments_and_commas() {
    let reader = Reader::tokenize("(1 2, 3,,,,),, ; trailing words");
    let expected = vec![chars("("), chars("1"), chars("2"), chars("3"), chars(")")];
    assert_eq!(reader.tokens, expected);
}

#[test]
fn tokenize_splice_and_string() {
    let reader = Reader::tokenize("~@(a \"b c\")");
    let expected = vec![chars("~@"), chars("("), chars("a"), chars("\"b c\""), chars(")")];
    assert_eq!(reader.tokens, expected);
}

#[test]
fn reader_peek_and_next() {
    let mut reader = Reader::tokenize("(x)");
    let first = reader.peek().unwrap();
    assert_eq!(first, chars("("));
    assert_eq!(reader.next().unwrap(), chars("("));
    assert_eq!(reader.next().unwrap(), chars("x"));
    assert_eq!(reader.next().unwrap(), chars(")"));
    assert!(matches!(reader.next(), Err(MalError::Peek)));
    assert!(matches!(reader.peek(), Err(MalError::Peek)));
}

#[test]
fn empty_input_is_distinguished() {
    assert!(matches!(read_print(""), Err(MalError::Empty)));
    assert!(matches!(read_print("   ,, "), Err(MalError::Empty)));
    assert!(matches!(read_print("; only a comment"), Err(MalError::Empty)));
}

#[test]
fn unterminated_string_is_an_eof_error() {
    match read_print("\"abc") {
        Err(MalError::Eof(expected)) => assert_eq!(expected, chars("\"")),
        other => panic!("{other:?}"),
    }
}

#[test]
fn unclosed_list_names_its_closer() {
    match read_print("(1 2") {
        Err(MalError::Eof(expected)) => assert_eq!(expected, chars(")")),
        other => panic!("{other:?}"),
    }
}

#[test]
fn bare_closer_is_a_bracket_error() {
    assert!(matches!(read_print(")"), Err(MalError::Brace(')'))));
    assert!(matches!(read_print("]"), Err(MalError::Brace(']'))));
}

#[test]
fn odd_map_literal_fails() {
    assert!(matches!(read_print("{\"a\" 1 \"b\"}"), Err(MalError::MistmatchKeyValue)));
}

#[test]
fn non_string_map_key_fails() {
    match read_print("{1 2}") {
        Err(MalError::MapKey(Token::Integer(1))) => (),
        other => panic!("{other:?}"),
    }
}

#[test]
fn integer_beyond_range_fails() {
    match read_print("123456789012345678901234567890") {
        Err(MalError::ParseNumError(t)) => {
            assert_eq!(t, chars("123456789012345678901234567890"));
        },
        other => panic!("{other:?}"),
    }
}

#[test]
fn extreme_integers_round_trip() {
    assert_eq!(read_print("9223372036854775807").unwrap(), "9223372036854775807");
    assert_eq!(read_print("-9223372036854775808").unwrap(), "-9223372036854775808");
    assert_eq!(read_print("-0").unwrap(), "0");
}

#[test]
fn decimal_numerals_keep_their_text() {
    assert_eq!(read_print("2.5").unwrap(), "2.5");
    assert_eq!(read_print("-0.25").unwrap(), "-0.25");
    assert_eq!(read_print(".5").unwrap(), ".5");
}

#[test]
fn round_trip_is_idempotent_after_one_pass() {
    let cases = [
        "  ( +   1   (+   2 3   )   )  ",
        "[1 [2] \"a b\\\"c\" :kw]",
        "{\"a\" {\"b\" 2}}",
        "'(1 ~@xs)",
        "\"tab\\\\line\\nend\"",
        "-42",
    ];
    for case in cases {
        let once = read_print(case).unwrap();
        let twice = read_print(&once).unwrap();
        assert_eq!(once, twice);
    }
}

#[test]
fn duplicate_map_keys_keep_the_later_value() {
    assert_eq!(read_print("{\"a\" 1 \"a\" 2}").unwrap(), "{\"a\" 2}");
}

#[test]
fn with_meta_reads_target_before_metadata() {
    assert_eq!(
        read_print("^{\"a\" 1} [1 2 3]").unwrap(),
        "(with-meta [1 2 3] {\"a\" 1})"
    );
}

#[test]
fn keyword_and_string_stay_distinct() {
    assert_eq!(read_print(":abc").unwrap(), ":abc");
    assert_eq!(read_print("\":abc\"").unwrap(), "\":abc\"");
}
