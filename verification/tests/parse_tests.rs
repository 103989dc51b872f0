use jsonpp::json_object::JSONObject;
use jsonpp::parser::parse;
use jsonpp::parser::ParseError;

fn s(x: &str) -> JSONObject {
    JSONObject::String { value: x.to_string() }
}

fn integer(n: i64) -> JSONObject {
    JSONObject::Integer { value: n }
}

fn float(tok: &str) -> JSONObject {
    JSONObject::Float { value: tok.to_string() }
}

#[test]
fn parse_null_literal() {
    assert_eq!(parse("null").unwrap(), JSONObject::Null);
}

#[test]
fn parse_true_false() {
    assert_eq!(parse("true").unwrap(), JSONObject::Bool { value: true });
    assert_eq!(parse("false").unwrap(), JSONObject::Bool { value: false });
}

#[test]
fn parse_mixed_array() {
    let expected = JSONObject::Array { values: vec![integer(1), float("2.5"), s("x")] };
    assert_eq!(parse("[1, 2.5, \"x\"]").unwrap(), expected);
}

#[test]
fn parse_simple_object() {
    let expected = JSONObject::Object {
        children: vec![(s("k"), JSONObject::Bool { value: true })],
    };
    assert_eq!(parse("{\"k\": true}").unwrap(), expected);
}

#[test]
fn parse_escape_decoding() {
    assert_eq!(parse("\"a\\nb\\u0041\"").unwrap(), s("a\nbA"));
}

#[test]
fn parse_all_named_escapes() {
    assert_eq!(parse("\"\\\"\\t\\n\\r\\\\\"").unwrap(), s("\"\t\n\r\\"));
}

#[test]
fn parse_unknown_escape_passes_through() {
    assert_eq!(parse("\"a\\qb\"").unwrap(), s("aqb"));
}

#[test]
fn parse_uppercase_hex_escape() {
    assert_eq!(parse("\"\\u00E9\"").unwrap(), s("\u{e9}"));
}

#[test]
fn parse_trailing_comma_in_object_accepted() {
    let expected = JSONObject::Object { children: vec![(s("a"), integer(1))] };
    assert_eq!(parse("{\"a\":1,}").unwrap(), expected);
}

#[test]
fn parse_empty_input_fails() {
    assert_eq!(parse("").unwrap_err(), ParseError::EmptyInput);
    assert_eq!(parse("   \t\n").unwrap_err(), ParseError::EmptyInput);
}

#[test]
fn parse_number_with_second_dot_keeps_trailing_rule() {
    // the scan stops at the second dot; the trailing ".56" is ignored at the
    // top level
    assert_eq!(parse("12.34.56").unwrap(), float("12.34"));
}

#[test]
fn parse_whitespace_idempotence() {
    assert_eq!(parse(" \t\n{\"a\":1}\n ").unwrap(), parse("{\"a\":1}").unwrap());
}

#[test]
fn parse_leading_whitespace_before_scalars() {
    assert_eq!(parse("  5").unwrap(), integer(5));
    assert_eq!(parse("  null").unwrap(), JSONObject::Null);
    assert_eq!(parse(" [1]").unwrap(), JSONObject::Array { values: vec![integer(1)] });
}

#[test]
fn parse_trailing_content_ignored() {
    assert_eq!(parse("5 garbage $$$").unwrap(), integer(5));
    assert_eq!(parse("{\"a\":1} trailing").unwrap(), parse("{\"a\":1}").unwrap());
}

#[test]
fn parse_integer_bounds() {
    assert_eq!(parse("9223372036854775807").unwrap(), integer(i64::MAX));
    assert_eq!(
        parse("9223372036854775808").unwrap_err(),
        ParseError::MalformedNumber { token: "9223372036854775808".to_string() },
    );
}

#[test]
fn parse_float_token_is_kept_verbatim() {
    assert_eq!(parse("2.50").unwrap(), float("2.50"));
    assert_eq!(parse("5.").unwrap(), float("5."));
}

#[test]
fn parse_stray_comma_in_array_is_skipped() {
    assert_eq!(parse("[,]").unwrap(), JSONObject::Array { values: vec![] });
    assert_eq!(parse("[,1]").unwrap(), JSONObject::Array { values: vec![integer(1)] });
}

#[test]
fn parse_array_without_commas() {
    let expected = JSONObject::Array { values: vec![integer(1), integer(2)] };
    assert_eq!(parse("[1 2]").unwrap(), expected);
}

#[test]
fn parse_non_string_object_key() {
    let expected = JSONObject::Object { children: vec![(integer(1), integer(2))] };
    assert_eq!(parse("{1: 2}").unwrap(), expected);
}

#[test]
fn parse_duplicate_keys_preserved_in_order() {
    let expected = JSONObject::Object {
        children: vec![(s("a"), integer(1)), (s("a"), integer(2))],
    };
    assert_eq!(parse("{\"a\":1,\"a\":2}").unwrap(), expected);
}

#[test]
fn parse_nested_structures() {
    let expected = JSONObject::Object {
        children: vec![
            (s("xs"), JSONObject::Array {
                values: vec![integer(1), JSONObject::Array { values: vec![] }],
            }),
            (s("o"), JSONObject::Object { children: vec![] }),
        ],
    };
    assert_eq!(parse("{\"xs\": [1, []], \"o\": {}}").unwrap(), expected);
}

#[test]
fn parse_unrecognized_symbol_carries_excerpt() {
    match parse("@abc").unwrap_err() {
        ParseError::UnrecognizedSymbol { found, excerpt } => {
            assert_eq!(found, '@');
            assert_eq!(excerpt, "@abc");
        }
        other => panic!("wrong error: {:?}", other),
    }
}

#[test]
fn parse_malformed_keyword() {
    assert_eq!(
        parse("nil").unwrap_err(),
        ParseError::MalformedKeyword { token: "nil".to_string() },
    );
    assert_eq!(
        parse("truex").unwrap_err(),
        ParseError::MalformedKeyword { token: "truex".to_string() },
    );
}

#[test]
fn parse_unterminated_string() {
    assert_eq!(parse("\"abc").unwrap_err(), ParseError::UnterminatedString);
}

#[test]
fn parse_unfinished_escape() {
    assert_eq!(parse("\"a\\").unwrap_err(), ParseError::UnfinishedEscape);
}

#[test]
fn parse_unfinished_unicode_escape() {
    assert_eq!(parse("\"\\u12").unwrap_err(), ParseError::UnfinishedUnicodeEscape);
}

#[test]
fn parse_invalid_unicode_escape_bad_digits() {
    assert_eq!(
        parse("\"\\uZZZZ\"").unwrap_err(),
        ParseError::InvalidUnicodeEscape { digits: "ZZZZ".to_string() },
    );
}

#[test]
fn parse_invalid_unicode_escape_surrogate() {
    assert_eq!(
        parse("\"\\ud800\"").unwrap_err(),
        ParseError::InvalidUnicodeEscape { digits: "d800".to_string() },
    );
}

#[test]
fn parse_unclosed_array() {
    assert_eq!(parse("[1, ").unwrap_err(), ParseError::UnclosedArray);
}

#[test]
fn parse_unclosed_object() {
    assert_eq!(parse("{").unwrap_err(), ParseError::UnclosedObject);
}

#[test]
fn parse_input_ended_expecting_colon() {
    assert_eq!(parse("{\"a\"").unwrap_err(), ParseError::InputEndedExpectingColon);
}

#[test]
fn parse_missing_colon() {
    assert_eq!(
        parse("{\"a\" 1}").unwrap_err(),
        ParseError::MissingColon { found: '1' },
    );
}

#[test]
fn parse_unclosed_object_field() {
    assert_eq!(parse("{\"a\":1").unwrap_err(), ParseError::UnclosedObjectField);
}

#[test]
fn parse_unexpected_symbol_after_pair() {
    assert_eq!(
        parse("{\"a\":1 ;}").unwrap_err(),
        ParseError::UnexpectedSymbol { found: ';' },
    );
}

#[test]
fn error_messages_name_the_problem() {
    assert_eq!(parse("").unwrap_err().message(), "No chars to parse");
    assert_eq!(parse("nil").unwrap_err().message(), "Unrecognized keyword nil");
    assert_eq!(
        parse("9223372036854775808").unwrap_err().message(),
        "Failed to parse number 9223372036854775808 as i64",
    );
    assert_eq!(
        parse("@ab").unwrap_err().message(),
        "Unrecognized symbol @ at beginning of element, followed by: @ab",
    );
    assert_eq!(
        parse("{\"a\" 1}").unwrap_err().message(),
        "Missing : between key and value (found 1)",
    );
    assert_eq!(
        parse("\"\\uZZZZ\"").unwrap_err().message(),
        "Could not parse Unicode sequence ZZZZ",
    );
}

#[test]
fn parse_error_inside_nesting_propagates() {
    assert_eq!(parse("[1, nil]").unwrap_err(), ParseError::MalformedKeyword {
        token: "nil".to_string(),
    });
    assert_eq!(parse("{\"a\": \"x}").unwrap_err(), ParseError::UnterminatedString);
}
