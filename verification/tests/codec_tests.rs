use site_policy::codec::decode_aggregate;
use site_policy::outcome::PolicyError;

fn ok(parts: &[&str]) -> Result<Vec<String>, PolicyError> {
    Ok(parts.iter().map(|s| s.to_string()).collect())
}

#[test]
fn decodes_a_plain_aggregate() {
    assert_eq!(decode_aggregate("[\"<\",\">\"]"), ok(&["<", ">"]));
}

#[test]
fn null_placeholder_becomes_empty() {
    // A login with no forbidden characters comes back as a single null.
    assert_eq!(decode_aggregate("[null]"), ok(&[]));
}

#[test]
fn empty_array_is_empty() {
    assert_eq!(decode_aggregate("[]"), ok(&[]));
}

#[test]
fn nulls_are_dropped_in_place() {
    assert_eq!(decode_aggregate("[\"a\",null,\"b\"]"), ok(&["a", "b"]));
}

#[test]
fn order_and_duplicates_are_kept() {
    assert_eq!(decode_aggregate("[\"b\",\"a\",\"b\"]"), ok(&["b", "a", "b"]));
}

#[test]
fn short_escapes_decode() {
    assert_eq!(
        decode_aggregate("[\"\\\"\",\"\\\\\",\"\\/\",\"\\b\",\"\\f\",\"\\n\",\"\\r\",\"\\t\"]"),
        ok(&["\"", "\\", "/", "\u{0008}", "\u{000C}", "\n", "\r", "\t"])
    );
}

#[test]
fn whitespace_between_tokens_is_allowed() {
    assert_eq!(decode_aggregate(" [ \"a\" ,\tnull , \"b\" ]\n"), ok(&["a", "b"]));
}

#[test]
fn entries_may_hold_more_than_one_character() {
    assert_eq!(decode_aggregate("[\"ab\"]"), ok(&["ab"]));
}

#[test]
fn non_ascii_characters_pass_through() {
    assert_eq!(decode_aggregate("[\"é\",\"näïve\"]"), ok(&["é", "näïve"]));
}

#[test]
fn empty_input_is_malformed() {
    assert_eq!(decode_aggregate(""), Err(PolicyError::Decode));
}

#[test]
fn unclosed_array_is_malformed() {
    assert_eq!(decode_aggregate("["), Err(PolicyError::Decode));
    assert_eq!(decode_aggregate("[\"a\""), Err(PolicyError::Decode));
    assert_eq!(decode_aggregate("[null"), Err(PolicyError::Decode));
}

#[test]
fn unclosed_string_is_malformed() {
    assert_eq!(decode_aggregate("[\"a]"), Err(PolicyError::Decode));
}

#[test]
fn trailing_comma_is_malformed() {
    assert_eq!(decode_aggregate("[\"a\",]"), Err(PolicyError::Decode));
}

#[test]
fn non_array_input_is_malformed() {
    assert_eq!(decode_aggregate("{}"), Err(PolicyError::Decode));
    assert_eq!(decode_aggregate("null"), Err(PolicyError::Decode));
}

#[test]
fn other_element_kinds_are_malformed() {
    assert_eq!(decode_aggregate("[true]"), Err(PolicyError::Decode));
    assert_eq!(decode_aggregate("[1]"), Err(PolicyError::Decode));
}

#[test]
fn trailing_text_is_malformed() {
    assert_eq!(decode_aggregate("[\"a\"]x"), Err(PolicyError::Decode));
}

#[test]
fn numeric_escape_is_rejected() {
    assert_eq!(decode_aggregate("[\"\\u0041\"]"), Err(PolicyError::Decode));
}

#[test]
fn bare_control_character_is_rejected() {
    assert_eq!(decode_aggregate("[\"\u{0001}\"]"), Err(PolicyError::Decode));
}
