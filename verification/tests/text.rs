use grid_ops::text::{is_blank, latest_field, strip_ansi};

#[test]
fn revision_parser_uses_exact_fields_and_strips_ansi() {
    let logs = "previous_serving_revision=old \x1b[32maccepted_revision=next\x1b[0m serving_revision=\"next\"";
    let clean = strip_ansi(logs);
    assert_eq!(latest_field(&clean, "accepted_revision").as_deref(), Some("next"));
    assert_eq!(latest_field(&clean, "serving_revision").as_deref(), Some("next"));
    assert_eq!(
        latest_field(&clean, "previous_serving_revision").as_deref(),
        Some("old")
    );
}

#[test]
fn revision_parser_does_not_match_similarly_named_fields() {
    let logs = "previous_serving_revision=old retained_serving_revision=retained";
    assert_eq!(latest_field(logs, "accepted_revision"), None);
    assert_eq!(latest_field(logs, "serving_revision"), None);
}

#[test]
fn strip_ansi_drops_escape_sequences_only() {
    assert_eq!(strip_ansi("plain text"), "plain text");
    assert_eq!(strip_ansi("\x1b[1;31mred\x1b[0m and \x1b[Kclear"), "red and clear");
    // An escape that is never closed swallows the rest of the input.
    assert_eq!(strip_ansi("keep\x1b[12;"), "keep");
    assert_eq!(strip_ansi(""), "");
    assert_eq!(strip_ansi("é\x1b[2Jü"), "éü");
}

#[test]
fn latest_field_prefers_the_last_line_that_has_the_field() {
    let logs = "serving_revision=one\nnoise here\nserving_revision=two other=x\n\n";
    assert_eq!(latest_field(logs, "serving_revision").as_deref(), Some("two"));
}

#[test]
fn latest_field_takes_the_first_matching_word_of_a_line() {
    let logs = "a serving_revision=first serving_revision=second";
    assert_eq!(latest_field(logs, "serving_revision").as_deref(), Some("first"));
}

#[test]
fn latest_field_trims_quotes_then_commas() {
    assert_eq!(latest_field("f=\"v\",", "f").as_deref(), Some("v\""));
    assert_eq!(latest_field("f=\"v\"", "f").as_deref(), Some("v"));
    assert_eq!(latest_field("f=,,v,,", "f").as_deref(), Some("v"));
    assert_eq!(latest_field("f=\"\"", "f").as_deref(), Some(""));
    assert_eq!(latest_field("f=", "f").as_deref(), Some(""));
}

#[test]
fn latest_field_splits_on_unicode_whitespace_and_crlf() {
    let logs = "x\u{3000}f=wide\r\nf=old\u{a0}y=1\r\n";
    assert_eq!(latest_field(logs, "f").as_deref(), Some("old"));
    assert_eq!(latest_field(logs, "y").as_deref(), Some("1"));
    assert_eq!(latest_field("", "f"), None);
}

#[test]
fn blank_means_only_whitespace() {
    assert!(is_blank(""));
    assert!(is_blank(" \t\n\u{2028}"));
    assert!(!is_blank(" x "));
}
