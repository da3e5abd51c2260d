use dialog_blackboard::board::Blackboard;
use dialog_blackboard::value::Diag;
use dialog_blackboard::value::Entry;

#[test]
fn round_trip_number() {
    let mut bb = Blackboard::new();
    bb.set("k", "5");
    assert_eq!(bb.get_raw_value("k"), Entry::Number(500));
}

#[test]
fn round_trip_string() {
    let mut bb = Blackboard::new();
    bb.set("k", "\"hi\"");
    assert_eq!(bb.get_raw_value("k"), Entry::Text(String::from("hi")));
}

#[test]
fn round_trip_boolean() {
    let mut bb = Blackboard::new();
    bb.set("k", "true");
    assert_eq!(bb.get_raw_value("k"), Entry::Boolean(true));
    bb.set("k", "false");
    assert_eq!(bb.get_raw_value("k"), Entry::Boolean(false));
}

#[test]
fn set_overwrites() {
    let mut bb = Blackboard::new();
    bb.set("k", "5");
    bb.set("k", "\"x\"");
    assert_eq!(bb.get_raw_value("k"), Entry::Text(String::from("x")));
}

#[test]
fn set_rejects_unparsable_literal() {
    let mut bb = Blackboard::new();
    bb.set("k", "hello");
    assert_eq!(bb.diagnostics().as_slice(), &[Diag::UnparsableLiteral]);
    assert_eq!(bb.get_raw_value("k"), Entry::Nil);
}

#[test]
fn add_on_undefined_key_is_no_op() {
    let mut bb = Blackboard::new();
    bb.set("other", "1");
    bb.add("k", "3");
    assert_eq!(bb.diagnostics().as_slice(), &[Diag::UndefinedKey]);
    assert_eq!(bb.get_raw_value("k"), Entry::Nil);
    assert_eq!(bb.get_raw_value("other"), Entry::Number(100));
}

#[test]
fn sub_on_undefined_key_is_no_op() {
    let mut bb = Blackboard::new();
    bb.sub("k", "3");
    assert_eq!(bb.diagnostics().as_slice(), &[Diag::UndefinedKey]);
    assert_eq!(bb.get_raw_value("k"), Entry::Nil);
}

#[test]
fn add_then_display_two_fraction_digits() {
    let mut bb = Blackboard::new();
    bb.parse_action(String::from("set k 5;add k 3"));
    assert_eq!(bb.get_display_value("k"), "8.00");
}

#[test]
fn sub_string_from_number_corrupts_entry() {
    let mut bb = Blackboard::new();
    bb.parse_action(String::from("set k 5;sub k \"hello\""));
    assert_eq!(bb.get_raw_value("k"), Entry::Nil);
    assert_eq!(bb.get_display_value("k"), "nil");
    assert!(bb.diagnostics().is_empty());
}

#[test]
fn add_string_to_number_corrupts_entry() {
    let mut bb = Blackboard::new();
    bb.set("k", "5");
    bb.add("k", "\"x\"");
    assert_eq!(bb.get_raw_value("k"), Entry::Nil);
}

#[test]
fn add_to_boolean_corrupts_entry() {
    let mut bb = Blackboard::new();
    bb.set("k", "true");
    bb.add("k", "1");
    assert_eq!(bb.get_raw_value("k"), Entry::Nil);
}

#[test]
fn add_boolean_counts_one() {
    let mut bb = Blackboard::new();
    bb.parse_action(String::from("set k 5;add k true;sub k false"));
    assert_eq!(bb.get_display_value("k"), "6.00");
}

#[test]
fn sub_numbers() {
    let mut bb = Blackboard::new();
    bb.parse_action(String::from("set k 5;sub k 7.25"));
    assert_eq!(bb.get_display_value("k"), "-2.25");
}

#[test]
fn string_concatenation() {
    let mut bb = Blackboard::new();
    bb.set("s", "\"ab\"");
    bb.add("s", "\"cd\"");
    assert_eq!(bb.get_display_value("s"), "abcd");
    bb.add("s", "2");
    assert_eq!(bb.get_display_value("s"), "abcd2.00");
    bb.add("s", "true");
    assert_eq!(bb.get_display_value("s"), "abcd2.00true");
}

#[test]
fn malformed_action_skipped_later_one_runs() {
    let mut bb = Blackboard::new();
    bb.parse_action(String::from("foo bar;set k 1"));
    assert_eq!(bb.get_display_value("k"), "1.00");
    assert_eq!(bb.diagnostics().as_slice(), &[Diag::MalformedSegment]);
}

#[test]
fn unknown_command_skipped() {
    let mut bb = Blackboard::new();
    bb.parse_action(String::from("mul k 5"));
    assert_eq!(bb.diagnostics().as_slice(), &[Diag::UnknownCommand]);
    assert_eq!(bb.get_raw_value("k"), Entry::Nil);
}

#[test]
fn unparsable_literal_in_action() {
    let mut bb = Blackboard::new();
    bb.parse_action(String::from("set k 5;add k bogus"));
    assert_eq!(bb.get_display_value("k"), "5.00");
    assert_eq!(bb.diagnostics().as_slice(), &[Diag::UnparsableLiteral]);
}

#[test]
fn empty_segments_skipped_silently() {
    let mut bb = Blackboard::new();
    bb.parse_action(String::from("set k 1;;   ;set j 2"));
    assert_eq!(bb.get_display_value("k"), "1.00");
    assert_eq!(bb.get_display_value("j"), "2.00");
    assert!(bb.diagnostics().is_empty());
}

#[test]
fn whitespace_runs_separate_tokens() {
    let mut bb = Blackboard::new();
    bb.parse_action(String::from("  set \t k   5  "));
    assert_eq!(bb.get_display_value("k"), "5.00");
    assert!(bb.diagnostics().is_empty());
}

#[test]
fn quoted_value_keeps_embedded_spaces() {
    let mut bb = Blackboard::new();
    bb.parse_action(String::from("set k \"a b  c\""));
    assert_eq!(bb.get_raw_value("k"), Entry::Text(String::from("a b  c")));
}

#[test]
fn two_token_segment_is_malformed() {
    let mut bb = Blackboard::new();
    bb.parse_action(String::from("set k"));
    assert_eq!(bb.diagnostics().as_slice(), &[Diag::MalformedSegment]);
    assert_eq!(bb.get_raw_value("k"), Entry::Nil);
}
