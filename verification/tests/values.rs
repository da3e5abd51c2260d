use dialog_blackboard::board::Blackboard;
use dialog_blackboard::value::Diag;
use dialog_blackboard::value::Entry;

#[test]
fn numbers_render_with_two_fraction_digits() {
    let mut bb = Blackboard::new();
    bb.set("k", "3.14");
    assert_eq!(bb.get_display_value("k"), "3.14");
    bb.set("k", "-2.5");
    assert_eq!(bb.get_display_value("k"), "-2.50");
    bb.set("k", "0");
    assert_eq!(bb.get_display_value("k"), "0.00");
    bb.set("k", "120");
    assert_eq!(bb.get_display_value("k"), "120.00");
}

#[test]
fn booleans_and_text_render_verbatim() {
    let mut bb = Blackboard::new();
    bb.set("t", "true");
    bb.set("f", "false");
    bb.set("s", "\"word\"");
    assert_eq!(bb.get_display_value("t"), "true");
    assert_eq!(bb.get_display_value("f"), "false");
    assert_eq!(bb.get_display_value("s"), "word");
}

#[test]
fn missing_key_renders_nil_with_diagnostic() {
    let mut bb = Blackboard::new();
    assert_eq!(bb.get_display_value("missing"), "nil");
    assert_eq!(bb.get_raw_value("missing"), Entry::Nil);
    assert_eq!(
        bb.diagnostics().as_slice(),
        &[Diag::LookupMiss, Diag::LookupMiss]
    );
    // A present key is retrieved without a diagnostic.
    bb.set("k", "1");
    assert_eq!(bb.get_raw_value("k"), Entry::Number(100));
    assert_eq!(
        bb.diagnostics().as_slice(),
        &[Diag::LookupMiss, Diag::LookupMiss]
    );
}

#[test]
fn fraction_digits_beyond_the_second_are_dropped() {
    let mut bb = Blackboard::new();
    bb.set("k", "1.239");
    assert_eq!(bb.get_raw_value("k"), Entry::Number(123));
}

#[test]
fn negative_literals_floor_toward_negative_infinity() {
    let mut bb = Blackboard::new();
    bb.set("k", "-0.125");
    assert_eq!(bb.get_raw_value("k"), Entry::Number(-13));
    assert_eq!(bb.get_display_value("k"), "-0.13");
    // Dropped zeros change nothing.
    bb.set("k", "-1.230");
    assert_eq!(bb.get_raw_value("k"), Entry::Number(-123));
    // The key of a stored number is its floored hundredths count.
    bb.set("a", "-0.125");
    assert!(bb.parse_query(String::from("a == -0.13")));
    assert!(!bb.parse_query(String::from("a == -0.12")));
}

#[test]
fn malformed_numbers_are_rejected() {
    let mut bb = Blackboard::new();
    for lit in ["-", "1.", ".5", "--1", "1.2.3", "1e3", "+5", "\"unclosed"] {
        bb.set("k", lit);
        assert_eq!(bb.get_raw_value("k"), Entry::Nil, "literal {lit}");
    }
}

#[test]
fn huge_numbers_saturate() {
    let mut bb = Blackboard::new();
    bb.set("k", "999999999999999999999999");
    assert_eq!(bb.get_raw_value("k"), Entry::Number(i64::MAX));
    assert_eq!(bb.get_display_value("k"), "92233720368547758.07");
    bb.set("k", "-999999999999999999999999");
    assert_eq!(bb.get_raw_value("k"), Entry::Number(i64::MIN));
    assert_eq!(bb.get_display_value("k"), "-92233720368547758.08");
}

#[test]
fn addition_saturates_at_the_bounds() {
    let mut bb = Blackboard::new();
    bb.set("k", "92233720368547758");
    bb.add("k", "92233720368547758");
    assert_eq!(bb.get_raw_value("k"), Entry::Number(i64::MAX));
    bb.set("k", "-92233720368547758");
    bb.sub("k", "92233720368547758");
    assert_eq!(bb.get_raw_value("k"), Entry::Number(i64::MIN));
}

#[test]
fn empty_quoted_text() {
    let mut bb = Blackboard::new();
    bb.set("k", "\"\"");
    assert_eq!(bb.get_raw_value("k"), Entry::Text(String::new()));
    assert_eq!(bb.get_display_value("k"), "");
}

#[test]
fn duplicate_copies_deeply() {
    let e = Entry::Text(String::from("abc"));
    let d = e.duplicate();
    assert_eq!(e, d);
    let n = Entry::Number(42).duplicate();
    assert_eq!(n, Entry::Number(42));
}

#[test]
fn display_string_of_entries() {
    assert_eq!(Entry::Number(800).display_string(), "8.00");
    assert_eq!(Entry::Number(-1).display_string(), "-0.01");
    assert_eq!(Entry::Boolean(true).display_string(), "true");
    assert_eq!(Entry::Nil.display_string(), "nil");
    assert_eq!(Entry::Text(String::from("t")).display_string(), "t");
}

#[test]
fn comparison_key_is_deterministic() {
    let a = Entry::Text(String::from("flag"));
    let b = Entry::Text(String::from("flag"));
    // Identical text always hashes alike; nothing is asserted of distinct
    // texts, whose keys may collide.
    assert_eq!(a.comparison_key(), b.comparison_key());
    assert_eq!(Entry::Boolean(true).comparison_key(), 1);
    assert_eq!(Entry::Boolean(false).comparison_key(), 0);
    assert_eq!(Entry::Nil.comparison_key(), i32::MIN);
    assert_eq!(Entry::Number(250).comparison_key(), 250);
    assert_eq!(Entry::Number(i64::MAX).comparison_key(), i32::MAX);
    assert_eq!(Entry::Number(i64::MIN).comparison_key(), i32::MIN);
}

#[test]
fn debug_print_lists_entries_in_insertion_order() {
    let mut bb = Blackboard::new();
    assert_eq!(bb.debug_print(), "Blackboard {  }");
    bb.set("k", "5");
    bb.set("s", "\"v\"");
    assert_eq!(bb.debug_print(), "Blackboard { k = 5.00, \ns = v, \n }");
}

#[test]
fn default_board_is_empty() {
    let bb = Blackboard::default();
    assert!(bb.diagnostics().is_empty());
    assert_eq!(bb.debug_print(), "Blackboard {  }");
}
