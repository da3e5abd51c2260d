use dialog_blackboard::board::Blackboard;
use dialog_blackboard::value::Diag;
use dialog_blackboard::value::Entry;

#[test]
fn conjunction_of_two_chunks() {
    let mut bb = Blackboard::new();
    bb.parse_action(String::from("set a 1;set b 2"));
    assert!(bb.parse_query(String::from("a == 1 and b == 2")));
    assert!(!bb.parse_query(String::from("a == 1 and b == 5")));
}

#[test]
fn short_circuit_skips_later_chunks() {
    let mut bb = Blackboard::new();
    bb.set("a", "1");
    // The second chunk is malformed and would leave a diagnostic, but the
    // first chunk is already false, so it is never looked at.
    assert!(!bb.parse_query(String::from("a == 9 and x y")));
    assert!(bb.diagnostics().is_empty());
    // Reached on its own, the same malformed term does leave one.
    assert!(!bb.parse_query(String::from("x y")));
    assert_eq!(bb.diagnostics().as_slice(), &[Diag::MalformedSegment]);
}

#[test]
fn disjunction_within_one_chunk() {
    let mut bb = Blackboard::new();
    bb.set("a", "1");
    assert!(bb.parse_query(String::from("a == 1 or a == 99")));
    assert!(!bb.parse_query(String::from("a == 98 or a == 99")));
}

#[test]
fn relational_operators() {
    let mut bb = Blackboard::new();
    bb.set("a", "5");
    assert!(bb.parse_query(String::from("a == 5")));
    assert!(!bb.parse_query(String::from("a != 5")));
    assert!(bb.parse_query(String::from("a >= 5")));
    assert!(bb.parse_query(String::from("a <= 5")));
    assert!(bb.parse_query(String::from("a > 4")));
    assert!(!bb.parse_query(String::from("a < 5")));
    assert!(bb.parse_query(String::from("4.99 < a")));
}

#[test]
fn comparisons_are_exact_to_a_hundredth() {
    let mut bb = Blackboard::new();
    bb.set("a", "5");
    // A third fraction digit is below the comparison precision.
    assert!(bb.parse_query(String::from("a == 5.001")));
    assert!(!bb.parse_query(String::from("a == 5.01")));
}

#[test]
fn unknown_operator_is_false_with_diagnostic() {
    let mut bb = Blackboard::new();
    bb.set("a", "1");
    assert!(!bb.parse_query(String::from("a ~= 1")));
    assert_eq!(bb.diagnostics().as_slice(), &[Diag::UnknownOperator]);
}

#[test]
fn quoted_term_with_spaces_is_flagged() {
    let mut bb = Blackboard::new();
    assert!(!bb.parse_query(String::from("a == \"b c\"")));
    assert_eq!(
        bb.diagnostics().as_slice(),
        &[Diag::QuoteInTerm, Diag::MalformedSegment]
    );
}

#[test]
fn identical_strings_compare_equal() {
    let mut bb = Blackboard::new();
    bb.set("s1", "\"x\"");
    bb.set("s2", "\"x\"");
    assert!(bb.parse_query(String::from("s1 == s2")));
    assert!(!bb.parse_query(String::from("s1 != s2")));
    assert!(bb.parse_query(String::from("s1 == \"x\"")));
}

#[test]
fn booleans_compare_as_one_and_zero() {
    let mut bb = Blackboard::new();
    bb.set("t", "true");
    bb.set("f", "false");
    assert!(bb.parse_query(String::from("t == 0.01")));
    assert!(bb.parse_query(String::from("f == 0")));
    assert!(bb.parse_query(String::from("t > f")));
}

#[test]
fn unresolved_operands_sort_lowest() {
    let mut bb = Blackboard::new();
    bb.set("a", "1");
    assert!(!bb.parse_query(String::from("missing == 1")));
    assert!(bb.parse_query(String::from("missing < a")));
    // Two failed resolutions share the sentinel key and so compare equal.
    assert!(bb.parse_query(String::from("missing == missing2")));
}

#[test]
fn query_leaves_store_unchanged() {
    let mut bb = Blackboard::new();
    assert!(!bb.parse_query(String::from("k == 1")));
    assert_eq!(bb.get_raw_value("k"), Entry::Nil);
}

#[test]
fn and_matches_as_substring() {
    let mut bb = Blackboard::new();
    bb.set("band", "1");
    // The splitter knows nothing of word boundaries: `band` is cut at `and`,
    // a grammar limitation the query language lives with.
    assert!(!bb.parse_query(String::from("band == 1")));
}

#[test]
fn empty_query_is_false() {
    let mut bb = Blackboard::new();
    // One empty chunk with one empty, malformed term.
    assert!(!bb.parse_query(String::from("")));
    assert_eq!(bb.diagnostics().as_slice(), &[Diag::MalformedSegment]);
}
