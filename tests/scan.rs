use ast_analyser::report::{scan_tree, FailureFile, FailureNode, FailureOutput};
use ast_analyser::rules::{
    mentions_marker, Rule, RuleSet, DART_BANG, DART_COMMENT, DART_NEGATE_OPERATOR, DART_TYPE_CAST,
};
use ast_analyser::text::find_substring;
use ast_analyser::tree::{Position, SyntaxTree, TreeBuilder};

const ROOT: u16 = 1;
const EXPR: u16 = 2;

fn pos(row: usize, column: usize) -> Position {
    Position { row, column }
}

fn open_at(b: &mut TreeBuilder, kind: u16, name: &str, start: usize, end: usize) {
    b.open(kind, name.to_string(), pos(0, start), pos(0, end), start, end);
}

fn leaf(b: &mut TreeBuilder, kind: u16, name: &str, start: usize, end: usize) {
    open_at(b, kind, name, start, end);
    b.close();
}

fn chars(s: &str) -> Vec<char> {
    s.chars().collect()
}

/// root -> [expr -> [x, !], expr -> [y, !]]
fn two_bangs() -> SyntaxTree {
    let mut b = TreeBuilder::new();
    open_at(&mut b, ROOT, "program", 0, 10);
    open_at(&mut b, EXPR, "null_assertion_expression", 0, 2);
    leaf(&mut b, 3, "identifier", 0, 1);
    leaf(&mut b, DART_BANG, "!", 1, 2);
    b.close();
    open_at(&mut b, EXPR, "null_assertion_expression", 3, 5);
    leaf(&mut b, 3, "identifier", 3, 4);
    leaf(&mut b, DART_BANG, "!", 4, 5);
    b.close();
    b.close();
    b.finish().unwrap()
}

/// A tree whose only node after the root is a comment over `text`.
fn comment_tree(text: &[u8]) -> SyntaxTree {
    let mut b = TreeBuilder::new();
    open_at(&mut b, ROOT, "program", 0, text.len());
    leaf(&mut b, DART_COMMENT, "comment", 0, text.len());
    b.close();
    b.finish().unwrap()
}

fn record(id: u16, name: &str, start: usize, end: usize) -> FailureNode {
    FailureNode {
        id,
        name: name.to_string(),
        start_position: pos(0, start),
        end_position: pos(0, end),
    }
}

fn file(path: &str, n: usize) -> FailureFile {
    FailureFile {
        file_path: path.to_string(),
        failure_nodes: (0..n).map(|k| record(DART_BANG, "!", k, k + 1)).collect(),
    }
}

#[test]
fn two_unexcluded_forced_unwraps_give_two_records() {
    let t = two_bangs();
    let rules = RuleSet::dart();
    let f = scan_tree("a.dart".to_string(), &t, b"x! y!....", &rules).unwrap();
    assert_eq!(f.file_path, "a.dart");
    assert_eq!(f.failure_nodes.len(), 2);
    assert_eq!(f.failure_nodes[0].id, DART_BANG);
    assert_eq!(f.failure_nodes[0].name, "!");
    assert_eq!(f.failure_nodes[0].start_position, pos(0, 1));
    assert_eq!(f.failure_nodes[0].end_position, pos(0, 2));
    assert_eq!(f.failure_nodes[1].start_position, pos(0, 4));
}

#[test]
fn forced_unwrap_inside_checked_wrapper_is_not_recorded() {
    let mut b = TreeBuilder::new();
    open_at(&mut b, ROOT, "program", 0, 2);
    open_at(&mut b, DART_NEGATE_OPERATOR, "negate_operator", 0, 1);
    leaf(&mut b, DART_BANG, "!", 0, 1);
    b.close();
    leaf(&mut b, 3, "identifier", 1, 2);
    b.close();
    let t = b.finish().unwrap();
    assert!(scan_tree("n.dart".to_string(), &t, b"!x", &RuleSet::dart()).is_none());
}

#[test]
fn forced_unwrap_after_checked_sibling_is_not_recorded() {
    let mut b = TreeBuilder::new();
    open_at(&mut b, ROOT, "program", 0, 2);
    leaf(&mut b, DART_NEGATE_OPERATOR, "negate_operator", 0, 1);
    leaf(&mut b, DART_BANG, "!", 1, 2);
    b.close();
    let t = b.finish().unwrap();
    assert!(scan_tree("s.dart".to_string(), &t, b"!!", &RuleSet::dart()).is_none());
}

#[test]
fn forced_unwrap_elsewhere_under_checked_ancestor_is_recorded() {
    // The exclusion looks at the parent only, not at further ancestors.
    let mut b = TreeBuilder::new();
    open_at(&mut b, ROOT, "program", 0, 3);
    open_at(&mut b, DART_NEGATE_OPERATOR, "negate_operator", 0, 3);
    open_at(&mut b, EXPR, "null_assertion_expression", 0, 3);
    leaf(&mut b, 3, "identifier", 0, 2);
    leaf(&mut b, DART_BANG, "!", 2, 3);
    b.close();
    b.close();
    b.close();
    let t = b.finish().unwrap();
    let f = scan_tree("d.dart".to_string(), &t, b"ab!", &RuleSet::dart()).unwrap();
    assert_eq!(f.failure_nodes.len(), 1);
}

#[test]
fn file_without_matches_gives_none() {
    let mut b = TreeBuilder::new();
    open_at(&mut b, ROOT, "program", 0, 1);
    leaf(&mut b, 3, "identifier", 0, 1);
    b.close();
    let t = b.finish().unwrap();
    assert!(scan_tree("c.dart".to_string(), &t, b"x", &RuleSet::dart()).is_none());
}

#[test]
fn cast_is_recorded() {
    let mut b = TreeBuilder::new();
    open_at(&mut b, ROOT, "program", 0, 8);
    leaf(&mut b, DART_TYPE_CAST, "type_cast", 2, 8);
    b.close();
    let t = b.finish().unwrap();
    let f = scan_tree("t.dart".to_string(), &t, b"x as int", &RuleSet::dart()).unwrap();
    assert_eq!(f.failure_nodes.len(), 1);
    assert_eq!(f.failure_nodes[0].id, DART_TYPE_CAST);
    assert_eq!(f.failure_nodes[0].name, "type_cast");
}

#[test]
fn comment_with_marker_in_any_case_is_recorded() {
    for text in [&b"// TODO: later"[..], b"// todo", b"/* ToDo */"] {
        let t = comment_tree(text);
        let f = scan_tree("m.dart".to_string(), &t, text, &RuleSet::dart()).unwrap();
        assert_eq!(f.failure_nodes.len(), 1);
        assert_eq!(f.failure_nodes[0].id, DART_COMMENT);
    }
}

#[test]
fn comment_without_marker_is_not_recorded() {
    let text = b"// to do later";
    let t = comment_tree(text);
    assert!(scan_tree("m.dart".to_string(), &t, text, &RuleSet::dart()).is_none());
}

#[test]
fn comment_with_invalid_utf8_is_not_recorded() {
    let text = b"// TODO \xff\xfe";
    let t = comment_tree(text);
    assert!(scan_tree("m.dart".to_string(), &t, text, &RuleSet::dart()).is_none());
}

#[test]
fn comment_outside_the_source_is_not_recorded() {
    let t = comment_tree(b"// TODO but longer");
    assert!(scan_tree("m.dart".to_string(), &t, b"// TODO", &RuleSet::dart()).is_none());
}

#[test]
fn node_matching_two_rules_is_recorded_once() {
    let rules = RuleSet {
        rules: vec![
            Rule::UnsafeCast { cast_kind: 5 },
            Rule::ForcedUnwrap { operator_kind: 5, checked_kind: 99 },
        ],
    };
    let mut b = TreeBuilder::new();
    open_at(&mut b, ROOT, "program", 0, 1);
    leaf(&mut b, 5, "five", 0, 1);
    b.close();
    let t = b.finish().unwrap();
    let f = scan_tree("r.dart".to_string(), &t, b"x", &rules).unwrap();
    assert_eq!(f.failure_nodes.len(), 1);
}

#[test]
fn scanning_twice_gives_the_same_records() {
    let t = two_bangs();
    let rules = RuleSet::dart();
    let a = scan_tree("a.dart".to_string(), &t, b"x! y!", &rules).unwrap();
    let b = scan_tree("a.dart".to_string(), &t, b"x! y!", &rules).unwrap();
    assert_eq!(a.failure_nodes.len(), b.failure_nodes.len());
    for (x, y) in a.failure_nodes.iter().zip(b.failure_nodes.iter()) {
        assert_eq!(x.id, y.id);
        assert_eq!(x.name, y.name);
        assert_eq!(x.start_position, y.start_position);
        assert_eq!(x.end_position, y.end_position);
    }
}

#[test]
fn summary_of_a_matching_and_a_clean_file() {
    let out = FailureOutput::from_results(vec![Some(file("a.dart", 2)), None]);
    assert_eq!(out.files_with_transgressions(), 1);
    assert_eq!(out.transgression_count(), 2);
    assert_eq!(out.failures()[0].file_path, "a.dart");
}

#[test]
fn summary_keeps_matching_files_in_input_order() {
    let out = FailureOutput::from_results(vec![
        None,
        Some(file("b.dart", 1)),
        None,
        Some(file("d.dart", 3)),
        Some(file("e.dart", 2)),
        None,
    ]);
    let paths: Vec<&str> = out.failures().iter().map(|f| f.file_path.as_str()).collect();
    assert_eq!(paths, vec!["b.dart", "d.dart", "e.dart"]);
    assert_eq!(out.files_with_transgressions(), 3);
    assert_eq!(out.transgression_count(), 6);
}

#[test]
fn summary_of_nothing_is_empty() {
    let out = FailureOutput::from_results(vec![None, None]);
    assert_eq!(out.files_with_transgressions(), 0);
    assert_eq!(out.transgression_count(), 0);
    let out = FailureOutput::new(vec![]);
    assert_eq!(out.transgression_count(), 0);
}

#[test]
fn summary_counts_are_derived_from_reports() {
    let out = FailureOutput::new(vec![file("a.dart", 4), file("b.dart", 1)]);
    assert_eq!(out.files_with_transgressions(), 2);
    assert_eq!(out.transgression_count(), 5);
}

#[test]
fn substring_search() {
    assert!(find_substring(&chars("a todo b"), &chars("todo")));
    assert!(find_substring(&chars("todo"), &chars("todo")));
    assert!(!find_substring(&chars("tod"), &chars("todo")));
    assert!(!find_substring(&chars("TODO"), &chars("todo")));
    assert!(find_substring(&chars("abc"), &chars("")));
    assert!(find_substring(&chars(""), &chars("")));
    assert!(!find_substring(&chars("to do"), &chars("todo")));
    assert!(mentions_marker(&chars("// ttodo"), &chars("todo")));
}
