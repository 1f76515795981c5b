use ast_analyser::dart::{dart_parser, import_tree};
use ast_analyser::finder::{AnalysisError, FailureFinder, SourceFile};
use ast_analyser::rules::{RuleSet, DART_BANG, DART_COMMENT, DART_TYPE_CAST};
use ast_analyser::traversal::traverse;

fn analyse(text: &str) -> Option<ast_analyser::report::FailureFile> {
    let mut finder = FailureFinder::new();
    finder.analyse_source("test.dart".to_string(), text.as_bytes().to_vec()).unwrap()
}

#[test]
fn dart_forced_unwraps_are_found() {
    let f = analyse("void main() {\n  int? a;\n  print(a!);\n  print(a!.isEven);\n}\n").unwrap();
    assert_eq!(f.file_path, "test.dart");
    assert_eq!(f.failure_nodes.len(), 2);
    assert!(f.failure_nodes.iter().all(|n| n.id == DART_BANG && n.name == "!"));
    assert_eq!(f.failure_nodes[0].start_position.row, 2);
    assert_eq!(f.failure_nodes[0].start_position.column, 9);
    assert_eq!(f.failure_nodes[1].start_position.row, 3);
}

#[test]
fn dart_negation_and_not_equals_are_clean() {
    assert!(analyse("void main() {\n  bool b = !true;\n  print(1 != 2);\n}\n").is_none());
}

#[test]
fn dart_clean_file_gives_none() {
    assert!(analyse("void main() {\n  print('hello');\n}\n").is_none());
}

#[test]
fn dart_cast_and_pending_work_comment_are_found() {
    let f = analyse("// TODO: remove\nvoid main() {\n  var x = 1 as num;\n}\n").unwrap();
    let ids: Vec<u16> = f.failure_nodes.iter().map(|n| n.id).collect();
    assert_eq!(ids, vec![DART_COMMENT, DART_TYPE_CAST]);
}

#[test]
fn imported_tree_has_every_node_of_the_parse() {
    let mut parser = dart_parser();
    let parsed = parser.parse("void main() { print(1); }", None).unwrap();
    let tree = import_tree(&parsed);
    assert_eq!(tree.len(), parsed.root_node().descendant_count());
    assert_eq!(tree.node(0).kind_name, parsed.root_node().grammar_name());
    let visited = traverse(&tree, |i: usize| Some(i));
    assert_eq!(visited, (0..tree.len()).collect::<Vec<usize>>());
    let root = parsed.root_node();
    let first = root.child(0).unwrap();
    assert_eq!(tree.node(1).kind_id, first.grammar_id());
    assert_eq!(tree.node(1).parent, Some(0));
    assert_eq!(tree.node(1).subtree_end, 1 + first.descendant_count());
    assert_eq!(tree.node(0).start_byte, root.start_byte());
    assert_eq!(tree.node(0).end_byte, root.end_byte());
}

#[test]
fn finder_scans_several_sources_in_turn() {
    let mut finder = FailureFinder::new();
    let a = finder.analyse_source("a.dart".to_string(), b"void f(int? x) { x!; }".to_vec()).unwrap();
    let b = finder.analyse_source("b.dart".to_string(), b"void g() {}".to_vec()).unwrap();
    assert_eq!(a.unwrap().failure_nodes.len(), 1);
    assert!(b.is_none());
}

#[test]
fn parser_without_grammar_reports_parse_failure() {
    let mut parser = tree_sitter::Parser::new();
    let file = SourceFile::new("x.dart".to_string(), b"void main() {}".to_vec());
    let r = file.find_failures(&mut parser, &RuleSet::dart());
    assert!(matches!(r, Err(AnalysisError::ParseFailed)));
}
