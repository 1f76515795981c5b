use ast_analyser::traversal::traverse;
use ast_analyser::tree::{Cursor, Position, SyntaxTree, TreeBuilder};

fn pos(row: usize, column: usize) -> Position {
    Position { row, column }
}

fn open(b: &mut TreeBuilder, kind: u16) {
    b.open(kind, format!("k{}", kind), pos(0, 0), pos(0, 1), 0, 1);
}

/// root(10) -> [a(11) -> [c(13), d(14)], b(12) -> [e(15)]]
fn sample() -> SyntaxTree {
    let mut b = TreeBuilder::new();
    open(&mut b, 10);
    open(&mut b, 11);
    open(&mut b, 13);
    b.close();
    open(&mut b, 14);
    b.close();
    b.close();
    open(&mut b, 12);
    open(&mut b, 15);
    b.close();
    b.close();
    b.close();
    b.finish().unwrap()
}

#[test]
fn traversal_visits_every_node_once_in_preorder() {
    let t = sample();
    let kinds = traverse(&t, |i: usize| Some(t.node(i).kind_id));
    assert_eq!(kinds, vec![10, 11, 13, 14, 12, 15]);
}

#[test]
fn traversal_keeps_only_some_results_in_order() {
    let t = sample();
    let odd = traverse(&t, |i: usize| {
        let k = t.node(i).kind_id;
        if k % 2 == 1 { Some(k) } else { None }
    });
    assert_eq!(odd, vec![11, 13, 15]);
}

#[test]
fn traversal_of_single_node_tree() {
    let mut b = TreeBuilder::new();
    open(&mut b, 7);
    b.close();
    let t = b.finish().unwrap();
    assert_eq!(t.len(), 1);
    let all = traverse(&t, |i: usize| Some(i));
    assert_eq!(all, vec![0]);
}

#[test]
fn builder_records_parent_and_previous_sibling() {
    let t = sample();
    assert_eq!(t.len(), 6);
    assert_eq!(t.node(0).parent, None);
    assert_eq!(t.node(1).parent, Some(0));
    assert_eq!(t.node(2).parent, Some(1));
    assert_eq!(t.node(3).parent, Some(1));
    assert_eq!(t.node(3).prev_sibling, Some(2));
    assert_eq!(t.node(4).parent, Some(0));
    assert_eq!(t.node(4).prev_sibling, Some(1));
    assert_eq!(t.node(5).prev_sibling, None);
    assert_eq!(t.node(0).subtree_end, 6);
    assert_eq!(t.node(1).subtree_end, 4);
}

#[test]
fn builder_refuses_unfinished_or_empty_tree() {
    assert!(TreeBuilder::new().finish().is_none());
    let mut b = TreeBuilder::new();
    open(&mut b, 1);
    open(&mut b, 2);
    b.close();
    assert_eq!(b.depth(), 1);
    assert!(b.finish().is_none());
}

#[test]
fn cursor_moves_follow_the_tree() {
    let t = sample();
    let mut c = Cursor::new();
    assert!(!c.goto_parent(&t));
    assert!(!c.goto_next_sibling(&t));
    assert!(c.goto_first_child(&t));
    assert_eq!(c.node, 1);
    assert!(c.goto_first_child(&t));
    assert_eq!(c.node, 2);
    assert!(!c.goto_first_child(&t));
    assert!(c.goto_next_sibling(&t));
    assert_eq!(c.node, 3);
    assert!(!c.goto_next_sibling(&t));
    assert!(c.goto_parent(&t));
    assert_eq!(c.node, 1);
    assert!(c.goto_next_sibling(&t));
    assert_eq!(c.node, 4);
    assert!(c.goto_parent(&t));
    assert_eq!(c.node, 0);
}
