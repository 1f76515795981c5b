//! Parsing Dart source with tree-sitter and importing the result into the
//! library's own syntax tree.
use vstd::prelude::*;
use crate::tree::{
    arena_wf, ends_of, lemma_first_child, lemma_next_sibling, lemma_parent_holds, Position, SyntaxNode,
    SyntaxTree,
};

verus! {

#[verifier::external_type_specification]
#[verifier::external_body]
pub struct ExParser(tree_sitter::Parser);

#[verifier::external_type_specification]
#[verifier::external_body]
pub struct ExTree(tree_sitter::Tree);

#[verifier::external_type_specification]
#[verifier::external_body]
pub struct ExTreeCursor<'a>(tree_sitter::TreeCursor<'a>);

#[verifier::external_type_specification]
#[verifier::external_body]
pub struct ExNode<'a>(tree_sitter::Node<'a>);

/// The syntax tree of `source` under the Dart grammar, as an arena in
/// pre-order: for each node its grammar id and name, positions, byte range,
/// parent, previous sibling and subtree end.
pub uninterp spec fn dart_nodes(source: Seq<u8>) -> Seq<SyntaxNode>;

/// The nodes of a parsed tree, as an arena in pre-order (as for `dart_nodes`).
pub uninterp spec fn tree_nodes(t: tree_sitter::Tree) -> Seq<SyntaxNode>;

/// The parser holds the Dart grammar.
pub uninterp spec fn has_dart_grammar(p: tree_sitter::Parser) -> bool;

/// The parser holds some grammar.
pub uninterp spec fn has_grammar(p: tree_sitter::Parser) -> bool;

/// The nodes of the tree a cursor walks, as an arena in pre-order.
pub uninterp spec fn cursor_nodes(c: tree_sitter::TreeCursor) -> Seq<SyntaxNode>;

/// The index, in `cursor_nodes`, of the node under the cursor.
pub uninterp spec fn cursor_index(c: tree_sitter::TreeCursor) -> int;

/// The arena entry of a node.
pub uninterp spec fn node_entry(x: tree_sitter::Node) -> SyntaxNode;

/// The arena index of a node.
pub uninterp spec fn node_index(x: tree_sitter::Node) -> int;

/// Relies on tree_sitter::Parser::new: a parser with no language yet.
#[verifier::external_body]
fn new_parser() -> (p: tree_sitter::Parser)
    ensures
        !has_grammar(p),
{
    tree_sitter::Parser::new()
}

/// Relies on tree_sitter::Parser::set_language with
/// tree_sitter_dart::LANGUAGE: the grammar's ABI version (15) lies in the
/// range the parser accepts (13 to 15) and it has a lexer, so it loads.
#[verifier::external_body]
fn set_dart_language(p: &mut tree_sitter::Parser) -> (loaded: bool)
    ensures
        loaded,
        has_dart_grammar(*final(p)),
        has_grammar(*final(p)),
{
    p.set_language(&tree_sitter_dart::LANGUAGE.into()).is_ok()
}

/// Relies on tree_sitter::Parser::parse: with a language set it returns the
/// tree of the bytes, with none it returns `None`; the parser keeps its
/// language.
#[verifier::external_body]
pub(crate) fn parse_bytes(p: &mut tree_sitter::Parser, source: &[u8]) -> (t: Option<tree_sitter::Tree>)
    ensures
        has_dart_grammar(*old(p)) ==> (t matches Some(x) && tree_nodes(x) == dart_nodes(source@)),
        !has_grammar(*old(p)) ==> t is None,
        has_dart_grammar(*final(p)) == has_dart_grammar(*old(p)),
        has_grammar(*final(p)) == has_grammar(*old(p)),
{
    p.parse(source, None)
}

/// Relies on tree_sitter::Tree::walk: a cursor on the root of the tree.
#[verifier::external_body]
fn walk(t: &tree_sitter::Tree) -> (c: tree_sitter::TreeCursor<'_>)
    ensures
        cursor_nodes(c) == tree_nodes(*t),
        arena_wf(cursor_nodes(c)),
        cursor_index(c) == 0,
{
    t.walk()
}

/// Relies on tree_sitter::TreeCursor::node: the node under the cursor.
#[verifier::external_body]
fn cursor_node<'a>(c: &tree_sitter::TreeCursor<'a>) -> (x: tree_sitter::Node<'a>)
    ensures
        node_index(x) == cursor_index(*c),
        node_entry(x) == cursor_nodes(*c)[cursor_index(*c)],
{
    c.node()
}

/// Relies on tree_sitter::TreeCursor::goto_first_child: moves to the first
/// child, the next node in pre-order, when the node has children.
#[verifier::external_body]
fn goto_first_child(c: &mut tree_sitter::TreeCursor) -> (moved: bool)
    ensures
        cursor_nodes(*final(c)) == cursor_nodes(*old(c)),
        moved == (ends_of(cursor_nodes(*old(c)))[cursor_index(*old(c))] > cursor_index(*old(c)) + 1),
        cursor_index(*final(c)) == if moved {
            cursor_index(*old(c)) + 1
        } else {
            cursor_index(*old(c))
        },
{
    c.goto_first_child()
}

/// Relies on tree_sitter::TreeCursor::goto_next_sibling: moves to the next
/// sibling, the node right after the current subtree, when there is one.
#[verifier::external_body]
fn goto_next_sibling(c: &mut tree_sitter::TreeCursor) -> (moved: bool)
    ensures
        cursor_nodes(*final(c)) == cursor_nodes(*old(c)),
        moved == (match cursor_nodes(*old(c))[cursor_index(*old(c))].parent {
            Some(p) => ends_of(cursor_nodes(*old(c)))[cursor_index(*old(c))] < ends_of(
                cursor_nodes(*old(c)),
            )[p as int],
            None => false,
        }),
        cursor_index(*final(c)) == if moved {
            ends_of(cursor_nodes(*old(c)))[cursor_index(*old(c))]
        } else {
            cursor_index(*old(c))
        },
{
    c.goto_next_sibling()
}

/// Relies on tree_sitter::TreeCursor::goto_parent: moves to the parent,
/// unless the cursor is on the root it started from.
#[verifier::external_body]
fn goto_parent(c: &mut tree_sitter::TreeCursor) -> (moved: bool)
    ensures
        cursor_nodes(*final(c)) == cursor_nodes(*old(c)),
        moved == (cursor_nodes(*old(c))[cursor_index(*old(c))].parent is Some),
        moved ==> (cursor_nodes(*old(c))[cursor_index(*old(c))].parent matches Some(p) && cursor_index(
            *final(c),
        ) == p as int),
        !moved ==> cursor_index(*final(c)) == cursor_index(*old(c)),
{
    c.goto_parent()
}

/// Relies on tree_sitter::Node::descendant_count: the number of nodes in
/// the node's subtree, itself included.
#[verifier::external_body]
fn descendant_count(x: &tree_sitter::Node) -> (n: usize)
    ensures
        n == node_entry(*x).subtree_end - node_index(*x),
{
    x.descendant_count()
}

/// Relies on tree_sitter::Node::grammar_id: the node's kind, ignoring aliases.
#[verifier::external_body]
fn grammar_id(x: &tree_sitter::Node) -> (id: u16)
    ensures
        id == node_entry(*x).kind_id,
{
    x.grammar_id()
}

/// Relies on tree_sitter::Node::grammar_name: the name of the node's kind.
#[verifier::external_body]
fn grammar_name(x: &tree_sitter::Node) -> (name: String)
    ensures
        name == node_entry(*x).kind_name,
{
    x.grammar_name().to_owned()
}

/// Relies on tree_sitter::Node::start_position: where the node starts.
#[verifier::external_body]
fn start_position(x: &tree_sitter::Node) -> (p: Position)
    ensures
        p == node_entry(*x).start,
{
    let p = x.start_position();
    Position { row: p.row, column: p.column }
}

/// Relies on tree_sitter::Node::end_position: where the node ends.
#[verifier::external_body]
fn end_position(x: &tree_sitter::Node) -> (p: Position)
    ensures
        p == node_entry(*x).end,
{
    let p = x.end_position();
    Position { row: p.row, column: p.column }
}

/// Relies on tree_sitter::Node::start_byte: the node's first byte offset.
#[verifier::external_body]
fn start_byte(x: &tree_sitter::Node) -> (b: usize)
    ensures
        b == node_entry(*x).start_byte,
{
    x.start_byte()
}

/// Relies on tree_sitter::Node::end_byte: the node's end byte offset.
#[verifier::external_body]
fn end_byte(x: &tree_sitter::Node) -> (b: usize)
    ensures
        b == node_entry(*x).end_byte,
{
    x.end_byte()
}

/// A parser loaded with the Dart grammar.
pub fn dart_parser() -> (p: tree_sitter::Parser)
    ensures
        has_dart_grammar(p),
{
    let mut p = new_parser();
    let _loaded = set_dart_language(&mut p);
    p
}

/// The arena entry of the node under the cursor, given its parent and
/// previous sibling.
fn read_node(c: &tree_sitter::TreeCursor, parent: Option<usize>, prev_sibling: Option<usize>) -> (x: SyntaxNode)
    requires
        arena_wf(cursor_nodes(*c)),
        0 <= cursor_index(*c) < cursor_nodes(*c).len(),
        parent == cursor_nodes(*c)[cursor_index(*c)].parent,
        prev_sibling == cursor_nodes(*c)[cursor_index(*c)].prev_sibling,
    ensures
        x == cursor_nodes(*c)[cursor_index(*c)],
{
    let ghost nodes = cursor_nodes(*c);
    let ghost i = cursor_index(*c);
    let x = cursor_node(c);
    let i_exec = cursor_index_of(c);
    let count = descendant_count(&x);
    proof {
        assert(ends_of(nodes)[i] <= nodes.len());
    }
    SyntaxNode {
        kind_id: grammar_id(&x),
        kind_name: grammar_name(&x),
        start: start_position(&x),
        end: end_position(&x),
        start_byte: start_byte(&x),
        end_byte: end_byte(&x),
        parent,
        prev_sibling,
        subtree_end: i_exec + count,
    }
}

/// Relies on tree_sitter::TreeCursor::descendant_index: the pre-order index
/// of the node under the cursor.
#[verifier::external_body]
fn cursor_index_of(c: &tree_sitter::TreeCursor) -> (i: usize)
    ensures
        i == cursor_index(*c),
{
    c.descendant_index()
}

/// Copies a tree-sitter tree into a syntax tree, walking it once in
/// pre-order with its cursor. The result holds exactly the parsed nodes.
pub fn import_tree(tree: &tree_sitter::Tree) -> (r: SyntaxTree)
    ensures
        r@ == tree_nodes(*tree),
        r.wf(),
{
    let mut cursor = walk(tree);
    let ghost all = cursor_nodes(cursor);
    let ghost n = all.len() as int;
    let ghost ends = ends_of(all);
    let mut nodes: Vec<SyntaxNode> = Vec::new();
    let mut parent: Option<usize> = None;
    let mut prev_sibling: Option<usize> = None;
    let mut cur: usize = 0;
    proof {
        lemma_parent_holds(all, 0);
        assert(all[0].prev_sibling is None);
    }
    loop
        invariant
            arena_wf(all),
            n == all.len(),
            ends == ends_of(all),
            all == tree_nodes(*tree),
            cursor_nodes(cursor) == all,
            cursor_index(cursor) == cur,
            cur < n,
            nodes@.len() == cur,
            forall|k: int| 0 <= k < cur ==> nodes@[k] == all[k],
            parent == all[cur as int].parent,
            prev_sibling == all[cur as int].prev_sibling,
        decreases n - cur,
    {
        let x = read_node(&cursor, parent, prev_sibling);
        nodes.push(x);
        if goto_first_child(&mut cursor) {
            proof {
                lemma_first_child(all, cur as int);
            }
            parent = Some(cur);
            prev_sibling = None;
            cur = cur + 1;
            continue;
        }
        let ghost here = cur;
        proof {
            lemma_parent_holds(all, cur as int);
        }
        if goto_next_sibling(&mut cursor) {
            proof {
                lemma_next_sibling(all, here as int);
            }
            prev_sibling = Some(cur);
            parent = nodes[cur].parent;
            cur = nodes[cur].subtree_end;
            continue;
        }
        loop
            invariant_except_break
                cur < nodes@.len(),
                ends[cur as int] == nodes@.len(),
                match all[cur as int].parent {
                    Some(p) => ends[p as int] <= ends[cur as int],
                    None => true,
                },
            invariant
                arena_wf(all),
                n == all.len(),
                ends == ends_of(all),
                all == tree_nodes(*tree),
                cursor_nodes(cursor) == all,
                cursor_index(cursor) == cur,
                cur < n,
                nodes@.len() <= n,
                forall|k: int| 0 <= k < nodes@.len() ==> nodes@[k] == all[k],
            ensures
                cur == nodes@.len(),
                cur < n,
                parent == all[cur as int].parent,
                prev_sibling == all[cur as int].prev_sibling,
            decreases cur,
        {
            let child = cur;
            proof {
                lemma_parent_holds(all, child as int);
            }
            if !goto_parent(&mut cursor) {
                proof {
                    assert(child == 0);
                    assert(nodes@ =~= all);
                }
                return SyntaxTree { nodes };
            }
            cur = nodes[child].parent.unwrap();
            proof {
                lemma_parent_holds(all, cur as int);
            }
            if goto_next_sibling(&mut cursor) {
                proof {
                    lemma_next_sibling(all, cur as int);
                }
                prev_sibling = Some(cur);
                parent = nodes[cur].parent;
                cur = nodes[cur].subtree_end;
                break;
            }
        }
    }
}

} // verus!
