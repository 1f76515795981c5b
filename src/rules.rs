//! The closed rule set: predicates that decide whether a node is a
//! transgression, from its kind, its parent and previous sibling, and, for
//! comments, its raw text.
use vstd::prelude::*;
use crate::text::{contains, decode_utf8, find_substring, lower_of, lowercase_chars, utf8_decode};
use crate::tree::SyntaxTree;

verus! {

/// Grammar id of the `!` token in the Dart grammar.
pub const DART_BANG: u16 = 91;

/// Grammar id of the Dart `negate_operator` node, which wraps a `!` that is
/// a logical negation rather than a null assertion.
pub const DART_NEGATE_OPERATOR: u16 = 265;

/// Grammar id of the Dart `type_cast` node (`as T`).
pub const DART_TYPE_CAST: u16 = 253;

/// Grammar id of the Dart `comment` node.
pub const DART_COMMENT: u16 = 426;

/// One rule of the closed rule set.
pub enum Rule {
    /// Nodes of `operator_kind`, unless the previous sibling or the parent
    /// is of `checked_kind`.
    ForcedUnwrap { operator_kind: u16, checked_kind: u16 },
    /// Every node of `cast_kind`.
    UnsafeCast { cast_kind: u16 },
    /// Nodes of `comment_kind` whose lowercased text contains `marker`.
    PendingWork { comment_kind: u16, marker: Vec<char> },
}

/// The rules for Dart: forced unwraps outside negations, casts, and comments
/// that mention "todo" in any letter case.
pub open spec fn is_dart_rules(rules: Seq<Rule>) -> bool {
    &&& rules.len() == 3
    &&& rules[0] == (Rule::ForcedUnwrap { operator_kind: DART_BANG, checked_kind: DART_NEGATE_OPERATOR })
    &&& rules[1] == (Rule::UnsafeCast { cast_kind: DART_TYPE_CAST })
    &&& rules[2] matches Rule::PendingWork { comment_kind, marker }
        && comment_kind == DART_COMMENT && marker@ == seq!['t', 'o', 'd', 'o']
}

/// The active rules; a node is a transgression when any of them matches it.
pub struct RuleSet {
    pub rules: Vec<Rule>,
}

/// The text of node `i`: its byte range of `source`, decoded as UTF-8.
/// `None` when the range lies outside `source` or is not valid UTF-8.
pub open spec fn node_text(tree: SyntaxTree, source: Seq<u8>, i: int) -> Option<Seq<char>> {
    let x = tree.nodes@[i];
    if x.start_byte <= x.end_byte && x.end_byte <= source.len() {
        utf8_decode(source.subrange(x.start_byte as int, x.end_byte as int))
    } else {
        None
    }
}

/// Node `i` follows a sibling of `kind`, or sits directly under a node of it.
pub open spec fn in_context_of(tree: SyntaxTree, i: int, kind: u16) -> bool {
    ||| (match tree.nodes@[i].prev_sibling {
        Some(q) => tree.nodes@[q as int].kind_id == kind,
        None => false,
    })
    ||| (match tree.nodes@[i].parent {
        Some(p) => tree.nodes@[p as int].kind_id == kind,
        None => false,
    })
}

/// Whether `rule` matches node `i` of `tree`, whose text is taken from `source`.
pub open spec fn rule_hits(rule: Rule, tree: SyntaxTree, source: Seq<u8>, i: int) -> bool {
    let kind = tree.nodes@[i].kind_id;
    match rule {
        Rule::ForcedUnwrap { operator_kind, checked_kind } => {
            kind == operator_kind && !in_context_of(tree, i, checked_kind)
        },
        Rule::UnsafeCast { cast_kind } => kind == cast_kind,
        Rule::PendingWork { comment_kind, marker } => {
            &&& kind == comment_kind
            &&& match node_text(tree, source, i) {
                Some(t) => contains(lower_of(t), marker@),
                None => false,
            }
        },
    }
}

/// Node `i` is a transgression under `rules`: at least one rule matches it.
pub open spec fn is_transgression(rules: Seq<Rule>, tree: SyntaxTree, source: Seq<u8>, i: int) -> bool {
    exists|r: int| 0 <= r < rules.len() && rule_hits(#[trigger] rules[r], tree, source, i)
}

/// Whether the lowercased text of a comment contains `marker`.
pub fn mentions_marker(lowered: &Vec<char>, marker: &Vec<char>) -> (r: bool)
    ensures
        r == contains(lowered@, marker@),
{
    find_substring(lowered, marker)
}

/// The text of node `i`, when its byte range lies in `source` and is UTF-8.
fn text_of<'a>(tree: &SyntaxTree, source: &'a [u8], i: usize) -> (r: Option<&'a str>)
    requires
        i < tree.nodes@.len(),
    ensures
        match r {
            Some(s) => node_text(*tree, source@, i as int) == Some(s@),
            None => node_text(*tree, source@, i as int) is None,
        },
{
    let x = &tree.nodes[i];
    if x.start_byte <= x.end_byte && x.end_byte <= source.len() {
        decode_utf8(vstd::slice::slice_subrange(source, x.start_byte, x.end_byte))
    } else {
        None
    }
}

/// Whether node `i` follows a sibling of `kind`, or sits directly under one.
fn context_is(tree: &SyntaxTree, i: usize, kind: u16) -> (r: bool)
    requires
        tree.wf(),
        i < tree.nodes@.len(),
    ensures
        r == in_context_of(*tree, i as int, kind),
{
    let x = &tree.nodes[i];
    proof {
        if i > 0 {
            assert(crate::tree::parent_ok(tree.nodes@, tree.ends(), i as int));
            assert(crate::tree::prev_ok(tree.nodes@, tree.ends(), i as int));
        }
    }
    let after = match x.prev_sibling {
        Some(q) => tree.nodes[q].kind_id == kind,
        None => false,
    };
    let under = match x.parent {
        Some(p) => tree.nodes[p].kind_id == kind,
        None => false,
    };
    after || under
}

impl Rule {
    /// Whether this rule matches node `i` of `tree`.
    pub fn hits(&self, tree: &SyntaxTree, source: &[u8], i: usize) -> (r: bool)
        requires
            tree.wf(),
            i < tree.nodes@.len(),
        ensures
            r == rule_hits(*self, *tree, source@, i as int),
    {
        let kind = tree.nodes[i].kind_id;
        match self {
            Rule::ForcedUnwrap { operator_kind, checked_kind } => {
                kind == *operator_kind && !context_is(tree, i, *checked_kind)
            },
            Rule::UnsafeCast { cast_kind } => kind == *cast_kind,
            Rule::PendingWork { comment_kind, marker } => {
                if kind != *comment_kind {
                    return false;
                }
                match text_of(tree, source, i) {
                    Some(t) => {
                        let lowered = lowercase_chars(t);
                        mentions_marker(&lowered, marker)
                    },
                    None => false,
                }
            },
        }
    }
}

impl RuleSet {
    pub open spec fn view(&self) -> Seq<Rule> {
        self.rules@
    }

    /// The active Dart rules, as listed by `is_dart_rules`.
    pub fn dart() -> (s: RuleSet)
        ensures
            is_dart_rules(s@),
    {
        let mut rules: Vec<Rule> = Vec::new();
        rules.push(Rule::ForcedUnwrap { operator_kind: DART_BANG, checked_kind: DART_NEGATE_OPERATOR });
        rules.push(Rule::UnsafeCast { cast_kind: DART_TYPE_CAST });
        rules.push(Rule::PendingWork { comment_kind: DART_COMMENT, marker: vec!['t', 'o', 'd', 'o'] });
        RuleSet { rules }
    }

    /// Whether any rule matches node `i` of `tree`; each rule is tested once
    /// and the node counts once however many rules match it.
    pub fn is_transgression(&self, tree: &SyntaxTree, source: &[u8], i: usize) -> (r: bool)
        requires
            tree.wf(),
            i < tree.nodes@.len(),
        ensures
            r == is_transgression(self@, *tree, source@, i as int),
    {
        let mut k: usize = 0;
        while k < self.rules.len()
            invariant
                tree.wf(),
                i < tree.nodes@.len(),
                k <= self@.len(),
                forall|r: int| 0 <= r < k ==> !rule_hits(#[trigger] self@[r], *tree, source@, i as int),
            decreases self@.len() - k,
        {
            if self.rules[k].hits(tree, source, i) {
                return true;
            }
            k = k + 1;
        }
        false
    }
}

} // verus!
