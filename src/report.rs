//! The scan result model: per-node records, per-file reports, and the
//! summary over many files, with the per-file scan and the aggregation.
use vstd::prelude::*;
use crate::rules::{in_context_of, is_transgression, node_text, rule_hits, Rule, RuleSet};
use crate::text::{contains, lower_of};
use crate::traversal::{
    kept, lemma_preorder_is_layout, lemma_preorder_visits_each_node_once, preorder, traverse, visits,
};
use crate::tree::{Position, SyntaxNode, SyntaxTree};

verus! {

/// A snapshot of a node judged a transgression. It holds no reference into
/// the tree, so it outlives the parse.
#[derive(Clone, Debug)]
pub struct FailureNode {
    pub id: u16,
    pub name: String,
    pub start_position: Position,
    pub end_position: Position,
}

/// The transgressions found in one file, in document order.
#[derive(Clone, Debug)]
pub struct FailureFile {
    pub file_path: String,
    pub failure_nodes: Vec<FailureNode>,
}

/// `r` is the record of node `x`.
pub open spec fn records_node(r: FailureNode, x: SyntaxNode) -> bool {
    &&& r.id == x.kind_id
    &&& r.name@ == x.kind_name@
    &&& r.start_position == x.start
    &&& r.end_position == x.end
}

/// The nodes of `order` that are transgressions under `rules`, in order.
pub open spec fn matching(order: Seq<int>, rules: Seq<Rule>, tree: SyntaxTree, source: Seq<u8>) -> Seq<int>
    decreases order.len(),
{
    if order.len() == 0 {
        seq![]
    } else {
        let init = matching(order.drop_last(), rules, tree, source);
        if is_transgression(rules, tree, source, order.last()) {
            init.push(order.last())
        } else {
            init
        }
    }
}

/// The transgressions of a tree, in pre-order.
pub open spec fn transgressions(rules: Seq<Rule>, tree: SyntaxTree, source: Seq<u8>) -> Seq<int> {
    matching(preorder(tree), rules, tree, source)
}

/// `recs` are the records of the nodes `idx` of `tree`, one for one.
pub open spec fn records_of(recs: Seq<FailureNode>, idx: Seq<int>, tree: SyntaxTree) -> bool {
    &&& recs.len() == idx.len()
    &&& forall|k: int| 0 <= k < recs.len() ==> records_node(#[trigger] recs[k], tree.nodes@[idx[k]])
}

/// `r` is what scanning `tree` for `rules` gives for the file `path`:
/// `None` when there is no transgression, else a report of all of them in
/// pre-order.
pub open spec fn scan_result(
    path: Seq<char>,
    tree: SyntaxTree,
    source: Seq<u8>,
    rules: Seq<Rule>,
    r: Option<FailureFile>,
) -> bool {
    let hits = transgressions(rules, tree, source);
    match r {
        None => hits.len() == 0,
        Some(f) => {
            &&& hits.len() > 0
            &&& f.file_path@ == path
            &&& records_of(f.failure_nodes@, hits, tree)
        },
    }
}

/// What the scan's callback gives for node `i`.
pub open spec fn slot_ok(o: Option<FailureNode>, rules: Seq<Rule>, tree: SyntaxTree, source: Seq<u8>, i: int) -> bool {
    &&& (o is Some <==> is_transgression(rules, tree, source, i))
    &&& (o matches Some(v) ==> records_node(v, tree.nodes@[i]))
}

proof fn lemma_kept_records(
    outs: Seq<Option<FailureNode>>,
    order: Seq<int>,
    rules: Seq<Rule>,
    tree: SyntaxTree,
    source: Seq<u8>,
)
    requires
        outs.len() == order.len(),
        forall|k: int| 0 <= k < outs.len() ==> slot_ok(#[trigger] outs[k], rules, tree, source, order[k]),
    ensures
        records_of(kept(outs), matching(order, rules, tree, source), tree),
    decreases outs.len(),
{
    if outs.len() > 0 {
        let o2 = outs.drop_last();
        let r2 = order.drop_last();
        assert forall|k: int| 0 <= k < o2.len() implies slot_ok(#[trigger] o2[k], rules, tree, source, r2[k]) by {
            assert(slot_ok(outs[k], rules, tree, source, order[k]));
        }
        lemma_kept_records(o2, r2, rules, tree, source);
        assert(slot_ok(outs[outs.len() - 1], rules, tree, source, order[order.len() - 1]));
    }
}

impl FailureNode {
    /// The record of a node: its kind, kind name and positions.
    pub fn from_node(x: &SyntaxNode) -> (r: FailureNode)
        ensures
            records_node(r, *x),
    {
        FailureNode {
            id: x.kind_id,
            name: x.kind_name.clone(),
            start_position: x.start,
            end_position: x.end,
        }
    }
}

/// Scans one parsed file: walks its tree once and records every node that
/// some rule matches. Returns `None` when nothing matched.
pub fn scan_tree(file_path: String, tree: &SyntaxTree, source: &[u8], rules: &RuleSet) -> (r: Option<FailureFile>)
    requires
        tree.wf(),
    ensures
        scan_result(file_path@, *tree, source@, rules@, r),
        r matches Some(f) ==> f.wf(),
{
    let check = |i: usize| -> (o: Option<FailureNode>)
        requires
            tree.wf(),
            i < tree.nodes@.len(),
        ensures
            slot_ok(o, rules@, *tree, source@, i as int),
        {
            if rules.is_transgression(tree, source, i) {
                Some(FailureNode::from_node(tree.node(i)))
            } else {
                None
            }
        };
    let failure_nodes = traverse(tree, check);
    proof {
        let outs = choose|outs: Seq<Option<FailureNode>>|
            visits(check, preorder(*tree), outs) && failure_nodes@ == kept(outs);
        lemma_preorder_is_layout(*tree);
        let order = preorder(*tree);
        assert forall|k: int| 0 <= k < outs.len() implies slot_ok(#[trigger] outs[k], rules@, *tree, source@, order[k]) by {
            assert(check.ensures((order[k] as usize,), outs[k]));
        }
        lemma_kept_records(outs, order, rules@, *tree, source@);
    }
    if failure_nodes.len() > 0 {
        Some(FailureFile { file_path, failure_nodes })
    } else {
        None
    }
}

impl FailureFile {
    /// A report holds at least one record.
    pub open spec fn wf(&self) -> bool {
        self.failure_nodes@.len() > 0
    }
}

/// The number of records over all `files`.
pub open spec fn total_records(files: Seq<FailureFile>) -> int
    decreases files.len(),
{
    if files.len() == 0 {
        0
    } else {
        total_records(files.drop_last()) + files.last().failure_nodes@.len()
    }
}

/// Every report of `files` holds at least one record.
pub open spec fn all_wf(files: Seq<FailureFile>) -> bool {
    forall|k: int| 0 <= k < files.len() ==> (#[trigger] files[k]).wf()
}

/// The summary of a scan over many files: the reports of the files with at
/// least one transgression, and two counters derived from them.
pub struct FailureOutput {
    failures: Vec<FailureFile>,
    transgression_count: usize,
    files_with_transgressions: usize,
}

impl FailureOutput {
    /// The reports, in input order.
    pub closed spec fn files(&self) -> Seq<FailureFile> {
        self.failures@
    }

    pub closed spec fn spec_transgression_count(&self) -> int {
        self.transgression_count as int
    }

    pub closed spec fn spec_files_with_transgressions(&self) -> int {
        self.files_with_transgressions as int
    }

    /// The counters agree with the reports, and each report is non-empty.
    pub closed spec fn wf(&self) -> bool {
        &&& all_wf(self.failures@)
        &&& self.transgression_count == total_records(self.failures@)
        &&& self.files_with_transgressions == self.failures@.len()
    }

    /// Wraps reports into a summary, counting files and records.
    pub fn new(failures: Vec<FailureFile>) -> (r: FailureOutput)
        requires
            all_wf(failures@),
            total_records(failures@) <= usize::MAX,
        ensures
            r.wf(),
            r.files() == failures@,
            r.spec_transgression_count() == total_records(failures@),
            r.spec_files_with_transgressions() == failures@.len(),
    {
        let mut count: usize = 0;
        let mut k: usize = 0;
        while k < failures.len()
            invariant
                k <= failures@.len(),
                total_records(failures@) <= usize::MAX,
                count == total_records(failures@.take(k as int)),
            decreases failures@.len() - k,
        {
            proof {
                lemma_total_prefix(failures@, k as int + 1);
                assert(failures@.take(k as int + 1).drop_last() =~= failures@.take(k as int));
            }
            count = count + failures[k].failure_nodes.len();
            k = k + 1;
        }
        proof {
            assert(failures@.take(k as int) =~= failures@);
        }
        let files_with_transgressions = failures.len();
        FailureOutput { failures, transgression_count: count, files_with_transgressions }
    }

    /// The reports, in input order.
    pub fn failures(&self) -> (r: &Vec<FailureFile>)
        ensures
            r@ == self.files(),
    {
        &self.failures
    }

    /// The number of records over all reports.
    pub fn transgression_count(&self) -> (r: usize)
        ensures
            r == self.spec_transgression_count(),
    {
        self.transgression_count
    }

    /// The number of files with at least one transgression.
    pub fn files_with_transgressions(&self) -> (r: usize)
        ensures
            r == self.spec_files_with_transgressions(),
    {
        self.files_with_transgressions
    }

    /// Assembles the summary of a scan over many files from one slot per
    /// file, in input order: the empty slots are dropped, the others kept in
    /// order.
    pub fn from_results(results: Vec<Option<FailureFile>>) -> (r: FailureOutput)
        requires
            forall|k: int| 0 <= k < results@.len() ==> (#[trigger] results@[k] matches Some(f) ==> f.wf()),
            total_records(kept(results@)) <= usize::MAX,
        ensures
            r.wf(),
            r.files() == kept(results@),
            r.spec_transgression_count() == total_records(kept(results@)),
            r.spec_files_with_transgressions() == kept(results@).len(),
    {
        let mut files: Vec<FailureFile> = Vec::new();
        let mut source = results;
        let ghost all = source@;
        let n = source.len();
        // Reverse the slots once, so that popping takes them front to back.
        let mut rest: Vec<Option<FailureFile>> = Vec::new();
        while source.len() > 0
            invariant
                n == all.len(),
                source@.len() <= n,
                source@ =~= all.take(source@.len() as int),
                rest@.len() == n - source@.len(),
                forall|j: int| 0 <= j < rest@.len() ==> #[trigger] rest@[j] == all[n - 1 - j],
            decreases source@.len(),
        {
            let ghost m = source@.len() as int;
            let slot = source.pop().unwrap();
            proof {
                assert(slot == all[m - 1]);
                assert(all.take(m).drop_last() =~= all.take(m - 1));
            }
            rest.push(slot);
        }
        let mut k: usize = 0;
        while k < n
            invariant
                n == all.len(),
                k <= n,
                rest@.len() == n - k,
                forall|j: int| 0 <= j < rest@.len() ==> #[trigger] rest@[j] == all[n - 1 - j],
                files@ == kept(all.take(k as int)),
            decreases n - k,
        {
            let slot = rest.pop().unwrap();
            proof {
                assert(all.take(k as int + 1).drop_last() =~= all.take(k as int));
                assert(slot == all[k as int]);
            }
            match slot {
                Some(f) => files.push(f),
                None => {},
            }
            k = k + 1;
        }
        proof {
            assert(all.take(n as int) =~= all);
            lemma_kept_wf(all);
        }
        FailureOutput::new(files)
    }
}

proof fn lemma_total_prefix(files: Seq<FailureFile>, k: int)
    requires
        0 <= k <= files.len(),
    ensures
        total_records(files.take(k)) <= total_records(files),
    decreases files.len(),
{
    if k < files.len() {
        assert(files.drop_last().take(k) =~= files.take(k));
        lemma_total_prefix(files.drop_last(), k);
    } else {
        assert(files.take(k) =~= files);
    }
}

proof fn lemma_kept_wf(results: Seq<Option<FailureFile>>)
    requires
        forall|k: int| 0 <= k < results.len() ==> (#[trigger] results[k] matches Some(f) ==> f.wf()),
    ensures
        all_wf(kept(results)),
    decreases results.len(),
{
    if results.len() > 0 {
        let r2 = results.drop_last();
        assert forall|k: int| 0 <= k < r2.len() implies (#[trigger] r2[k] matches Some(f) ==> f.wf()) by {
            assert(r2[k] == results[k]);
        }
        lemma_kept_wf(r2);
        assert(results[results.len() - 1] == results.last());
    }
}

/// Two records hold the same kind, name and positions.
pub open spec fn same_record(a: FailureNode, b: FailureNode) -> bool {
    &&& a.id == b.id
    &&& a.name@ == b.name@
    &&& a.start_position == b.start_position
    &&& a.end_position == b.end_position
}

/// Scanning the same tree twice gives the same records in the same order.
pub proof fn lemma_scan_repeatable(
    path: Seq<char>,
    tree: SyntaxTree,
    source: Seq<u8>,
    rules: Seq<Rule>,
    a: Option<FailureFile>,
    b: Option<FailureFile>,
)
    requires
        scan_result(path, tree, source, rules, a),
        scan_result(path, tree, source, rules, b),
    ensures
        a is None <==> b is None,
        a matches Some(fa) ==> b matches Some(fb) && fa.file_path@ == fb.file_path@
            && fa.failure_nodes@.len() == fb.failure_nodes@.len()
            && forall|k: int| 0 <= k < fa.failure_nodes@.len()
                ==> same_record(#[trigger] fa.failure_nodes@[k], fb.failure_nodes@[k]),
{
    if let Some(fa) = a {
        let fb = b.unwrap();
        assert forall|k: int| 0 <= k < fa.failure_nodes@.len() implies same_record(
            #[trigger] fa.failure_nodes@[k],
            fb.failure_nodes@[k],
        ) by {
            assert(records_node(fa.failure_nodes@[k], tree.nodes@[transgressions(rules, tree, source)[k]]));
            assert(records_node(fb.failure_nodes@[k], tree.nodes@[transgressions(rules, tree, source)[k]]));
        }
    }
}

/// A node is among the matches of `order` exactly when `order` holds it and
/// it is a transgression.
pub proof fn lemma_matching_contains(order: Seq<int>, rules: Seq<Rule>, tree: SyntaxTree, source: Seq<u8>, i: int)
    ensures
        matching(order, rules, tree, source).contains(i) <==> (order.contains(i) && is_transgression(
            rules,
            tree,
            source,
            i,
        )),
    decreases order.len(),
{
    if order.len() > 0 {
        let init = order.drop_last();
        let last = order.last();
        lemma_matching_contains(init, rules, tree, source, i);
        let m = matching(init, rules, tree, source);
        if order.contains(i) {
            let k = choose|k: int| 0 <= k < order.len() && order[k] == i;
            if k < order.len() - 1 {
                assert(init[k] == i);
            }
        }
        if init.contains(i) {
            let k = choose|k: int| 0 <= k < init.len() && init[k] == i;
            assert(order[k] == i);
        }
        assert(order.contains(i) <==> (init.contains(i) || last == i));
        if is_transgression(rules, tree, source, last) {
            let m2 = m.push(last);
            assert(matching(order, rules, tree, source) == m2);
            if m.contains(i) {
                let k = choose|k: int| 0 <= k < m.len() && m[k] == i;
                assert(m2[k] == i);
            }
            if m2.contains(i) {
                let k = choose|k: int| 0 <= k < m2.len() && m2[k] == i;
                if k < m.len() {
                    assert(m[k] == i);
                }
            }
            if last == i {
                assert(m2[m.len() as int] == i);
            }
            assert(m2.contains(i) <==> (m.contains(i) || last == i));
        } else {
            assert(matching(order, rules, tree, source) == m);
        }
    }
}

/// The kind of node a rule looks at.
pub open spec fn rule_kind(rule: Rule) -> u16 {
    match rule {
        Rule::ForcedUnwrap { operator_kind, .. } => operator_kind,
        Rule::UnsafeCast { cast_kind } => cast_kind,
        Rule::PendingWork { comment_kind, .. } => comment_kind,
    }
}

/// A node of the forced-unwrap kind is recorded exactly when neither its
/// previous sibling nor its parent is of the already-checked kind, when the
/// forced-unwrap rule is the only active rule for that kind.
pub proof fn lemma_forced_unwrap_exclusion(
    rules: Seq<Rule>,
    tree: SyntaxTree,
    source: Seq<u8>,
    r: int,
    i: int,
)
    requires
        tree.wf(),
        0 <= r < rules.len(),
        rules[r] is ForcedUnwrap,
        forall|q: int| 0 <= q < rules.len() && q != r ==> rule_kind(#[trigger] rules[q]) != rule_kind(rules[r]),
        0 <= i < tree.nodes@.len(),
        tree.nodes@[i].kind_id == rule_kind(rules[r]),
    ensures
        transgressions(rules, tree, source).contains(i) <==> !in_context_of(
            tree,
            i,
            rules[r]->ForcedUnwrap_checked_kind,
        ),
{
    lemma_preorder_visits_each_node_once(tree);
    lemma_matching_contains(preorder(tree), rules, tree, source, i);
    if is_transgression(rules, tree, source, i) {
        let q = choose|q: int| 0 <= q < rules.len() && rule_hits(#[trigger] rules[q], tree, source, i);
        if q != r {
            assert(rule_kind(rules[q]) != rule_kind(rules[r]));
        }
    }
    if !in_context_of(tree, i, rules[r]->ForcedUnwrap_checked_kind) {
        assert(rule_hits(rules[r], tree, source, i));
    }
}

/// In the report of a scan, a node of the forced-unwrap kind has a record,
/// at the same place as among the matches, exactly when neither its
/// previous sibling nor its parent is of the already-checked kind, when the
/// forced-unwrap rule is the only active rule for that kind.
pub proof fn lemma_forced_unwrap_reported(
    path: Seq<char>,
    rules: Seq<Rule>,
    tree: SyntaxTree,
    source: Seq<u8>,
    res: Option<FailureFile>,
    r: int,
    i: int,
)
    requires
        tree.wf(),
        scan_result(path, tree, source, rules, res),
        0 <= r < rules.len(),
        rules[r] is ForcedUnwrap,
        forall|q: int| 0 <= q < rules.len() && q != r ==> rule_kind(#[trigger] rules[q]) != rule_kind(rules[r]),
        0 <= i < tree.nodes@.len(),
        tree.nodes@[i].kind_id == rule_kind(rules[r]),
    ensures
        (res matches Some(f) && exists|k: int|
            0 <= k < f.failure_nodes@.len() && transgressions(rules, tree, source)[k] == i && records_node(
                #[trigger] f.failure_nodes@[k],
                tree.nodes@[i],
            )) <==> !in_context_of(tree, i, rules[r]->ForcedUnwrap_checked_kind),
{
    lemma_forced_unwrap_exclusion(rules, tree, source, r, i);
    let hits = transgressions(rules, tree, source);
    if hits.contains(i) {
        let k = choose|k: int| 0 <= k < hits.len() && hits[k] == i;
        let f = res.unwrap();
        assert(records_node(f.failure_nodes@[k], tree.nodes@[hits[k]]));
    }
    if res is Some {
        let f = res.unwrap();
        if exists|k: int|
            0 <= k < f.failure_nodes@.len() && hits[k] == i && records_node(
                #[trigger] f.failure_nodes@[k],
                tree.nodes@[i],
            ) {
            let k = choose|k: int|
                0 <= k < f.failure_nodes@.len() && hits[k] == i && records_node(
                    #[trigger] f.failure_nodes@[k],
                    tree.nodes@[i],
                );
            assert(hits.contains(i));
        }
    }
}

/// A comment is recorded exactly when its lowercased text contains the
/// marker, when the pending-work rule is the only active rule for comments.
pub proof fn lemma_pending_work_marker(
    rules: Seq<Rule>,
    tree: SyntaxTree,
    source: Seq<u8>,
    r: int,
    i: int,
)
    requires
        tree.wf(),
        0 <= r < rules.len(),
        rules[r] is PendingWork,
        forall|q: int| 0 <= q < rules.len() && q != r ==> rule_kind(#[trigger] rules[q]) != rule_kind(rules[r]),
        0 <= i < tree.nodes@.len(),
        tree.nodes@[i].kind_id == rule_kind(rules[r]),
    ensures
        transgressions(rules, tree, source).contains(i) <==> (match node_text(tree, source, i) {
            Some(t) => contains(lower_of(t), rules[r]->PendingWork_marker@),
            None => false,
        }),
{
    lemma_preorder_visits_each_node_once(tree);
    lemma_matching_contains(preorder(tree), rules, tree, source, i);
    if is_transgression(rules, tree, source, i) {
        let q = choose|q: int| 0 <= q < rules.len() && rule_hits(#[trigger] rules[q], tree, source, i);
        if q != r {
            assert(rule_kind(rules[q]) != rule_kind(rules[r]));
        }
    }
    if rule_hits(rules[r], tree, source, i) {
        assert(is_transgression(rules, tree, source, i));
    }
}

/// The counters of a summary are functions of its reports: the record count
/// is the sum of the reports' lengths, the file count the number of reports.
pub proof fn lemma_counters_derived(o: FailureOutput)
    requires
        o.wf(),
    ensures
        o.spec_transgression_count() == total_records(o.files()),
        o.spec_files_with_transgressions() == o.files().len(),
{
}

} // verus!
