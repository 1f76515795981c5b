//! Scanning source files: parse, import, walk, and report.
use vstd::prelude::*;
use crate::dart::{dart_nodes, dart_parser, has_dart_grammar, has_grammar, import_tree, parse_bytes};
use crate::report::{scan_result, scan_tree, FailureFile};
use crate::rules::{is_dart_rules, Rule, RuleSet};
use crate::tree::SyntaxTree;

verus! {

/// Why a file could not be scanned.
#[derive(Clone, Copy, Debug, PartialEq, Eq, Structural)]
pub enum AnalysisError {
    /// The bytes could not be parsed into a syntax tree.
    ParseFailed,
}

/// A source file: its path and its bytes.
pub struct SourceFile {
    pub file_path: String,
    pub source: Vec<u8>,
}

impl SourceFile {
    pub fn new(file_path: String, source: Vec<u8>) -> (r: SourceFile)
        ensures
            r.file_path == file_path,
            r.source == source,
    {
        SourceFile { file_path, source }
    }

    /// Parses the file and scans its tree with `rules`. With the Dart
    /// grammar in the parser this succeeds, and the result is the scan of the
    /// file's Dart syntax tree: `None` when no node matched, else a report of
    /// every match in document order. On a parser that holds no grammar the
    /// parse fails, and so does this.
    pub fn find_failures(self, parser: &mut tree_sitter::Parser, rules: &RuleSet) -> (r: Result<
        Option<FailureFile>,
        AnalysisError,
    >)
        ensures
            has_dart_grammar(*old(parser)) ==> (r matches Ok(o) && dart_scan(
                self.file_path@,
                self.source@,
                rules@,
                o,
            )),
            !has_grammar(*old(parser)) ==> r == Err::<Option<FailureFile>, AnalysisError>(
                AnalysisError::ParseFailed,
            ),
            r matches Ok(o) ==> exists|t: SyntaxTree|
                t.wf() && scan_result(self.file_path@, t, self.source@, rules@, o),
            r matches Ok(Some(f)) ==> f.wf(),
            has_dart_grammar(*final(parser)) == has_dart_grammar(*old(parser)),
    {
        let parsed = match parse_bytes(parser, self.source.as_slice()) {
            Some(t) => t,
            None => return Err(AnalysisError::ParseFailed),
        };
        let tree = import_tree(&parsed);
        let ghost path = self.file_path@;
        let r = scan_tree(self.file_path, &tree, self.source.as_slice(), rules);
        proof {
            assert(tree.wf() && scan_result(path, tree, self.source@, rules@, r));
        }
        Ok(r)
    }
}

/// `o` is the scan, for `rules`, of the Dart syntax tree of `source`, read
/// from the file `path`.
pub open spec fn dart_scan(path: Seq<char>, source: Seq<u8>, rules: Seq<Rule>, o: Option<FailureFile>) -> bool {
    exists|t: SyntaxTree| t@ == dart_nodes(source) && t.wf() && scan_result(path, t, source, rules, o)
}

/// Scans Dart files for transgressions.
pub struct FailureFinder {
    parser: tree_sitter::Parser,
    rules: RuleSet,
}

impl FailureFinder {
    /// The rules this finder applies.
    pub closed spec fn rules(&self) -> RuleSet {
        self.rules
    }

    /// The finder's parser holds the Dart grammar.
    pub closed spec fn ready(&self) -> bool {
        has_dart_grammar(self.parser)
    }

    /// A finder with the Dart grammar and the Dart rules.
    pub fn new() -> (r: FailureFinder)
        ensures
            r.ready(),
            is_dart_rules(r.rules()@),
    {
        FailureFinder { parser: dart_parser(), rules: RuleSet::dart() }
    }

    /// Scans one file given as its path and bytes: the scan of the file's
    /// Dart syntax tree under this finder's rules.
    pub fn analyse_source(&mut self, file_path: String, source: Vec<u8>) -> (r: Result<
        Option<FailureFile>,
        AnalysisError,
    >)
        ensures
            old(self).ready() ==> (r matches Ok(o) && dart_scan(file_path@, source@, old(self).rules()@, o)),
            r matches Ok(Some(f)) ==> f.wf(),
            final(self).ready() == old(self).ready(),
            final(self).rules() == old(self).rules(),
    {
        SourceFile::new(file_path, source).find_failures(&mut self.parser, &self.rules)
    }
}

} // verus!
