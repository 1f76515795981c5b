//! What the command line selects: one file, a directory, or a list of files.
use vstd::prelude::*;

verus! {

/// Scan one file.
#[derive(Clone, Debug, PartialEq, Eq)]
pub struct FileArguments {
    pub file_path: String,
}

/// Scan every file under a directory, recursively.
#[derive(Clone, Debug, PartialEq, Eq)]
pub struct DirectoryArguments {
    pub directory_path: String,
}

/// Scan several files.
#[derive(Clone, Debug, PartialEq, Eq)]
pub struct FilesArguments {
    pub file_paths: Vec<String>,
}

/// The modes of the scanner.
#[derive(Clone, Debug, PartialEq, Eq)]
pub enum NodeAnalyser {
    File(FileArguments),
    Directory(DirectoryArguments),
    Files(FilesArguments),
}

} // verus!
