//! `get-targets`: scan source files and write their target tables.
use crate::text::same_text;
use vstd::prelude::*;

verus! {

/// The file or directory to scan, and the file that the target tables go
/// to.
#[derive(Debug)]
pub struct GetTargetsArgs {
    pub path: String,
    pub output: String,
}

/// Is a file with the extension `extension` scanned when a directory is
/// walked?  Files of C and of C++ are.
pub fn is_source_extension(extension: &str) -> (scanned: bool)
    ensures
        scanned == (extension@ == "c"@ || extension@ == "cpp"@),
{
    same_text(extension, "c") || same_text(extension, "cpp")
}

} // verus!
