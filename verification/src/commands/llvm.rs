//! `llvm`: build a source tree with the instrumenting compiler.
use vstd::prelude::*;
use vstd::string::*;

verus! {

/// The instrumenting compiler that is used when none is named.
pub const LLVM_INSTRUMENTOR_PATH: &'static str = "./llvm/afl-clang-fast";

/// The compiler that the instrumenting compiler drives.
pub const AFL_CC: &'static str = "clang-11";

/// The source tree to build, the file of its target tables, and the
/// instrumenting compiler, if it is not the usual one.
#[derive(Debug)]
pub struct LlvmArgs {
    pub path: String,
    pub targets_path: String,
    pub llvm_path: Option<String>,
}

impl LlvmArgs {
    /// The instrumenting compiler to use: the one that was named, or the
    /// usual one.
    pub fn instrumentor_path(&self) -> (path: String)
        ensures
            path@ == (match self.llvm_path {
                Some(named) => named@,
                None => LLVM_INSTRUMENTOR_PATH@,
            }),
    {
        match &self.llvm_path {
            Some(named) => named.clone(),
            None => String::from_str(LLVM_INSTRUMENTOR_PATH),
        }
    }
}

/// An input of the build that is not there.
#[derive(Debug, PartialEq, Eq, Clone, Copy, Structural)]
pub enum MissingInput {
    Instrumentor,
    Path,
    TargetsFile,
}

/// The first input that is missing.  The compiler is looked for first, then
/// the source tree, then the targets file.
pub fn first_missing(instrumentor_exists: bool, path_exists: bool, targets_exists: bool) -> (missing:
    Option<MissingInput>)
    ensures
        missing == (if !instrumentor_exists {
            Some(MissingInput::Instrumentor)
        } else if !path_exists {
            Some(MissingInput::Path)
        } else if !targets_exists {
            Some(MissingInput::TargetsFile)
        } else {
            None
        }),
{
    if !instrumentor_exists {
        Some(MissingInput::Instrumentor)
    } else if !path_exists {
        Some(MissingInput::Path)
    } else if !targets_exists {
        Some(MissingInput::TargetsFile)
    } else {
        None
    }
}

impl MissingInput {
    /// How the complaint about this input begins.
    pub open spec fn headline(&self) -> Seq<char> {
        match self {
            MissingInput::Instrumentor => "Instrumentor not found at "@,
            MissingInput::Path => "Path not found at "@,
            MissingInput::TargetsFile => "Targets file not found at "@,
        }
    }

    /// The complaint that this input is not at `location`.
    pub fn message(&self, location: &str) -> (text: String)
        ensures
            text@ == self.headline() + location@,
    {
        let mut text = match self {
            MissingInput::Instrumentor => String::from_str("Instrumentor not found at "),
            MissingInput::Path => String::from_str("Path not found at "),
            MissingInput::TargetsFile => String::from_str("Targets file not found at "),
        };
        text.append(location);
        text
    }
}

} // verus!
