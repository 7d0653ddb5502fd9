//! `instrument`: scan, then build with the instrumenting compiler.
use super::get_targets::GetTargetsArgs;
use super::llvm::LlvmArgs;
use vstd::prelude::*;

verus! {

/// Where the target tables live between the scan and the build.
pub const TEMP_TARGETS_PATH: &'static str = "temp_targets.json";

/// The source tree to instrument, and the instrumenting compiler, if it is
/// not the usual one.
#[derive(Debug)]
pub struct InstrumentArgs {
    pub path: String,
    pub llvm_path: Option<String>,
}

impl InstrumentArgs {
    /// The arguments of the scan: the tree to scan, and where its target
    /// tables go.
    pub fn scan_step(&self, targets_path: &str) -> (args: GetTargetsArgs)
        ensures
            args.path@ == self.path@,
            args.output@ == targets_path@,
    {
        GetTargetsArgs { path: self.path.clone(), output: targets_path.to_owned() }
    }

    /// The arguments of the build: the same tree, the target tables of the
    /// scan, and the compiler that was named, if one was.
    pub fn build_step(self, targets_path: &str) -> (args: LlvmArgs)
        ensures
            args.path == self.path,
            args.targets_path@ == targets_path@,
            args.llvm_path == self.llvm_path,
    {
        LlvmArgs { path: self.path, targets_path: targets_path.to_owned(), llvm_path: self.llvm_path }
    }
}

} // verus!
