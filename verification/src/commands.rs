//! The argument records of the command line, one module per command.
use crate::logger::LogLevel;
use vstd::prelude::*;

pub mod clean;
pub mod export_graphs;
pub mod get_targets;
pub mod instrument;
pub mod llvm;
pub mod run;
pub mod setup;

pub use clean::CleanArgs;
pub use export_graphs::ExportGraphsArgs;
pub use get_targets::GetTargetsArgs;
pub use instrument::InstrumentArgs;
pub use llvm::LlvmArgs;
pub use run::RunArgs;
pub use setup::SetupArgs;

verus! {

/// A whole invocation: the verbosity and the command to run.
#[derive(Debug)]
pub struct Abstraktor {
    pub log_level: LogLevel,
    pub command: AbstraktorSubcommand,
}

/// The commands.
#[derive(Debug)]
pub enum AbstraktorSubcommand {
    GetTargets(GetTargetsArgs),
    Llvm(LlvmArgs),
    Instrument(InstrumentArgs),
    Setup(SetupArgs),
    Run(RunArgs),
    Clean(CleanArgs),
    ExportGraphs(ExportGraphsArgs),
}

} // verus!
