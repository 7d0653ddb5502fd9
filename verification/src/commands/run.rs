//! `run`: start one of the long-running services.
use vstd::prelude::*;

pub mod mallory;
pub mod mediator;

pub use mallory::RunMalloryArgs;
pub use mediator::RunMediatorArgs;

verus! {

/// The service to start.
#[derive(Debug)]
pub struct RunArgs {
    pub command: RunSubcommand,
}

/// The services.
#[derive(Debug)]
pub enum RunSubcommand {
    Mallory(RunMalloryArgs),
    Mediator(RunMediatorArgs),
}

} // verus!
