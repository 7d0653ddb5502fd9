//! `setup`: prepare images, the mediator and the system under test.
use vstd::prelude::*;

pub mod all;
pub mod docker;
pub mod jepsen;
pub mod mediator;
pub mod sut;
pub mod sut_common;

pub use all::SetupAllArgs;
pub use docker::DockerArgs;
pub use jepsen::JepsenArgs;
pub use mediator::MediatorArgs;
pub use sut::SutArgs;

verus! {

/// The part to set up.
#[derive(Debug)]
pub struct SetupArgs {
    pub command: SetupSubcommand,
}

/// The parts.
#[derive(Debug)]
pub enum SetupSubcommand {
    Docker(DockerArgs),
    Mediator(MediatorArgs),
    All(SetupAllArgs),
    Sut(SutArgs),
    Jepsen(JepsenArgs),
}

} // verus!
