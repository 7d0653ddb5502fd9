//! `setup all`: images first, then the mediator.
use super::docker::DockerArgs;
use super::mediator::MediatorArgs;
use vstd::prelude::*;

verus! {

/// The arguments of both steps.
#[derive(Debug)]
pub struct SetupAllArgs {
    pub docker: DockerArgs,
    pub mediator: MediatorArgs,
}

} // verus!
