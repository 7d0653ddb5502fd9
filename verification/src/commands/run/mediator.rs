//! `run mediator`: start the mediator.
use vstd::prelude::*;

verus! {

/// Where the mediator's program is, once built.
pub const MEDIATOR_BIN_REL: &'static str =
    "mallory/mediator/target/x86_64-unknown-linux-musl/release/mediator";

/// The learning algorithm that the mediator runs.
pub const ALGORITHM: &'static str = "qlearning";

/// The table that the mediator learns on.
pub const TABLE: &'static str = "event_history";

/// The reward that the mediator learns with.
pub const REWARD: &'static str = "0.7";

/// `run mediator` takes no arguments.
#[derive(Debug)]
pub struct RunMediatorArgs {}

} // verus!
