//! `run mallory`: bring the test environment up and run one test.
use vstd::prelude::*;

verus! {

/// The script that brings the test environment up.
pub const UP_SCRIPT: &'static str = "mallory/docker/bin/up";

/// The script that runs a command on the control node.
pub const CONSOLE_SCRIPT: &'static str = "mallory/docker/bin/console";

/// What the control node runs: the mediator, then one test, then the copy of
/// the mediator's log to the host.
pub const TEST_COMMAND: &'static str =
    "cd /jepsen/mediator && ./target/x86_64-unknown-linux-musl/release/mediator qlearning event_history 0.7 & sleep 5 && cd /jepsen/tests/mallory/dqlite && lein run test --workload append --nemesis all --time-limit 65 --test-count 1 && cp /jepsen/tests/mallory/dqlite/store/latest/mediator.log /host";

/// `run mallory` takes no arguments.
#[derive(Debug)]
pub struct RunMalloryArgs {}

} // verus!
