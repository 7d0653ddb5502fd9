//! `setup docker`: build the images.
use vstd::prelude::*;

verus! {

/// `setup docker` takes no arguments.
#[derive(Debug)]
pub struct DockerArgs {}

} // verus!
