//! `setup jepsen`: copy a directory into the control image's build context.
use super::sut_common::destination_name;
use vstd::prelude::*;

verus! {

/// The build context of the control image.
pub const DOCKER_BUILD_DIR: &'static str = "mallory/docker/control";

/// The tag of the control image.
pub const IMAGE_TAG: &'static str = "jepsen_control";

/// The directory to copy, the name of the copy, if it is not that of the
/// directory, and whether the image is built anew afterwards.
#[derive(Debug)]
pub struct JepsenArgs {
    pub path: String,
    pub destination: Option<String>,
    pub rebuild: bool,
}

impl JepsenArgs {
    /// The name of the copy; see [`destination_name`].
    pub fn destination_name(&self, directory_name: Option<&str>) -> (name: String)
        ensures
            name@ == (match (self.destination, directory_name) {
                (Some(asked), _) => asked@,
                (None, Some(directory)) => directory@,
                (None, None) => super::sut_common::DEFAULT_DESTINATION@,
            }),
    {
        destination_name(&self.destination, directory_name)
    }
}

} // verus!
