//! What the two commands that copy a system under test have in common.
use vstd::prelude::*;
use vstd::string::*;

verus! {

/// The directory, below a build context, that holds the systems under test.
pub const SUT_DIR_NAME: &'static str = "SUT";

/// The name that a copy gets where neither a destination nor the source
/// directory gives one.
pub const DEFAULT_DESTINATION: &'static str = "source";

/// The name of the copy below the directory of the systems under test: the
/// destination that was asked for, else the name of the source directory,
/// else `source`.
pub fn destination_name(destination: &Option<String>, directory_name: Option<&str>) -> (name:
    String)
    ensures
        name@ == (match (destination, directory_name) {
            (Some(asked), _) => asked@,
            (None, Some(directory)) => directory@,
            (None, None) => DEFAULT_DESTINATION@,
        }),
{
    match destination {
        Some(asked) => asked.clone(),
        None => match directory_name {
            Some(directory) => directory.to_owned(),
            None => String::from_str(DEFAULT_DESTINATION),
        },
    }
}

} // verus!
