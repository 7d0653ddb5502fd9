//! `setup mediator`: compile the mediator.
use vstd::prelude::*;
use vstd::string::*;

verus! {

/// Whether to build for release, and the features to build with.
#[derive(Debug)]
pub struct MediatorArgs {
    pub release: bool,
    pub selfcheck: bool,
    pub logsaving: bool,
}

/// Where the mediator's sources are.
pub const MEDIATOR_DIR: &'static str = "mallory/mediator";

/// The compiler flags of the build.
pub const RUSTFLAGS: &'static str = "-C target-cpu=native";

/// The features to build with, joined by commas; empty where none is asked
/// for.
pub open spec fn feature_list(selfcheck: bool, logsaving: bool) -> Seq<char> {
    if selfcheck && logsaving {
        "selfcheck,logsaving"@
    } else if selfcheck {
        "selfcheck"@
    } else if logsaving {
        "logsaving"@
    } else {
        Seq::empty()
    }
}

/// The arguments of the build: `build`, then `--release` for a release
/// build, then `--features` with the list of features where one is asked
/// for.
pub open spec fn build_arguments(release: bool, selfcheck: bool, logsaving: bool) -> Seq<
    Seq<char>,
> {
    seq!["build"@] + (if release {
        seq!["--release"@]
    } else {
        Seq::empty()
    }) + (if selfcheck || logsaving {
        seq!["--features"@, feature_list(selfcheck, logsaving)]
    } else {
        Seq::empty()
    })
}

impl MediatorArgs {
    /// The name of the build mode.
    pub fn build_mode(&self) -> (mode: &'static str)
        ensures
            mode@ == (if self.release {
                "release"@
            } else {
                "debug"@
            }),
    {
        if self.release {
            "release"
        } else {
            "debug"
        }
    }

    /// The features to build with, joined by commas, where any is asked for.
    pub fn features(&self) -> (list: Option<String>)
        ensures
            list is Some <==> self.selfcheck || self.logsaving,
            list matches Some(text) ==> text@ == feature_list(self.selfcheck, self.logsaving),
    {
        if self.selfcheck && self.logsaving {
            Some(String::from_str("selfcheck,logsaving"))
        } else if self.selfcheck {
            Some(String::from_str("selfcheck"))
        } else if self.logsaving {
            Some(String::from_str("logsaving"))
        } else {
            None
        }
    }

    /// The arguments that the build hands to `cargo`.
    pub fn cargo_arguments(&self) -> (arguments: Vec<String>)
        ensures
            arguments.deep_view() == build_arguments(self.release, self.selfcheck, self.logsaving),
    {
        let mut arguments: Vec<String> = Vec::new();
        arguments.push(String::from_str("build"));
        if self.release {
            arguments.push(String::from_str("--release"));
        }
        match self.features() {
            Some(list) => {
                arguments.push(String::from_str("--features"));
                arguments.push(list);
            },
            None => {},
        }
        assert(arguments.deep_view() =~= build_arguments(
            self.release,
            self.selfcheck,
            self.logsaving,
        ));
        arguments
    }
}

} // verus!
