//! Launch-path capture.
//!
//! At process start the host hands over the first command-line argument,
//! if any, together with whether it names an existing regular file; the
//! capture keeps the path only in that case.  Queries return the kept
//! value unchanged, as often as asked.

use vstd::prelude::*;

verus! {

/// Zero or one filesystem path, decided once at process start and then
/// only queried.
pub struct LaunchPath {
    stored: Option<String>,
}

impl LaunchPath {
    /// The kept path, if any.
    pub closed spec fn spec_stored(&self) -> Option<String> {
        self.stored
    }

    /// Decides at process start what to keep: the first argument, and
    /// only when it names an existing regular file.
    pub fn init(first_arg: Option<String>, is_regular_file: bool) -> (r: LaunchPath)
        ensures
            first_arg is None ==> r.spec_stored() is None,
            !is_regular_file ==> r.spec_stored() is None,
            first_arg is Some && is_regular_file ==> r.spec_stored() == first_arg,
    {
        match first_arg {
            Some(a) => if is_regular_file {
                LaunchPath { stored: Some(a) }
            } else {
                LaunchPath { stored: None }
            },
            None => LaunchPath { stored: None },
        }
    }

    /// Returns the kept path without consuming or clearing it: the
    /// receiver is untouched, so every query answers the same.
    pub fn get(&self) -> (r: Option<String>)
        ensures
            r == self.spec_stored(),
    {
        match &self.stored {
            Some(p) => Some(p.clone()),
            None => None,
        }
    }
}

} // verus!
