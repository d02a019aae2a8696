//! The user's home directory, as the environment gives it.
use vstd::prelude::*;

use crate::model::opt_view;

verus! {

/// The user's home directory as etcetera finds it, if it finds one. The
/// field is private: a value is had only from `home_dir`, so a path
/// resolved with it is resolved with what the environment gave.
pub struct HomeDir {
    dir: Option<String>,
}

impl View for HomeDir {
    type V = Option<Seq<char>>;

    closed spec fn view(&self) -> Option<Seq<char>> {
        opt_view(self.dir)
    }
}

impl HomeDir {
    /// The directory, as text.
    pub fn dir(&self) -> (r: &Option<String>)
        ensures
            opt_view(*r) == self@,
    {
        &self.dir
    }
}

/// etcetera's `home_dir`, converted to text. It reads the environment, so
/// nothing is claimed of the result.
#[verifier::external_body]
pub(crate) fn home_dir() -> HomeDir {
    HomeDir {
        dir: match etcetera::home_dir() {
            Ok(home) => Some(home.to_string_lossy().into_owned()),
            Err(_) => None,
        },
    }
}

} // verus!
