//! The commands of the command line, as plain values.
use vstd::prelude::*;

verus! {

#[derive(Debug, Clone, PartialEq)]
pub struct Cli {
    pub command: Commands,
}

#[allow(inconsistent_fields)]
#[derive(Debug, Clone, PartialEq)]
pub enum Commands {
    Init { path: String, context: Option<String> },
    Add { text: String, due: Option<String>, context: Option<String> },
    Done { id: String },
    Start { id: String },
    Cancel { id: String },
    List { due: Option<String>, context: Option<String> },
    Show { id: String },
    Sync,
    Inbox { text: Option<String> },
    Review,
}

} // verus!
