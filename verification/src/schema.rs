//! The typed schema layer over the byte store, and the commit-log naming
//! scheme.

use vstd::prelude::*;

verus! {

/// A typed view over the byte store: key and value types with a name.
pub trait KeyValueSchema {
    type Key;

    type Value;

    fn name() -> &'static str;
}

/// Names a commit log.
pub struct CommitLogDescriptor {
    pub name: String,
}

impl CommitLogDescriptor {
    /// The log's name.
    pub fn name(&self) -> (r: &str)
        ensures
            r@ == self.name@,
    {
        self.name.as_str()
    }
}

/// A value schema for a commit log.
pub trait CommitLogSchema {
    type Value;

    fn name() -> &'static str;
}

} // verus!
