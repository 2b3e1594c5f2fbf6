//! The record of one detected modification: which file, and when.
//!
//! Paths are carried as byte strings, as the operating system hands them
//! out; timestamps are whole seconds since the epoch.

use vstd::prelude::*;

verus! {

/// The mathematical value of a [`Change`]: a path as a byte sequence and a
/// timestamp in seconds.
#[verifier::ext_equal]
pub struct ChangeModel {
    pub path: Seq<u8>,
    pub timestamp: u64,
}

/// One newly modified file detected by a scan: its absolute path (as the
/// bytes of the path) and its modification time, in seconds since the epoch.
#[derive(Clone, Debug, PartialEq, Eq)]
pub struct Change {
    pub path: Vec<u8>,
    pub timestamp: u64,
}

impl View for Change {
    type V = ChangeModel;

    open spec fn view(&self) -> ChangeModel {
        ChangeModel { path: self.path@, timestamp: self.timestamp }
    }
}

impl DeepView for Change {
    type V = ChangeModel;

    open spec fn deep_view(&self) -> ChangeModel {
        self@
    }
}

impl Change {
    /// Builds a change record from a path and a modification time.
    pub fn new(path: Vec<u8>, timestamp: u64) -> (c: Change)
        ensures
            c@ == (ChangeModel { path: path@, timestamp }),
    {
        Change { path, timestamp }
    }
}

/// A pushed change extends the sequence of change models by the model of
/// the pushed record.
pub proof fn lemma_deep_view_push(v: Vec<Change>, prev: Vec<Change>, c: Change)
    requires
        v@ == prev@.push(c),
    ensures
        v.deep_view() == prev.deep_view().push(c@),
{
    assert(v.deep_view() =~= prev.deep_view().push(c@));
}

/// Appending one change vector to another concatenates their models.
pub proof fn lemma_deep_view_concat(v: Vec<Change>, a: Vec<Change>, b: Vec<Change>)
    requires
        v@ == a@ + b@,
    ensures
        v.deep_view() == a.deep_view() + b.deep_view(),
{
    assert(v.deep_view() =~= a.deep_view() + b.deep_view());
}

} // verus!
