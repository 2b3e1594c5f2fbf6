//! The persistence capability: a recorder is anything that accepts
//! batches of changes, so that the scanner and the driver need not care
//! whether the batches end up in a file, in memory, or nowhere.

use vstd::prelude::*;
use crate::change::{Change, ChangeModel, lemma_deep_view_concat};

verus! {

/// The error a recorder reports when it cannot persist a batch: what went
/// wrong, in words.
#[derive(Debug)]
pub struct JCodeError {
    pub message: String,
}

/// A persistence backend for detected changes. What it has durably
/// accepted so far is its `recorded` model; a successful save appends
/// exactly the handed batch, in order.
pub trait DataHandler {
    /// Whether this backend's durable state stands where proofs can see
    /// it. A backend that keeps its state in the program sets this and
    /// overrides `recorded`; one that writes outside the program (a file
    /// on disk) leaves both defaults and is not modelled.
    open spec fn obeys_model() -> bool {
        false
    }

    /// The changes this handler has accepted so far, for a modelled
    /// backend.
    open spec fn recorded(&self) -> Seq<ChangeModel> {
        Seq::empty()
    }

    /// Accepts one batch of changes. For a modelled backend, success means
    /// exactly that batch, in order, was appended to what was recorded
    /// before; on failure the handler reports what went wrong.
    fn save(&mut self, changes: Vec<Change>) -> (r: Result<(), JCodeError>)
        ensures
            Self::obeys_model() && r is Ok ==> final(self).recorded() == old(self).recorded()
                + changes.deep_view(),
    ;
}

/// An in-memory recorder, for tests and dry runs: keeps every accepted
/// change in order instead of writing anywhere, and never fails.
pub struct MemHandler {
    pub accepted: Vec<Change>,
}

impl MemHandler {
    /// Builds an in-memory recorder that has accepted nothing yet.
    pub fn new() -> (h: MemHandler)
        ensures
            h.recorded() == Seq::<ChangeModel>::empty(),
    {
        let h = MemHandler { accepted: Vec::new() };
        proof {
            assert(h.accepted.deep_view() =~= Seq::<ChangeModel>::empty());
        }
        h
    }
}

impl DataHandler for MemHandler {
    open spec fn obeys_model() -> bool {
        true
    }

    open spec fn recorded(&self) -> Seq<ChangeModel> {
        self.accepted.deep_view()
    }

    fn save(&mut self, changes: Vec<Change>) -> (r: Result<(), JCodeError>)
        ensures
            r is Ok,
    {
        let ghost prev = self.accepted;
        let ghost batch = changes;
        let mut incoming = changes;
        self.accepted.append(&mut incoming);
        proof {
            lemma_deep_view_concat(self.accepted, prev, batch);
        }
        Ok(())
    }
}

} // verus!
