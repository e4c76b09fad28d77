//! Compression: the same document, written again with its objects packed into object
//! streams.
//!
//! Packing changes how the objects are stored, not what they are, so what a reader sees of
//! the document is exactly what it saw before: the pages, their order and everything they
//! inherit.

use vstd::prelude::*;

use crate::engine::{open_document, opens, rotations_of};
use crate::error::{Result, Stage};
use crate::graph::{wf, Document, DocumentV};
use crate::limits::{Clock, Deadline, Limits};

verus! {

/// A document held open for compression.
pub struct QpdfCompressible {
    document: Document,
    limits: Limits,
}

impl QpdfCompressible {
    /// Holds of every value [`Self::open`] returns.
    pub closed spec fn wf(self) -> bool {
        opens(self.document@, self.limits)
    }

    /// The document.
    pub closed spec fn doc(self) -> DocumentV {
        self.document@
    }

    /// The ceilings it was opened under.
    pub closed spec fn limits(self) -> Limits {
        self.limits
    }

    /// Open `document` for compression under `limits`.
    ///
    /// # Errors
    ///
    /// As [`open_document`].
    pub fn open(document: Document, limits: Limits) -> (r: Result<QpdfCompressible>)
        ensures
            r is Ok <==> opens(document@, limits),
            r is Ok ==> r->Ok_0.wf() && r->Ok_0.doc() == document@ && r->Ok_0.limits() == limits,
            !wf(document@) ==> r is Err && r->Err_0 is Malformed,
            wf(document@) && document@.pages.len() > limits.max_pages ==> r is Err && r->Err_0 is LimitExceeded,
    {
        open_document(&document, &limits)?;
        Ok(QpdfCompressible { document, limits })
    }

    /// How many pages the document has.
    pub fn pages(&self) -> (n: u64)
        requires
            self.wf(),
        ensures
            n == self.doc().pages.len(),
    {
        self.document.pages.len() as u64
    }

    /// Every page's `/Rotate` as written; see [`rotations_of`].
    pub fn rotations<C: Clock>(&self, deadline: &Deadline, clock: &C) -> (r: Result<Vec<i64>>)
        requires
            self.wf(),
        ensures
            r is Ok ==> r->Ok_0@.len() == self.doc().pages.len() && forall|i: int|
                0 <= i < self.doc().pages.len() ==> crate::engine::recorded(self.doc(), self.doc().pages[i], r->Ok_0@[i] as int),
            r is Err ==> crate::engine::swept_refusal(self.doc(), *deadline, r->Err_0),
            deadline.holds_for(clock) && (forall|i: int| 0 <= i < self.doc().pages.len()
                ==> crate::engine::rotation_read(self.doc(), #[trigger] self.doc().pages[i]) is Some) ==> r is Ok,
    {
        proof {
            assert forall|i: int| 0 <= i < self.document@.pages.len()
                && crate::engine::rotation_read(self.doc(), self.doc().pages[i]) is Some
                implies crate::engine::rotation_read(self.document@, #[trigger] self.document@.pages[i]) is Some by {}
        }
        rotations_of(&self.document, deadline, clock)
    }

    /// The document to write with object streams, under its own deadline from the ceilings
    /// it was opened under, checked before and after the write.
    ///
    /// # Errors
    ///
    /// `LimitExceeded` for `max_duration_ms` at [`Stage::Duration`], when the budget is
    /// spent at either check.
    pub fn compress<C: Clock>(&self, clock: &C) -> (r: Result<Document>)
        requires
            self.wf(),
        ensures
            r is Ok ==> r->Ok_0@ == self.doc(),
            r is Err ==> r->Err_0 is LimitExceeded && r->Err_0->stage == Stage::Duration
                && r->Err_0->allowed == self.limits().max_duration_ms,
            crate::limits::steady(clock, self.limits().max_duration_ms) ==> r is Ok,
    {
        let deadline = Deadline::start(clock, &self.limits);
        deadline.checkpoint(clock)?;
        let output = self.document.duplicate();
        deadline.checkpoint(clock)?;
        Ok(output)
    }
}

/// Compression keeps every page, in order, with the rotation it displays and the `/Rotate` it
/// records: a document `compress` hands back reads as the one it was given.
pub proof fn lemma_compression_keeps_every_rotation(c: QpdfCompressible, out: DocumentV)
    requires
        c.wf(),
        out == c.doc(),
    ensures
        out.pages == c.doc().pages,
        forall|i: int| 0 <= i < out.pages.len() ==> crate::rotate::effective(out, #[trigger] out.pages[i])
            == crate::rotate::effective(c.doc(), c.doc().pages[i]),
        forall|i: int| 0 <= i < out.pages.len() ==> crate::engine::rotation_read(out, #[trigger] out.pages[i])
            == crate::engine::rotation_read(c.doc(), c.doc().pages[i]),
{
}

} // verus!
