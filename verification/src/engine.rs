//! The engine itself, and what every operation does when it opens a document.

use vstd::prelude::*;

use crate::error::{invalid_argument, malformed, Error, Result, Stage};
use crate::graph::{wf, Document};
use crate::inherit::{inherited, inherited_value, Inherited, Lookup};
use crate::limits::{Clock, Deadline, Limits};
use crate::names::{rotate, spec_rotate};
use crate::graph::ValueV;
use crate::graph::Value;

verus! {

/// The page-structure engine.
///
/// Stateless: every operation works on the document it is handed.
#[derive(Debug, Clone, Copy, Default)]
pub struct Qpdf;

impl Qpdf {
    /// A handle to the engine.
    pub fn new() -> (q: Qpdf) {
        Qpdf
    }

    /// The engine's name.
    pub fn name(&self) -> (n: &'static str)
        ensures
            n@ == "qpdf"@,
    {
        "qpdf"
    }
}

/// Whether opening `d` under `limits` succeeds: it is well formed, has pages, and has no more
/// than `max_pages` of them.
pub open spec fn opens(d: crate::graph::DocumentV, limits: Limits) -> bool {
    wf(d) && d.pages.len() > 0 && d.pages.len() <= limits.max_pages
}

/// Accept a document under `limits`' ceilings, returning its page count.
///
/// # Errors
///
/// - `Malformed` when the document is not well formed or has no pages.
/// - `LimitExceeded` for `max_pages` at [`Stage::PageCount`].
pub fn open_document(document: &Document, limits: &Limits) -> (r: Result<u64>)
    ensures
        r is Ok <==> opens(document@, *limits),
        r is Ok ==> r->Ok_0 == document@.pages.len(),
        !wf(document@) ==> r is Err && r->Err_0 is Malformed,
        wf(document@) && document@.pages.len() == 0 ==> r is Err && r->Err_0 is Malformed,
        wf(document@) && document@.pages.len() > limits.max_pages ==> r is Err && r->Err_0
            == (Error::LimitExceeded {
                limit: "max_pages",
                stage: Stage::PageCount,
                requested: document@.pages.len() as u64,
                allowed: limits.max_pages,
            }),
{
    if !document.is_well_formed() {
        return Err(malformed("the document's page tree is not well formed"));
    }
    if document.pages.len() == 0 {
        return Err(malformed("a document with no pages"));
    }
    let pages = document.pages.len() as u64;
    Limits::check(Stage::PageCount, "max_pages", pages, limits.max_pages)?;
    Ok(pages)
}

/// The `/Rotate` a page inherits, as written: `Some(None)` when no node carries it,
/// `None` when it cannot be read.
pub open spec fn rotation_read(d: crate::graph::DocumentV, page: nat) -> Option<Option<int>> {
    match inherited(d, page, spec_rotate()) {
        Inherited::Found(ValueV::Integer(n)) => Some(Some(n)),
        Inherited::Found(_) => None,
        Inherited::Absent => Some(None),
        Inherited::Broken => None,
    }
}

/// The `/Rotate` page `page` inherits, **as written**, without judging whether it is a
/// multiple of 90. `None` means no node up the tree carries it.
///
/// # Errors
///
/// `Malformed` when the value is not an integer, when a `/Parent` is not a page-tree node,
/// or when the tree is deeper than the walk will go.
pub fn declared_rotation(d: &Document, page: usize) -> (r: Result<Option<i64>>)
    ensures
        r is Ok <==> rotation_read(d@, page as nat) is Some,
        r is Ok ==> rotation_read(d@, page as nat) == Some(match r->Ok_0 {
            Some(n) => Some(n as int),
            None => None::<int>,
        }),
        r is Err ==> r->Err_0 is Malformed,
{
    let key = rotate();
    match inherited_value(d, page, &key) {
        Lookup::Found(Value::Integer(n)) => Ok(Some(n)),
        Lookup::Found(_) => Err(malformed("/Rotate is not an integer")),
        Lookup::Absent => Ok(None),
        Lookup::Broken => Err(malformed("the page tree cannot be walked above a page")),
    }
}

/// Whether `value` is what the sweep records for page `page`: its `/Rotate` as written, 0
/// when none is inherited.
pub open spec fn recorded(d: crate::graph::DocumentV, page: nat, value: int) -> bool {
    match rotation_read(d, page) {
        Some(Some(n)) => value == n,
        Some(None) => value == 0,
        None => false,
    }
}

/// Whether `e` is a refusal the rotation sweep of `d` under `deadline` can give: the deadline
/// passed, or a page whose `/Rotate` cannot be read.
pub open spec fn swept_refusal(d: crate::graph::DocumentV, deadline: Deadline, e: Error) -> bool {
    ||| e is LimitExceeded && e->limit@ == "max_duration_ms"@ && e->stage == Stage::Duration
        && e->allowed == deadline.budget && e->requested > deadline.budget
    ||| e is Malformed && exists|i: int| 0 <= i < d.pages.len() && rotation_read(d, #[trigger] d.pages[i]) is None
}

/// The page index `index` names, refused when it is past the end.
pub fn page_object(d: &Document, index: u64) -> (r: Result<usize>)
    ensures
        r is Ok <==> index < d@.pages.len(),
        r is Ok ==> r->Ok_0 == d@.pages[index as int],
        r is Err ==> r->Err_0 is InvalidArgument,
{
    if index >= d.pages.len() as u64 {
        return Err(invalid_argument("page is not in the document"));
    }
    Ok(d.pages[index as usize])
}

/// Every page's `/Rotate` as written, in page order, with absent read as 0: the sweep every
/// operation records before and after it runs. Checkpointed per page against the caller's
/// deadline.
///
/// # Errors
///
/// `Malformed` for a page whose `/Rotate` cannot be read; `LimitExceeded` for
/// `max_duration_ms`.
pub fn rotations_of<C: Clock>(d: &Document, deadline: &Deadline, clock: &C) -> (r: Result<Vec<i64>>)
    ensures
        r is Ok ==> r->Ok_0@.len() == d@.pages.len() && forall|i: int|
            0 <= i < d@.pages.len() ==> recorded(d@, d@.pages[i], r->Ok_0@[i] as int),
        r is Err ==> swept_refusal(d@, *deadline, r->Err_0),
        deadline.holds_for(clock) && (forall|i: int| 0 <= i < d@.pages.len() ==> rotation_read(d@, #[trigger] d@.pages[i]) is Some)
            ==> r is Ok,
{
    let n = d.pages.len();
    let mut out: Vec<i64> = Vec::new();
    let mut i: usize = 0;
    while i < n
        invariant
            n == d@.pages.len(),
            i <= n,
            out@.len() == i,
            forall|j: int| 0 <= j < i ==> recorded(d@, d@.pages[j], out@[j] as int),
        decreases n - i,
    {
        deadline.checkpoint(clock)?;
        let page = d.pages[i];
        let read = declared_rotation(d, page);
        match read {
            Ok(Some(degrees)) => out.push(degrees),
            Ok(None) => out.push(0),
            Err(e) => {
                assert(d@.pages[i as int] == page as nat);
                return Err(e);
            },
        }
        i += 1;
    }
    Ok(out)
}

} // verus!
