//! What a region reaches, and the rule a redaction applies before it edits a page's own
//! content: the edit lands in one `/Contents` element, and an element something else also
//! references is refused.
//!
//! Two pages pointing at one content stream is legal and ordinary, and editing it removes the
//! text from both. So is `/Contents [5 0 R 5 0 R]`: one page drawing one stream twice, where
//! an edit written back applies at both positions. The rule counts references, by any route,
//! to the element the cut actually lands in: a page whose shared element is a letterhead the
//! region never reaches is still served.

use vstd::prelude::*;

use crate::decimal::{decimal, decimal_text};
use crate::error::{internal, Error, Result};
use crate::redact::StreamId;
use crate::sharing::FormUseCounts;

verus! {

/// One glyph the region reaches, as this rule reads it.
#[derive(Debug, Clone, Copy, PartialEq, Eq, Structural)]
pub struct CutGlyph {
    /// The Form XObject that drew it, by object identity; none for the page's own content.
    /// The form rule covers glyphs a form drew.
    pub form: Option<u64>,
    /// The index of the `/Contents` element its operation lies in, when it lies in one.
    pub element: Option<usize>,
}

/// Why a glyph stops the edit.
pub enum Obstacle {
    /// Its operation lies in no `/Contents` element.
    Unplaced,
    /// It lies in an element the page does not have.
    NoSuchElement,
    /// It lies in an element referenced more than once.
    Shared,
}

/// What stops an edit at glyph `g`, if anything: `elements` are the page's `/Contents`
/// elements, by object.
pub open spec fn obstacle(g: CutGlyph, elements: Seq<usize>, sharing: FormUseCounts) -> Option<Obstacle> {
    if g.form is Some {
        None
    } else {
        match g.element {
            None => Some(Obstacle::Unplaced),
            Some(at) => if at >= elements.len() {
                Some(Obstacle::NoSuchElement)
            } else if sharing.references_to(elements[at as int]) > 1 {
                Some(Obstacle::Shared)
            } else {
                None
            },
        }
    }
}

/// The message for a glyph whose operation lies in no element.
pub open spec fn unplaced_message() -> Seq<char> {
    "pdf redaction [contents-offset]: a glyph whose operation is not inside any /Contents element"@
}

/// The message for an element index the page does not have.
pub open spec fn no_such_element_message() -> Seq<char> {
    "pdf redaction [contents-offset]: an element index the page does not have"@
}

/// The message for an element referenced `references` times, from `elsewhere` other pages.
pub open spec fn shared_message(references: nat, elsewhere: nat) -> Seq<char> {
    "pdf redaction [shared-contents]: the region reaches a content stream this document references "@
        + decimal_text(references) + " times, across "@ + decimal_text(elsewhere)
        + " other page(s); editing it would remove text from a page that was not selected"@
}

/// Whether `e` is the refusal glyph `g` meets on page `page`.
pub open spec fn refusal(g: CutGlyph, elements: Seq<usize>, sharing: FormUseCounts, page: usize, e: Error) -> bool {
    match obstacle(g, elements, sharing) {
        Some(Obstacle::Unplaced) => e is Internal && e->Internal_0@ == unplaced_message(),
        Some(Obstacle::NoSuchElement) => e is Internal && e->Internal_0@ == no_such_element_message(),
        Some(Obstacle::Shared) => {
            let object = elements[g.element->0 as int];
            e is Malformed && e->Malformed_0@ == shared_message(
                sharing.references_to(object) as nat,
                sharing.others_referencing(object, page),
            )
        },
        None => false,
    }
}

/// Refuse when the region reaches a `/Contents` element that something else also references.
///
/// `cut` is what the region reaches, in the walk's order; `elements` is the page's
/// `/Contents`, by object; `sharing` is the document's reference counts, taken before any
/// edit. The first glyph that meets an obstacle decides the refusal.
///
/// # Errors
///
/// - `Malformed` naming `shared-contents`, with the reference count and the number of other
///   pages, for an element referenced more than once.
/// - `Internal` naming `contents-offset` for a glyph that lies in no element, or in one the
///   page does not have: this library disagreeing with itself rather than the document being
///   unusual.
pub fn check_contents_sharing(cut: &[CutGlyph], elements: &[usize], sharing: &FormUseCounts, page: usize) -> (r: Result<()>)
    requires
        sharing.wf(),
    ensures
        r is Ok <==> forall|i: int| 0 <= i < cut@.len() ==> obstacle(#[trigger] cut@[i], elements@, *sharing) is None,
        r is Err ==> exists|i: int| 0 <= i < cut@.len()
            && (forall|j: int| 0 <= j < i ==> obstacle(#[trigger] cut@[j], elements@, *sharing) is None)
            && refusal(cut@[i], elements@, *sharing, page, r->Err_0),
{
    let mut i: usize = 0;
    while i < cut.len()
        invariant
            sharing.wf(),
            i <= cut@.len(),
            forall|j: int| 0 <= j < i ==> obstacle(#[trigger] cut@[j], elements@, *sharing) is None,
        decreases cut.len() - i,
    {
        let glyph = cut[i];
        if glyph.form.is_none() {
            match glyph.element {
                None => {
                    return Err(internal(
                        "pdf redaction [contents-offset]: a glyph whose operation is not inside any /Contents element",
                    ));
                },
                Some(at) => {
                    if at >= elements.len() {
                        return Err(internal(
                            "pdf redaction [contents-offset]: an element index the page does not have",
                        ));
                    }
                    let object = elements[at];
                    let references = sharing.total_references(object);
                    if references > 1 {
                        let elsewhere = sharing.content_pages_besides(object, page);
                        let mut message =
                            "pdf redaction [shared-contents]: the region reaches a content stream this document references "
                                .to_owned();
                        message.append(decimal(references as u64).as_str());
                        message.append(" times, across ");
                        message.append(decimal(elsewhere as u64).as_str());
                        message.append(
                            " other page(s); editing it would remove text from a page that was not selected",
                        );
                        return Err(Error::Malformed(message));
                    }
                },
            }
        }
        i += 1;
    }
    Ok(())
}

/// The stream glyph `g` lies in.
pub open spec fn stream_of(g: CutGlyph) -> StreamId {
    match g.form {
        Some(id) => StreamId::Object(id),
        None => StreamId::Page,
    }
}

/// Where a stream sorts: the page's own content first, then forms by identity.
pub open spec fn stream_rank(s: StreamId) -> int {
    match s {
        StreamId::Page => -1,
        StreamId::Object(id) => id as int,
    }
}

/// Whether `a` sorts before `b`.
fn rank_below(a: StreamId, b: StreamId) -> (r: bool)
    ensures
        r == (stream_rank(a) < stream_rank(b)),
{
    match (a, b) {
        (StreamId::Page, StreamId::Page) => false,
        (StreamId::Page, StreamId::Object(_)) => true,
        (StreamId::Object(_), StreamId::Page) => false,
        (StreamId::Object(x), StreamId::Object(y)) => x < y,
    }
}

/// Every stream the region reaches, each once, the page's own content first and then the
/// forms in order of identity: the streams a redaction rewrites.
pub fn streams_reached(cut: &[CutGlyph]) -> (r: Vec<StreamId>)
    ensures
        forall|i: int, j: int| 0 <= i < j < r@.len() ==> stream_rank(r@[i]) < stream_rank(r@[j]),
        forall|s: StreamId| #[trigger] r@.contains(s) <==> exists|i: int| 0 <= i < cut@.len() && stream_of(#[trigger] cut@[i]) == s,
{
    let mut out: Vec<StreamId> = Vec::new();
    let mut k: usize = 0;
    while k < cut.len()
        invariant
            k <= cut@.len(),
            forall|i: int, j: int| 0 <= i < j < out@.len() ==> stream_rank(out@[i]) < stream_rank(out@[j]),
            forall|s: StreamId| #[trigger] out@.contains(s) <==> exists|i: int| 0 <= i < k && stream_of(#[trigger] cut@[i]) == s,
        decreases cut.len() - k,
    {
        let s = match cut[k].form {
            Some(id) => StreamId::Object(id),
            None => StreamId::Page,
        };
        assert(s == stream_of(cut@[k as int]));
        let mut at: usize = 0;
        while at < out.len() && rank_below(out[at], s)
            invariant
                at <= out@.len(),
                forall|i: int| 0 <= i < at ==> stream_rank(#[trigger] out@[i]) < stream_rank(s),
            decreases out.len() - at,
        {
            at += 1;
        }
        let ghost before = out@;
        let present = at < out.len() && !rank_below(s, out[at]);
        if !present {
            out.insert(at, s);
            proof {
                assert forall|i: int, j: int| 0 <= i < j < out@.len() implies stream_rank(out@[i]) < stream_rank(out@[j]) by {
                    if j < at {
                    } else if i < at && j == at {
                    } else if i < at {
                        assert(out@[j] == before[j - 1]);
                    } else if i == at {
                        assert(out@[j] == before[j - 1]);
                    } else {
                        assert(out@[i] == before[i - 1] && out@[j] == before[j - 1]);
                    }
                }
            }
        }
        proof {
            assert forall|t: StreamId| #[trigger] out@.contains(t) <==> exists|i: int| 0 <= i < k + 1 && stream_of(#[trigger] cut@[i]) == t by {
                if t == s {
                    if present {
                        assert(stream_rank(before[at as int]) == stream_rank(s));
                        assert(before[at as int] == s) by {
                            match before[at as int] {
                                StreamId::Page => {},
                                StreamId::Object(_) => {},
                            }
                            match s {
                                StreamId::Page => {},
                                StreamId::Object(_) => {},
                            }
                        }
                        assert(out@[at as int] == t);
                    } else {
                        assert(out@[at as int] == t);
                    }
                    assert(stream_of(cut@[k as int]) == t);
                } else {
                    if out@.contains(t) {
                        let m = choose|m: int| 0 <= m < out@.len() && out@[m] == t;
                        if !present {
                            if m < at {
                                assert(before[m] == t);
                            } else {
                                assert(before[m - 1] == t);
                            }
                        }
                        assert(before.contains(t));
                    }
                    if exists|i: int| 0 <= i < k && stream_of(#[trigger] cut@[i]) == t {
                        assert(before.contains(t));
                        let m = choose|m: int| 0 <= m < before.len() && before[m] == t;
                        if !present {
                            if m < at {
                                assert(out@[m] == t);
                            } else {
                                assert(out@[m + 1] == t);
                            }
                        }
                    }
                }
            }
        }
        k += 1;
    }
    out
}

} // verus!
