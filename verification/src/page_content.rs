//! A page's content, element by element, as a redaction reads it before cutting.
//!
//! The elements come back beside their bodies and in the same order, because a cut is written
//! back per element and position is the only correspondence there is: two elements can be the
//! same object. An element that is not a stream is refused rather than skipped, since skipping
//! it would shift every later element's index and a cut would land in the wrong stream.
//!
//! The decoded total is held to the memory ceiling as it grows, before each element is
//! taken: the same stream may be every element of a large `/Contents`, so a small file can
//! decode to far more than it holds.
//!
//! Beside it stand the other per-page reads a redaction makes with plain numbers: the pages a
//! font cut looks at, and which `/Annots` entries are examined against the region.

use std::collections::BTreeSet;

use vstd::prelude::*;

use crate::decimal::{decimal, decimal_text};
use crate::error::{internal, invalid_argument, malformed, unsupported, Error, Result, Stage};
use crate::graph::{key_of, reads_null, target, with_stream_data, Body, Document, DocumentV, BodyV, ValueV};
use crate::limits::{Clock, Deadline, Limits};
use crate::names::{annots, contents, spec_annots, spec_contents};
use crate::narrow::DIFFERENCES_CEILING;
use crate::scope::{form_handle, lists_form, stream_target, stream_target_of, vanished_form_message};
use crate::sharing::streams_in;

verus! {

broadcast use vstd::laws_cmp::group_laws_cmp, vstd::std_specs::btree::group_btree_axioms;

/// Whether every value refers to a stream.
pub open spec fn all_streams(d: DocumentV, vs: Seq<ValueV>) -> bool {
    forall|i: int| 0 <= i < vs.len() ==> #[trigger] stream_target(d, Some(vs[i])) is Some
}

/// Page `page`'s `/Contents` elements, by object: `Some(None)` for a page with none, which is
/// blank; `None` for a `/Contents` that is neither a stream nor an array of streams.
pub open spec fn contents_elements(d: DocumentV, page: nat) -> Option<Option<Seq<nat>>> {
    let v = key_of(d, page, spec_contents());
    if reads_null(d, v) {
        Some(None)
    } else {
        match target(d, v) {
            Some(i) => match d.objects[i as int].body {
                BodyV::Stream(_, _) => Some(Some(seq![i])),
                BodyV::Array(vs) => if all_streams(d, vs) { Some(Some(streams_in(d, vs))) } else { None },
                BodyV::Dictionary(_) => None,
            },
            None => None,
        }
    }
}

/// The decoded data of stream `i`.
pub open spec fn data_of(d: DocumentV, i: nat) -> Seq<u8> {
    match d.objects[i as int].body {
        BodyV::Stream(_, data) => data,
        _ => Seq::empty(),
    }
}

/// The decoded size of the elements together.
pub open spec fn decoded_total(d: DocumentV, es: Seq<nat>) -> int
    decreases es.len(),
{
    if es.len() == 0 {
        0
    } else {
        decoded_total(d, es.drop_last()) + data_of(d, es.last()).len()
    }
}

/// The decoded size, as a running count that stops at the largest `u64` reads it.
pub open spec fn counted_total(d: DocumentV, es: Seq<nat>) -> int {
    let t = decoded_total(d, es);
    if t > u64::MAX { u64::MAX as int } else { t }
}

/// The message for contents past the memory ceiling `max`.
pub open spec fn too_large_message(max: u64) -> Seq<char> {
    "pdf redaction [contents-too-large]: a page whose /Contents decodes to more than the "@
        + decimal_text(max as nat) + " bytes this operation will hold"@
}

/// A prefix decodes to no more than the whole.
proof fn lemma_total_grows(d: DocumentV, es: Seq<nat>, k: int)
    requires
        0 <= k <= es.len(),
    ensures
        decoded_total(d, es.take(k)) <= decoded_total(d, es),
    decreases es.len(),
{
    if k < es.len() {
        assert(es.drop_last().take(k) =~= es.take(k));
        lemma_total_grows(d, es.drop_last(), k);
    } else {
        assert(es.take(k) =~= es);
    }
}

/// The refusal of a `/Contents` that is neither a stream nor an array of streams, in its two
/// wordings: an array holding something else, or a value that is neither.
pub open spec fn not_a_stream(e: Error) -> bool {
    &&& e is Malformed
    &&& e->Malformed_0@ == "pdf redaction [contents-not-a-stream]: a /Contents array holding something that is not a content stream"@ || e->Malformed_0@ == "pdf redaction [contents-not-a-stream]: a page whose /Contents is neither a stream nor an array of them"@
}

/// The streams `items` refer to, refused when one does not refer to a stream.
fn element_streams(d: &Document, items: &Vec<crate::graph::Value>) -> (r: Result<Vec<usize>>)
    ensures
        r is Ok <==> all_streams(d@, crate::graph::values_view(items@)),
        r is Ok ==> r->Ok_0@.len() == streams_in(d@, crate::graph::values_view(items@)).len()
            && forall|i: int| 0 <= i < r->Ok_0@.len() ==> r->Ok_0@[i] as nat
                == #[trigger] streams_in(d@, crate::graph::values_view(items@))[i]
                && r->Ok_0@[i] < d@.objects.len(),
        r is Err ==> not_a_stream(r->Err_0),
{
    let ghost vs = crate::graph::values_view(items@);
    let mut out: Vec<usize> = Vec::new();
    let mut k: usize = 0;
    while k < items.len()
        invariant
            vs == crate::graph::values_view(items@),
            k <= items@.len(),
            all_streams(d@, vs.take(k as int)),
            out@.len() == streams_in(d@, vs.take(k as int)).len(),
            out@.len() == k,
            forall|i: int| 0 <= i < out@.len() ==> out@[i] as nat == #[trigger] streams_in(d@, vs.take(k as int))[i]
                && out@[i] < d@.objects.len(),
        decreases items.len() - k,
    {
        let ghost t = vs.take(k + 1);
        assert(t.drop_last() =~= vs.take(k as int));
        assert(t.last() == items@[k as int]@);
        match stream_target_of(d, Some(&items[k])) {
            Some(s) => {
                out.push(s);
                proof {
                    assert forall|i: int| 0 <= i < t.len() implies #[trigger] stream_target(d@, Some(t[i])) is Some by {
                        if i < k {
                            assert(t[i] == vs.take(k as int)[i]);
                        }
                    }
                }
            },
            None => {
                proof {
                    if all_streams(d@, vs) {
                        assert(stream_target(d@, Some(vs[k as int])) is Some);
                    }
                }
                return Err(malformed(
                    "pdf redaction [contents-not-a-stream]: a /Contents array holding something that is not a content stream",
                ));
            },
        }
        k += 1;
    }
    assert(vs.take(items@.len() as int) =~= vs);
    Ok(out)
}

/// Page `page`'s content, element by element: the decoded bodies, and beside them, in the
/// same order, the element objects. `None` for a page with no `/Contents`, which is blank
/// rather than malformed. Checkpointed before each element.
///
/// # Errors
///
/// - `Malformed` naming `contents-not-a-stream` for a `/Contents` that is neither a stream nor
///   an array of streams.
/// - `Unsupported` naming `contents-too-large` once the decoded total passes
///   `max_memory_bytes`.
/// - `LimitExceeded` for `max_duration_ms`.
pub fn page_contents<C: Clock>(d: &Document, page: usize, limits: &Limits, deadline: &Deadline, clock: &C) -> (r: Result<
    Option<(Vec<Vec<u8>>, Vec<usize>)>,
>)
    ensures
        match contents_elements(d@, page as nat) {
            None => r is Err && not_a_stream(r->Err_0),
            Some(None) => r is Ok && r->Ok_0 is None,
            Some(Some(es)) => {
                &&& r is Ok ==> r->Ok_0 is Some && counted_total(d@, es) <= limits.max_memory_bytes && {
                    let (bodies, elements) = r->Ok_0->0;
                    &&& elements@.len() == es.len() && bodies@.len() == es.len()
                    &&& forall|i: int| 0 <= i < es.len() ==> #[trigger] elements@[i] as nat == es[i]
                        && bodies@[i]@ == data_of(d@, es[i])
                }
                &&& r is Err ==> (r->Err_0 is LimitExceeded && r->Err_0->stage == Stage::Duration
                    && r->Err_0->allowed == deadline.budget && r->Err_0->requested > deadline.budget) || (r->Err_0 is Unsupported
                    && counted_total(d@, es) > limits.max_memory_bytes
                    && r->Err_0->Unsupported_0@ == too_large_message(limits.max_memory_bytes))
                &&& deadline.holds_for(clock) && counted_total(d@, es) <= limits.max_memory_bytes ==> r is Ok
            },
        },
{
    let ck = contents();
    let v = d.get(page, &ck);
    if d.reads_null(v) {
        return Ok(None);
    }
    let elements: Vec<usize> = match d.target(v) {
        Some(i) => match &d.objects[i].body {
            Body::Stream(_, _) => {
                let mut one: Vec<usize> = Vec::new();
                one.push(i);
                one
            },
            Body::Array(items) => element_streams(d, items)?,
            Body::Dictionary(_) => {
                return Err(malformed(
                    "pdf redaction [contents-not-a-stream]: a page whose /Contents is neither a stream nor an array of them",
                ));
            },
        },
        None => {
            return Err(malformed(
                "pdf redaction [contents-not-a-stream]: a page whose /Contents is neither a stream nor an array of them",
            ));
        },
    };
    let ghost es = contents_elements(d@, page as nat)->0->0;
    assert(contents_elements(d@, page as nat) == Some(Some(es)));
    assert(elements@.len() == es.len());
    assert(forall|i: int| 0 <= i < es.len() ==> #[trigger] elements@[i] as nat == es[i] && elements@[i] < d@.objects.len());
    let mut bodies: Vec<Vec<u8>> = Vec::new();
    let mut decoded: u64 = 0;
    let mut k: usize = 0;
    while k < elements.len()
        invariant
            contents_elements(d@, page as nat) == Some(Some(es)),
            elements@.len() == es.len(),
            forall|i: int| 0 <= i < es.len() ==> #[trigger] elements@[i] as nat == es[i] && elements@[i] < d@.objects.len(),
            k <= elements@.len(),
            bodies@.len() == k,
            forall|i: int| 0 <= i < k ==> #[trigger] bodies@[i]@ == data_of(d@, es[i]),
            decoded == counted_total(d@, es.take(k as int)),
            decoded <= limits.max_memory_bytes,
        decreases elements.len() - k,
    {
        deadline.checkpoint(clock)?;
        let at = elements[k];
        assert(at as nat == es[k as int]);
        let body: Vec<u8> = match &d.objects[at].body {
            Body::Stream(_, data) => data.clone(),
            _ => Vec::new(),
        };
        assert(body@ =~= data_of(d@, es[k as int]));
        assert(es.take(k + 1).drop_last() =~= es.take(k as int));
        assert(es.take(k + 1).last() == es[k as int]);
        assert(decoded_total(d@, es.take(k + 1)) == decoded_total(d@, es.take(k as int)) + body@.len());
        let size = body.len() as u64;
        let next = decoded.saturating_add(size);
        if next > limits.max_memory_bytes {
            proof {
                lemma_total_grows(d@, es, k + 1);
            }
            let mut message = "pdf redaction [contents-too-large]: a page whose /Contents decodes to more than the ".to_owned();
            message.append(decimal(limits.max_memory_bytes).as_str());
            message.append(" bytes this operation will hold");
            return Err(Error::Unsupported(message));
        }
        decoded = next;
        bodies.push(body);
        k += 1;
    }
    assert(es.take(es.len() as int) =~= es);
    Ok(Some((bodies, elements)))
}

/// `d` with each of `elements`, in order, given the matching part: where an element repeats,
/// the later part is the one it keeps.
pub open spec fn written_back(d: DocumentV, elements: Seq<nat>, parts: Seq<Seq<u8>>) -> DocumentV
    decreases elements.len(),
{
    if elements.len() == 0 || parts.len() == 0 {
        d
    } else {
        with_stream_data(written_back(d, elements.drop_last(), parts.drop_last()), elements.last(), parts.last())
    }
}

/// Writing a cut back changes streams' data and nothing else: every other object, the page
/// dictionary and its `/Contents` array among them, is left as it was, and every stream stays
/// a stream.
pub proof fn lemma_write_back_touches_only_streams(d: DocumentV, elements: Seq<nat>, parts: Seq<Seq<u8>>)
    requires
        forall|i: int| 0 <= i < elements.len() ==> #[trigger] elements[i] < d.objects.len(),
    ensures
        written_back(d, elements, parts).objects.len() == d.objects.len(),
        written_back(d, elements, parts).pages == d.pages,
        written_back(d, elements, parts).root == d.root,
        forall|n: int| 0 <= n < d.objects.len() && !(d.objects[n].body is Stream)
            ==> #[trigger] written_back(d, elements, parts).objects[n] == d.objects[n],
        forall|n: int| 0 <= n < d.objects.len() && d.objects[n].body is Stream
            ==> (#[trigger] written_back(d, elements, parts).objects[n]).body is Stream,
    decreases elements.len(),
{
    if elements.len() > 0 && parts.len() > 0 {
        let rest = elements.drop_last();
        assert forall|i: int| 0 <= i < rest.len() implies #[trigger] rest[i] < d.objects.len() by {
            assert(rest[i] == elements[i]);
        }
        lemma_write_back_touches_only_streams(d, rest, parts.drop_last());
        assert(elements.last() == elements[elements.len() - 1]);
    }
}

/// The message for an `/Annots` array longer than a redaction examines.
pub open spec fn annots_too_long_message() -> Seq<char> {
    "pdf redaction [annots-too-long]: an /Annots array longer than burrow will examine"@
}

/// What page object `page`'s `/Annots` holds, when it is an array.
pub open spec fn annots_array(d: DocumentV, page: nat) -> Option<Seq<ValueV>> {
    match target(d, key_of(d, page, spec_annots())) {
        Some(a) => match d.objects[a as int].body {
            BodyV::Array(vs) => Some(vs),
            _ => None,
        },
        None => None,
    }
}

/// Entry `i` of `vs` is an annotation dictionary.
pub open spec fn is_annotation(d: DocumentV, vs: Seq<ValueV>, i: int) -> bool {
    target(d, Some(vs[i])) matches Some(k) && d.objects[k as int].body is Dictionary
}

/// The positions in page object `page`'s `/Annots` of the annotation dictionaries a
/// redaction examines against its region, from the last to the first so that erasing one
/// never moves those still to come; none when `/Annots` is not an array. Entries that are not
/// dictionaries are passed over. Where each one's `/Rect` lies is read in floating point,
/// which this library does not hold.
///
/// # Errors
///
/// `Unsupported` for an array longer than [`DIFFERENCES_CEILING`].
pub fn annotations_to_examine(d: &Document, page: usize) -> (r: Result<Vec<usize>>)
    ensures
        annots_array(d@, page as nat) is None ==> r is Ok && r->Ok_0@.len() == 0,
        annots_array(d@, page as nat) matches Some(vs) ==> (r is Err <==> vs.len() > DIFFERENCES_CEILING),
        r is Err ==> r->Err_0 is Unsupported && r->Err_0->Unsupported_0@ == annots_too_long_message(),
        r is Ok ==> forall|x: usize| #[trigger] r->Ok_0@.contains(x) <==> (annots_array(d@, page as nat) matches Some(vs)
            && x < vs.len() && is_annotation(d@, vs, x as int)),
        r is Ok ==> forall|a: int, b: int| 0 <= a < b < r->Ok_0@.len() ==> r->Ok_0@[a] > r->Ok_0@[b],
{
    let ak = annots();
    let items = match d.target(d.get(page, &ak)) {
        Some(a) => match &d.objects[a].body {
            Body::Array(vs) => vs,
            _ => {
                return Ok(Vec::new());
            },
        },
        None => {
            return Ok(Vec::new());
        },
    };
    let ghost vs = crate::graph::values_view(items@);
    assert(annots_array(d@, page as nat) == Some(vs));
    if items.len() > DIFFERENCES_CEILING {
        return Err(unsupported("pdf redaction [annots-too-long]: an /Annots array longer than burrow will examine"));
    }
    let mut out: Vec<usize> = Vec::new();
    let mut at: usize = items.len();
    while at > 0
        invariant
            at <= items@.len(),
            vs == crate::graph::values_view(items@),
            vs.len() == items@.len(),
            forall|x: usize| #[trigger] out@.contains(x) <==> (at <= x < vs.len() && is_annotation(d@, vs, x as int)),
            forall|a: int, b: int| 0 <= a < b < out@.len() ==> out@[a] > out@[b],
            forall|a: int| 0 <= a < out@.len() ==> out@[a] >= at,
        decreases at,
    {
        at -= 1;
        assert(vs[at as int] == items@[at as int]@);
        let found = match d.target(Some(&items[at])) {
            Some(k) => match &d.objects[k].body {
                Body::Dictionary(_) => true,
                _ => false,
            },
            None => false,
        };
        let ghost prior = out@;
        if found {
            out.push(at);
        }
        proof {
            assert forall|x: usize| #[trigger] out@.contains(x) <==> (at <= x < vs.len() && is_annotation(d@, vs, x as int)) by {
                if prior.contains(x) {
                    let k = choose|k: int| 0 <= k < prior.len() && prior[k] == x;
                    assert(out@[k] == x);
                }
                if out@.contains(x) && x != at {
                    let k = choose|k: int| 0 <= k < out@.len() && out@[k] == x;
                    assert(k < prior.len());
                    assert(prior[k] == x);
                }
                if x == at && found {
                    assert(out@[prior.len() as int] == x);
                }
                if x == at && !found && out@.contains(x) {
                    let k = choose|k: int| 0 <= k < out@.len() && out@[k] == x;
                    assert(prior[k] >= at + 1);
                }
            }
        }
    }
    Ok(out)
}

/// The message for a redaction that covers a page past the end.
pub open spec fn page_out_of_range_message() -> Seq<char> {
    "pdf redaction [page-out-of-range]: the operation covers a page the document does not have"@
}

/// The pages a font cut must look at: those the caller redacts and the page being edited,
/// which is always among them, in increasing order and each once.
///
/// # Errors
///
/// `InvalidArgument` when any of them is past the end of the document: a page skipped
/// silently would be a page whose codes count as no longer drawn.
pub fn pages_in_scope(d: &Document, page: usize, redacted: &BTreeSet<usize>) -> (r: Result<Vec<usize>>)
    ensures
        r is Ok <==> page < d@.pages.len() && forall|p: usize| #[trigger] redacted@.contains(p) ==> p < d@.pages.len(),
        r is Err ==> r->Err_0 is InvalidArgument && r->Err_0->InvalidArgument_0@ == page_out_of_range_message(),
        r is Ok ==> forall|p: usize| #[trigger] r->Ok_0@.contains(p) <==> p == page || redacted@.contains(p),
        r is Ok ==> forall|a: int, b: int| 0 <= a < b < r->Ok_0@.len() ==> r->Ok_0@[a] < r->Ok_0@[b],
{
    let count = d.pages.len();
    if page >= count {
        return Err(invalid_argument("pdf redaction [page-out-of-range]: the operation covers a page the document does not have"));
    }
    for x in it: redacted.iter()
        invariant
            count == d@.pages.len(),
            it.seq().unref().to_set() == redacted@,
            forall|i: int| 0 <= i < it.index() ==> *it.seq()[i] < count,
        ensures
            forall|p: usize| #[trigger] redacted@.contains(p) ==> p < count,
    {
        if *x >= count {
            proof {
                assert(it.seq().unref().to_set() == redacted@);
                assert(it.seq().unref()[it.index() as int] == *x);
                assert(it.seq().unref().to_set().contains(*x));
            }
            return Err(invalid_argument("pdf redaction [page-out-of-range]: the operation covers a page the document does not have"));
        }
    }
    let mut pages: Vec<usize> = Vec::new();
    let mut p: usize = 0;
    while p < count
        invariant
            p <= count,
            page < count,
            forall|q: usize| #[trigger] pages@.contains(q) <==> q < p && (q == page || redacted@.contains(q)),
            forall|a: int, b: int| 0 <= a < b < pages@.len() ==> pages@[a] < pages@[b],
            forall|a: int| 0 <= a < pages@.len() ==> pages@[a] < p,
        decreases count - p,
    {
        if p == page || redacted.contains(&p) {
            let ghost prior = pages@;
            pages.push(p);
            proof {
                assert forall|q: usize| #[trigger] pages@.contains(q) <==> q < p + 1 && (q == page || redacted@.contains(q)) by {
                    if q < p && prior.contains(q) {
                        let k = choose|k: int| 0 <= k < prior.len() && prior[k] == q;
                        assert(pages@[k] == q);
                    }
                    if pages@.contains(q) && q != p {
                        let k = choose|k: int| 0 <= k < pages@.len() && pages@[k] == q;
                        assert(k < prior.len());
                        assert(prior[k] == q);
                    }
                    if q == p {
                        assert(pages@[prior.len() as int] == p);
                    }
                }
            }
        }
        p += 1;
    }
    Ok(pages)
}

/// The message for a page stream to rewrite on a page with no `/Contents`.
pub open spec fn no_page_stream_message() -> Seq<char> {
    "pdf redaction: a page stream to rewrite on a page with no /Contents"@
}

/// The page's own content, read to rewrite its page stream: what [`page_contents`] reads, for
/// a page that has content.
///
/// # Errors
///
/// - `Internal` for a page with no `/Contents`: the stream lookup never names the page stream
///   of such a page, so being asked to rewrite it is a fault of this library, not the file.
/// - Otherwise as [`page_contents`].
pub fn page_stream_for_rewrite<C: Clock>(d: &Document, page: usize, limits: &Limits, deadline: &Deadline, clock: &C) -> (r: Result<
    (Vec<Vec<u8>>, Vec<usize>),
>)
    ensures
        match contents_elements(d@, page as nat) {
            None => r is Err && not_a_stream(r->Err_0),
            Some(None) => r is Err && r->Err_0 is Internal && r->Err_0->Internal_0@ == no_page_stream_message(),
            Some(Some(es)) => {
                &&& r is Ok ==> counted_total(d@, es) <= limits.max_memory_bytes && {
                    let (bodies, elements) = r->Ok_0;
                    &&& elements@.len() == es.len() && bodies@.len() == es.len()
                    &&& forall|i: int| 0 <= i < es.len() ==> #[trigger] elements@[i] as nat == es[i]
                        && bodies@[i]@ == data_of(d@, es[i])
                }
                &&& r is Err ==> (r->Err_0 is LimitExceeded && r->Err_0->stage == Stage::Duration
                    && r->Err_0->allowed == deadline.budget && r->Err_0->requested > deadline.budget) || (r->Err_0 is Unsupported
                    && counted_total(d@, es) > limits.max_memory_bytes
                    && r->Err_0->Unsupported_0@ == too_large_message(limits.max_memory_bytes))
                &&& deadline.holds_for(clock) && counted_total(d@, es) <= limits.max_memory_bytes ==> r is Ok
            },
        },
{
    match page_contents(d, page, limits, deadline, clock) {
        Ok(Some(found)) => Ok(found),
        Ok(None) => Err(internal("pdf redaction: a page stream to rewrite on a page with no /Contents")),
        Err(e) => Err(e),
    }
}

/// The message for a cut that came back in a different number of parts than the page has
/// elements.
pub open spec fn part_count_message() -> Seq<char> {
    "pdf redaction: the splice returned a different number of streams than the page has elements"@
}

/// Write a cut page's content back element by element: part `i` becomes the data of element
/// `i`, stored without a filter. An array `/Contents` stays an array of the same objects.
///
/// # Errors
///
/// `Internal` when there are not as many parts as elements, before anything is written.
pub fn write_back_contents(d: &mut Document, elements: &[usize], parts: Vec<Vec<u8>>) -> (r: Result<()>)
    requires
        forall|i: int| 0 <= i < elements@.len() ==> #[trigger] elements@[i] < old(d)@.objects.len(),
    ensures
        r is Ok <==> parts@.len() == elements@.len(),
        r is Ok ==> final(d)@ == written_back(
            old(d)@,
            elements@.map_values(|e: usize| e as nat),
            parts@.map_values(|p: Vec<u8>| p@),
        ),
        r is Err ==> r->Err_0 is Internal && r->Err_0->Internal_0@ == part_count_message() && final(d)@ == old(d)@,
{
    if parts.len() != elements.len() {
        return Err(internal("pdf redaction: the splice returned a different number of streams than the page has elements"));
    }
    let ghost d0 = d@;
    let ghost es = elements@.map_values(|e: usize| e as nat);
    let ghost ps = parts@.map_values(|p: Vec<u8>| p@);
    let mut k: usize = 0;
    while k < elements.len()
        invariant
            d0 == old(d)@,
            es == elements@.map_values(|e: usize| e as nat),
            ps == parts@.map_values(|p: Vec<u8>| p@),
            parts@.len() == elements@.len(),
            forall|i: int| 0 <= i < elements@.len() ==> #[trigger] elements@[i] < d0.objects.len(),
            k <= elements@.len(),
            d@.objects.len() == d0.objects.len(),
            d@ == written_back(d0, es.take(k as int), ps.take(k as int)),
        decreases elements.len() - k,
    {
        assert(es.take(k + 1).drop_last() =~= es.take(k as int));
        assert(ps.take(k + 1).drop_last() =~= ps.take(k as int));
        assert(es.take(k + 1).last() == elements@[k as int] as nat);
        assert(ps.take(k + 1).last() == parts@[k as int]@);
        d.replace_stream_data(elements[k], parts[k].clone());
        assert(d@.objects.len() == d0.objects.len());
        k += 1;
    }
    assert(es.take(elements@.len() as int) =~= es);
    assert(ps.take(elements@.len() as int) =~= ps);
    Ok(())
}

/// Write a cut form back: `edited` becomes the data of the form `resources_at` lists with
/// identity `id`, stored without a filter.
///
/// # Errors
///
/// `Malformed` naming `form-vanished` when the page's resources do not list the form; nothing
/// is written then.
pub fn write_back_form(d: &mut Document, resources_at: usize, id: usize, edited: Vec<u8>) -> (r: Result<()>)
    ensures
        r is Ok <==> lists_form(old(d)@, resources_at as nat, id as nat),
        r is Ok ==> final(d)@ == with_stream_data(old(d)@, id as nat, edited@),
        r is Err ==> r->Err_0 is Malformed && r->Err_0->Malformed_0@ == vanished_form_message() && final(d)@ == old(d)@,
{
    let target = form_handle(d, resources_at, id)?;
    d.replace_stream_data(target, edited);
    Ok(())
}

} // verus!
