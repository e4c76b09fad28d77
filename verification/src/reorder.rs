//! Reordering pages in place.
//!
//! Pages are moved one at a time, so at least one page is in the tree throughout: for each
//! target position in turn, the page that belongs there is taken out of wherever it is and
//! put back immediately before the page now occupying that position. Pages already in place
//! are left alone, so the identity moves nothing and leaves the page tree as it was.
//!
//! Any move flattens the page tree first, pushing every inherited attribute down onto the
//! pages, so what each page displays survives the reordering.

use vstd::prelude::*;

use crate::engine::{open_document, opens, rotations_of};
use crate::decimal::{decimal, decimal_text};
use crate::error::{internal, Error, Result, Stage};
use crate::flatten::{flatten, is_inheritable};
use crate::graph::{wf, Document, DocumentV, ValueV};
use crate::inherit::{inherited, Inherited};
use crate::limits::{Clock, Deadline, Limits};
use crate::permutation::{is_permutation, Permutation};

verus! {

/// `after`'s pages are `before`'s, in the order `order` gives.
pub open spec fn reordered(before: DocumentV, after: DocumentV, order: Seq<u64>) -> bool {
    &&& after.pages.len() == before.pages.len()
    &&& forall|i: int| 0 <= i < order.len() ==> #[trigger] after.pages[i] == before.pages[order[i] as int]
}

/// Every inheritable attribute every page could read before, it reads after.
pub open spec fn keeps_what_pages_display(before: DocumentV, after: DocumentV) -> bool {
    forall|p: nat, key: Seq<u8>| #![trigger inherited(after, p, key)]
        before.pages.contains(p) && is_inheritable(key) && !(inherited(before, p, key) is Broken)
        ==> inherited(after, p, key) == inherited(before, p, key)
}

/// Whether no element of `s` appears twice.
pub open spec fn distinct(s: Seq<nat>) -> bool {
    forall|a: int, b: int| 0 <= a < s.len() && 0 <= b < s.len() && a != b ==> #[trigger] s[a] != #[trigger] s[b]
}

/// Taking the element at `at` out and putting it back at `target`, before it: the same
/// elements, still distinct, the prefix before `target` untouched.
proof fn lemma_move(s: Seq<nat>, at: int, target: int)
    requires
        0 <= target < at < s.len(),
    ensures
        ({
            let t = s.remove(at).insert(target, s[at]);
            &&& t.len() == s.len()
            &&& forall|x: nat| t.contains(x) <==> s.contains(x)
            &&& distinct(s) ==> distinct(t)
            &&& forall|j: int| 0 <= j < target ==> t[j] == s[j]
            &&& t[target] == s[at]
        }),
{
    let t = s.remove(at).insert(target, s[at]);
    assert(t.len() == s.len());
    assert forall|j: int| 0 <= j < t.len() implies t[j] == s[if j < target { j } else if j == target { at } else if j <= at { j - 1 } else { j }] by {
    }
    assert forall|x: nat| t.contains(x) <==> s.contains(x) by {
        if s.contains(x) {
            let j = choose|j: int| 0 <= j < s.len() && s[j] == x;
            if j < target {
                assert(t[j] == x);
            } else if j < at {
                assert(t[j + 1] == x);
            } else if j == at {
                assert(t[target] == x);
            } else {
                assert(t[j] == x);
            }
        }
        if t.contains(x) {
            let j = choose|j: int| 0 <= j < t.len() && t[j] == x;
        }
    }
    if distinct(s) {
        assert forall|a: int, b: int| 0 <= a < t.len() && 0 <= b < t.len() && a != b implies #[trigger] t[a] != #[trigger] t[b] by {
            let fa = if a < target { a } else if a == target { at } else if a <= at { a - 1 } else { a };
            let fb = if b < target { b } else if b == target { at } else if b <= at { b - 1 } else { b };
            assert(t[a] == s[fa]);
            assert(t[b] == s[fb]);
        }
    }
}

/// A well-formed document whose page list is rearranged, with nothing lost, added or
/// repeated, is still well formed.
proof fn lemma_wf_same_pages(a: DocumentV, b: DocumentV)
    requires
        wf(a),
        a.objects == b.objects,
        a.root == b.root,
        forall|x: nat| b.pages.contains(x) <==> a.pages.contains(x),
        distinct(b.pages),
    ensures
        wf(b),
{
    assert forall|i: int| 0 <= i < b.pages.len() implies #[trigger] b.pages[i] < b.objects.len()
        && crate::graph::is_dictionary(b.objects[b.pages[i] as int]) && b.pages[i] != b.root by {
        assert(b.pages.contains(b.pages[i]));
        let j = choose|j: int| 0 <= j < a.pages.len() && a.pages[j] == b.pages[i];
    }
}

/// Where `page` is in `pages`.
fn position_of(pages: &Vec<usize>, page: usize) -> (r: usize)
    requires
        pages@.contains(page),
    ensures
        r < pages@.len(),
        pages@[r as int] == page,
{
    let mut i: usize = 0;
    while i < pages.len()
        invariant
            i <= pages@.len(),
            pages@.contains(page),
            forall|j: int| 0 <= j < i ==> pages@[j] != page,
        decreases pages.len() - i,
    {
        if pages[i] == page {
            return i;
        }
        i += 1;
    }
    assert(false);
    0
}

/// Move every page to the position `order` gives it, flattening the tree on the first move.
fn permute<C: Clock>(d: &mut Document, order: &Permutation, deadline: &Deadline, clock: &C) -> (r: Result<()>)
    requires
        wf(old(d)@),
        order@.len() == old(d)@.pages.len(),
    ensures
        wf(final(d)@),
        final(d)@.root == old(d)@.root,
        final(d)@.pages.len() == old(d)@.pages.len(),
        crate::flatten::tree_attributes_only(old(d)@, final(d)@),
        r is Ok ==> reordered(old(d)@, final(d)@, order@),
        r is Ok ==> keeps_what_pages_display(old(d)@, final(d)@),
        r is Ok && (forall|i: int| 0 <= i < order@.len() ==> order@[i] == i) ==> final(d)@ == old(d)@,
        r is Err ==> r->Err_0 is LimitExceeded && r->Err_0->stage == Stage::Duration
            && r->Err_0->allowed == deadline.budget,
        deadline.holds_for(clock) ==> r is Ok,
{
    let ghost before = d@;
    let ord = order.order();
    let n = d.pages.len();
    let mut originals: Vec<usize> = Vec::new();
    let mut k: usize = 0;
    while k < n
        invariant
            before == old(d)@,
            wf(before),
            n == before.pages.len(),
            d@ == before,
            k <= n,
            originals@.len() == k,
            forall|j: int| 0 <= j < k ==> originals@[j] as nat == before.pages[j],
        decreases n - k,
    {
        deadline.checkpoint(clock)?;
        originals.push(d.pages[k]);
        k += 1;
    }
    let mut flattened = false;
    let mut target: usize = 0;
    while target < n
        invariant
            before == old(d)@,
            n == before.pages.len(),
            n == ord@.len(),
            ord@ == order@,
            is_permutation(ord@),
            wf(before),
            wf(d@),
            originals@.len() == n,
            forall|j: int| 0 <= j < n ==> originals@[j] as nat == before.pages[j],
            target <= n,
            d@.pages.len() == n,
            d@.root == before.root,
            forall|j: int| 0 <= j < target ==> #[trigger] d@.pages[j] == before.pages[ord@[j] as int],
            forall|x: nat| d@.pages.contains(x) <==> before.pages.contains(x),
            !flattened ==> d@ == before,
            flattened ==> keeps_what_pages_display(before, d@),
            crate::flatten::tree_attributes_only(before, d@),
            (forall|i: int| 0 <= i < n ==> ord@[i] == i) ==> !flattened,
        decreases n - target,
    {
        deadline.checkpoint(clock)?;
        let wanted = originals[ord[target] as usize];
        assert(wanted as nat == before.pages[ord@[target as int] as int]);
        let current = d.pages[target];
        if current == wanted {
            assert(d@.pages[target as int] == wanted as nat);
            target += 1;
            continue;
        }
        if !flattened {
            flatten(d);
            flattened = true;
        }
        let ghost pre = d@;
        assert(d.pages@.contains(wanted)) by {
            assert(before.pages.contains(wanted as nat));
            assert(d@.pages.contains(wanted as nat));
            let j = choose|j: int| 0 <= j < d@.pages.len() && d@.pages[j] == wanted as nat;
            assert(d.pages@[j] == wanted);
        }
        let at = position_of(&d.pages, wanted);
        assert(at >= target) by {
            if at < target {
                assert(d@.pages[at as int] == before.pages[ord@[at as int] as int]);
                assert(ord@[at as int] != ord@[target as int]);
            }
        }
        assert(at != target) by {
            assert(d.pages@[target as int] == current);
        }
        let removed = d.pages.remove(at);
        d.pages.insert(target, removed);
        proof {
            lemma_move(pre.pages, at as int, target as int);
            assert(d@.pages =~= pre.pages.remove(at as int).insert(target as int, pre.pages[at as int]));
            assert(d@.objects == pre.objects);
            assert(crate::flatten::tree_attributes_only(before, d@)) by {
                assert forall|m: nat, k: Seq<u8>| #[trigger] crate::graph::key_of(d@, m, k) == crate::graph::key_of(pre, m, k) by {}
            }
            lemma_wf_same_pages(pre, d@);
            assert forall|x: nat| d@.pages.contains(x) <==> before.pages.contains(x) by {
                assert(d@.pages.contains(x) <==> pre.pages.contains(x));
            }
            assert(keeps_what_pages_display(before, d@)) by {
                assert forall|p: nat, key: Seq<u8>| #![trigger inherited(d@, p, key)]
                    before.pages.contains(p) && is_inheritable(key) && !(inherited(before, p, key) is Broken)
                    implies inherited(d@, p, key) == inherited(before, p, key) by {
                    crate::inherit::lemma_inherited_reads_objects(d@, pre, p, key);
                }
            }
        }
        target += 1;
    }
    proof {
        if !flattened {
            assert(keeps_what_pages_display(before, d@));
        }
    }
    Ok(())
}

/// Reordering moves pages without touching what they draw: the page now at position `i` is
/// the page that stood at `order[i]`, its `/Contents` names the same stream, and that stream
/// holds the same data.
pub proof fn lemma_reordered_pages_keep_their_content(
    before: DocumentV,
    after: DocumentV,
    order: Seq<u64>,
    i: int,
    x: nat,
)
    requires
        reordered(before, after, order),
        crate::flatten::tree_attributes_only(before, after),
        order.len() == before.pages.len(),
        0 <= i < order.len(),
        order[i] < before.pages.len(),
        crate::graph::key_of(before, before.pages[order[i] as int], crate::names::spec_contents()) == Some(ValueV::Reference(x)),
        x < before.objects.len(),
        before.objects[x as int].body is Stream,
    ensures
        after.pages[i] == before.pages[order[i] as int],
        crate::graph::key_of(after, after.pages[i], crate::names::spec_contents()) == Some(ValueV::Reference(x)),
        after.objects[x as int].body is Stream,
        after.objects[x as int].body->Stream_1 == before.objects[x as int].body->Stream_1,
{
    crate::flatten::lemma_pages_keep_their_content(before, after, before.pages[order[i] as int], x);
}

/// Reordering twice is reordering once by the composed order: the page at position `i` after
/// both is the page the first order put at position `second[i]`. Reversing a reversal gives
/// the pages back in the order they started in.
pub proof fn lemma_reordering_twice_composes(
    a: DocumentV,
    b: DocumentV,
    c: DocumentV,
    first: Seq<u64>,
    second: Seq<u64>,
)
    requires
        reordered(a, b, first),
        reordered(b, c, second),
        is_permutation(first),
        is_permutation(second),
        first.len() == a.pages.len(),
        second.len() == a.pages.len(),
    ensures
        forall|i: int| 0 <= i < second.len() ==> #[trigger] c.pages[i] == a.pages[first[second[i] as int] as int],
{
    assert forall|i: int| 0 <= i < second.len() implies #[trigger] c.pages[i] == a.pages[first[second[i] as int] as int] by {
        assert(second[i] < second.len());
    }
}

/// Reordering loses no page, adds none and repeats none: afterwards the document holds
/// exactly the pages it held before.
pub proof fn lemma_every_page_appears_exactly_once(a: DocumentV, b: DocumentV, order: Seq<u64>)
    requires
        wf(a),
        reordered(a, b, order),
        is_permutation(order),
        order.len() == a.pages.len(),
    ensures
        forall|x: nat| b.pages.contains(x) <==> a.pages.contains(x),
        distinct(b.pages),
{
    assert forall|x: nat| b.pages.contains(x) <==> a.pages.contains(x) by {
        if b.pages.contains(x) {
            let j = choose|j: int| 0 <= j < b.pages.len() && b.pages[j] == x;
            assert(order[j] < order.len());
        }
        if a.pages.contains(x) {
            let j = choose|j: int| 0 <= j < a.pages.len() && a.pages[j] == x;
            lemma_permutation_is_onto(order, j);
            let i = choose|i: int| 0 <= i < order.len() && order[i] == j;
            assert(b.pages[i] == x);
        }
    }
    assert forall|p: int, q: int| 0 <= p < b.pages.len() && 0 <= q < b.pages.len() && p != q implies #[trigger] b.pages[p] != #[trigger] b.pages[q] by {
        assert(order[p] != order[q]);
        assert(order[p] < order.len() && order[q] < order.len());
    }
}

/// Every index is named by a permutation.
pub proof fn lemma_permutation_is_onto(order: Seq<u64>, j: int)
    requires
        is_permutation(order),
        0 <= j < order.len(),
    ensures
        exists|i: int| 0 <= i < order.len() && order[i] == j,
{
    let n = order.len();
    let named = Set::new(|v: int| exists|i: int| 0 <= i < n && order[i] == v);
    let range = Set::new(|v: int| 0 <= v < n);
    assert(named.subset_of(range));
    let f = |i: int| order[i] as int;
    let dom = Set::new(|i: int| 0 <= i < n);
    vstd::set_lib::lemma_int_range(0, n as int);
    assert(dom =~= vstd::set_lib::set_int_range(0, n as int));
    assert forall|v: int| named.contains(v) <==> #[trigger] dom.map(f).contains(v) by {
        if named.contains(v) {
            let i = choose|i: int| 0 <= i < n && order[i] == v;
            assert(dom.contains(i) && f(i) == v);
        }
        if dom.map(f).contains(v) {
            let i = choose|i: int| dom.contains(i) && f(i) == v;
            assert(0 <= i < n && order[i] == v);
        }
    }
    assert(named =~= dom.map(f));
    assert(vstd::relations::injective_on(f, dom)) by {
        assert forall|x: int, y: int| dom.contains(x) && dom.contains(y) && #[trigger] f(x) == #[trigger] f(y) implies x == y by {
            if x != y {
                assert(order[x] != order[y]);
            }
        }
    }
    vstd::set_lib::lemma_map_size(dom, named, f);
    assert(range =~= vstd::set_lib::set_int_range(0, n as int));
    vstd::set_lib::lemma_subset_equality(named, range);
    assert(range.contains(j));
}

/// The refusal of an order of `length` pages for a document of `pages`.
pub open spec fn wrong_length_message(length: nat, pages: nat) -> Seq<char> {
    "the page order is for a document of "@ + decimal_text(length) + " pages, and this one has "@
        + decimal_text(pages)
}

/// A document held open for a reordering.
pub struct QpdfReorderable {
    document: Document,
    limits: Limits,
    /// Set once a permutation has failed part-way: the document may then be short of the page
    /// that was out of the tree when it failed, and must not be written.
    poisoned: bool,
}

impl QpdfReorderable {
    /// Holds of every value [`Self::open`] returns, and every operation keeps it.
    pub closed spec fn wf(self) -> bool {
        opens(self.document@, self.limits)
    }

    /// The document, as it stands.
    pub closed spec fn doc(self) -> DocumentV {
        self.document@
    }

    /// The ceilings it was opened under.
    pub closed spec fn limits(self) -> Limits {
        self.limits
    }

    /// Whether a failed reordering has left it unusable.
    pub closed spec fn is_poisoned(self) -> bool {
        self.poisoned
    }

    /// Open `document` for reordering under `limits`.
    ///
    /// # Errors
    ///
    /// As [`open_document`].
    pub fn open(document: Document, limits: Limits) -> (r: Result<QpdfReorderable>)
        ensures
            r is Ok <==> opens(document@, limits),
            r is Ok ==> r->Ok_0.doc() == document@ && r->Ok_0.wf() && !r->Ok_0.is_poisoned() && r->Ok_0.limits() == limits,
            !wf(document@) ==> r is Err && r->Err_0 is Malformed,
            wf(document@) && document@.pages.len() > limits.max_pages ==> r is Err && r->Err_0 is LimitExceeded,
    {
        open_document(&document, &limits)?;
        Ok(QpdfReorderable { document, limits, poisoned: false })
    }

    /// The document, as it stands after whatever has been done to it.
    pub fn document(&self) -> (d: &Document)
        requires
            self.wf(),
        ensures
            d@ == self.doc(),
            wf(d@),
    {
        &self.document
    }

    /// How many pages it has.
    pub fn pages(&self) -> (n: u64)
        requires
            self.wf(),
        ensures
            n == self.doc().pages.len(),
    {
        self.document.pages.len() as u64
    }

    /// Every page's `/Rotate` as written; see [`rotations_of`].
    pub fn rotations<C: Clock>(&self, deadline: &Deadline, clock: &C) -> (r: Result<Vec<i64>>)
        requires
            self.wf(),
        ensures
            r is Ok ==> r->Ok_0@.len() == self.doc().pages.len() && forall|i: int|
                0 <= i < self.doc().pages.len() ==> crate::engine::recorded(self.doc(), self.doc().pages[i], r->Ok_0@[i] as int),
            r is Err ==> crate::engine::swept_refusal(self.doc(), *deadline, r->Err_0),
            deadline.holds_for(clock) && (forall|i: int| 0 <= i < self.doc().pages.len()
                ==> crate::engine::rotation_read(self.doc(), #[trigger] self.doc().pages[i]) is Some) ==> r is Ok,
    {
        proof {
            assert forall|i: int| 0 <= i < self.document@.pages.len()
                && crate::engine::rotation_read(self.doc(), self.doc().pages[i]) is Some
                implies crate::engine::rotation_read(self.document@, #[trigger] self.document@.pages[i]) is Some by {}
        }
        rotations_of(&self.document, deadline, clock)
    }

    /// Put the pages in the order `order` gives: position `i` receives the page that was at
    /// `order[i]`.
    ///
    /// # Errors
    ///
    /// - `InvalidArgument` when the order is for a document with a different page count.
    /// - `Internal` when an earlier reordering failed part-way, leaving the document unusable.
    /// - `LimitExceeded` for `max_duration_ms`, checked at every page. A refusal part-way
    ///   through poisons the document.
    pub fn reorder<C: Clock>(&mut self, order: &Permutation, clock: &C) -> (r: Result<()>)
        requires
            old(self).wf(),
        ensures
            final(self).wf(),
            order@.len() != old(self).doc().pages.len() ==> r is Err && r->Err_0 is InvalidArgument
                && final(self).doc() == old(self).doc() && final(self).is_poisoned() == old(self).is_poisoned(),
            order@.len() == old(self).doc().pages.len() && old(self).is_poisoned() ==> r is Err
                && r->Err_0 is Internal && final(self).doc() == old(self).doc(),
            r is Ok ==> !old(self).is_poisoned() && !final(self).is_poisoned(),
            r is Ok ==> reordered(old(self).doc(), final(self).doc(), order@),
            r is Ok ==> keeps_what_pages_display(old(self).doc(), final(self).doc()),
            r is Ok ==> crate::flatten::tree_attributes_only(old(self).doc(), final(self).doc()),
            r is Ok ==> forall|x: int| 0 <= x < old(self).doc().objects.len() && (#[trigger] old(self).doc().objects[x]).body is Stream
                ==> final(self).doc().objects[x].body is Stream
                && final(self).doc().objects[x].body->Stream_1 == old(self).doc().objects[x].body->Stream_1,
            r is Ok ==> forall|i: int| 0 <= i < old(self).doc().pages.len() ==> #[trigger] crate::graph::key_of(final(self).doc(),
                old(self).doc().pages[i], crate::names::spec_contents()) == crate::graph::key_of(old(self).doc(), old(self).doc().pages[i],
                crate::names::spec_contents()),
            r is Ok && (forall|i: int| 0 <= i < order@.len() ==> order@[i] == i) ==> final(self).doc()
                == old(self).doc(),
            r is Err && r->Err_0 is LimitExceeded ==> final(self).is_poisoned(),
            r is Err ==> r->Err_0 is InvalidArgument || r->Err_0 is Internal || r->Err_0 is LimitExceeded,
            r is Err && r->Err_0 is InvalidArgument <==> order@.len() != old(self).doc().pages.len(),
            order@.len() != old(self).doc().pages.len() ==> r->Err_0->InvalidArgument_0@ == wrong_length_message(
                order@.len(),
                old(self).doc().pages.len(),
            ),
            r is Err && r->Err_0 is Internal ==> old(self).is_poisoned(),
            r is Err && r->Err_0 is LimitExceeded ==> r->Err_0->stage == Stage::Duration
                && r->Err_0->allowed == old(self).limits().max_duration_ms,
            order@.len() == old(self).doc().pages.len() && !old(self).is_poisoned()
                && crate::limits::steady(clock, old(self).limits().max_duration_ms) ==> r is Ok,
            final(self).doc().pages.len() == old(self).doc().pages.len(),
            final(self).limits() == old(self).limits(),
            old(self).is_poisoned() ==> final(self).is_poisoned(),
    {
        let deadline = Deadline::start(clock, &self.limits);
        if order.len() as u64 != self.document.pages.len() as u64 {
            let mut message = "the page order is for a document of ".to_owned();
            message.append(decimal(order.len() as u64).as_str());
            message.append(" pages, and this one has ");
            message.append(decimal(self.document.pages.len() as u64).as_str());
            return Err(Error::InvalidArgument(message));
        }
        if self.poisoned {
            return Err(internal(
                "this document was left part-way through a failed reordering and cannot be written; open it again",
            ));
        }
        if order.is_identity() {
            return Ok(());
        }
        let ghost before = self.document@;
        match permute(&mut self.document, order, &deadline, clock) {
            Ok(()) => {
                proof {
                    crate::flatten::lemma_contents_is_not_a_tree_attribute();
                    assert forall|x: int| 0 <= x < before.objects.len() && (#[trigger] before.objects[x]).body is Stream
                        implies self.document@.objects[x].body is Stream
                        && self.document@.objects[x].body->Stream_1 == before.objects[x].body->Stream_1 by {
                        assert(crate::graph::kept_but_entries(self.document@.objects[x], before.objects[x]));
                    }
                }
                Ok(())
            },
            Err(e) => {
                self.poisoned = true;
                Err(e)
            },
        }
    }
}

} // verus!
