//! How many places in a document draw each Form XObject, which pages use each font, and how
//! many references each page content stream has.
//!
//! Editing a form that is drawn more than once removes its text everywhere it is drawn, so a
//! page nobody asked about silently loses content. This answers the question the refusal is
//! built on, and nothing else.
//!
//! - `/Resources` is inheritable: a page with none of its own uses the nearest ancestor's.
//! - Identity, never name: counts are keyed on the object.
//! - Every graph that can draw a form counts: page resources, nested form resources, Type 3
//!   glyph procedures, patterns, and annotation appearances.
//! - A cyclic resource graph is refused rather than walked forever or truncated: a count
//!   that is too low reads as unshared, the direction that edits in place.

use std::collections::BTreeSet;

use vstd::prelude::*;

use crate::error::{malformed, unsupported, Error, Result};
use crate::graph::{
    dictionary_target, entries_of, entries_view, key_of, opt_view, same_name, target, Body, BodyV, Document, DocumentV, Entry,
    Value, ValueV,
};
use crate::inherit::MAX_PAGE_TREE_DEPTH;
use crate::limits::{Clock, Deadline};
use crate::names::{
    annots, ap, char_procs, contents, d_state, encoding, font, n_state, parent, pattern, r_state, resources,
    spec_contents, to_unicode, widths, x_object,
};

verus! {

broadcast use vstd::laws_cmp::group_laws_cmp, vstd::std_specs::btree::group_btree_axioms;

/// How deep the resource graph may nest before the walk refuses.
pub const MAX_RESOURCE_DEPTH: u32 = 32u32;

/// How many resource dictionaries one walk will read in total: depth alone does not bound a
/// branching graph.
pub const MAX_RESOURCE_DICTIONARIES: usize = 4096usize;

/// How many elements a `/Contents` array may have.
pub const MAX_CONTENTS_ELEMENTS: usize = 4096usize;

/// `v`, capped at the largest `usize`.
pub open spec fn capped(v: int) -> usize {
    if v > usize::MAX { usize::MAX } else { v as usize }
}

/// The uses flowing into `x` along `edges`, one per reference, from uses `c`.
pub open spec fn incoming(edges: Seq<(usize, usize)>, c: Seq<usize>, x: int) -> int
    decreases edges.len(),
{
    if edges.len() == 0 {
        0
    } else {
        incoming(edges.drop_last(), c, x) + if edges.last().1 as int == x { c[edges.last().0 as int] as int } else { 0 }
    }
}

/// One round of propagation: the direct uses plus everything flowing in.
pub open spec fn step(direct: Seq<usize>, edges: Seq<(usize, usize)>, c: Seq<usize>) -> Seq<usize> {
    Seq::new(direct.len(), |x: int| capped(direct[x] + incoming(edges, c, x)))
}

/// The uses after `k` rounds of propagation from the direct uses.
pub open spec fn rounds(direct: Seq<usize>, edges: Seq<(usize, usize)>, k: nat) -> Seq<usize>
    decreases k,
{
    if k == 0 {
        direct
    } else {
        step(direct, edges, rounds(direct, edges, (k - 1) as nat))
    }
}

/// Whether every edge joins two objects of a table of `n`.
pub open spec fn edges_within(edges: Seq<(usize, usize)>, n: nat) -> bool {
    forall|i: int| 0 <= i < edges.len() ==> (#[trigger] edges[i]).0 < n && edges[i].1 < n
}

proof fn lemma_incoming_nonnegative(edges: Seq<(usize, usize)>, c: Seq<usize>, x: int)
    ensures
        incoming(edges, c, x) >= 0,
    decreases edges.len(),
{
    if edges.len() > 0 {
        lemma_incoming_nonnegative(edges.drop_last(), c, x);
    }
}

/// The uses flowing into a form along its references include those of each one.
proof fn lemma_incoming_covers(edges: Seq<(usize, usize)>, c: Seq<usize>, i: int)
    requires
        0 <= i < edges.len(),
    ensures
        incoming(edges, c, edges[i].1 as int) >= c[edges[i].0 as int],
    decreases edges.len(),
{
    let x = edges[i].1 as int;
    if i == edges.len() - 1 {
        lemma_incoming_nonnegative(edges.drop_last(), c, x);
    } else {
        assert(edges.drop_last()[i] == edges[i]);
        lemma_incoming_covers(edges.drop_last(), c, i);
    }
}

/// With no references, propagation leaves the direct uses as they are.
proof fn lemma_rounds_without_edges(direct: Seq<usize>, edges: Seq<(usize, usize)>, k: nat)
    requires
        edges.len() == 0,
    ensures
        rounds(direct, edges, k) == direct,
    decreases k,
{
    if k > 0 {
        lemma_rounds_without_edges(direct, edges, (k - 1) as nat);
        assert forall|x: int| 0 <= x < direct.len() implies #[trigger] step(direct, edges, direct)[x] == direct[x] by {
            assert(incoming(edges, direct, x) == 0);
        }
        assert(step(direct, edges, direct) =~= direct);
    }
}

/// One round of propagation.
fn propagate_once(direct: &Vec<usize>, edges: &Vec<(usize, usize)>, counts: &Vec<usize>) -> (r: Vec<usize>)
    requires
        counts@.len() == direct@.len(),
        edges_within(edges@, direct@.len()),
    ensures
        r@ == step(direct@, edges@, counts@),
{
    let mut next = direct.clone();
    let mut i: usize = 0;
    while i < edges.len()
        invariant
            counts@.len() == direct@.len(),
            edges_within(edges@, direct@.len()),
            i <= edges@.len(),
            next@.len() == direct@.len(),
            forall|x: int| 0 <= x < direct@.len() ==> #[trigger] next@[x] == capped(direct@[x] + incoming(edges@.take(i as int), counts@, x)),
        decreases edges.len() - i,
    {
        let (parent, child) = edges[i];
        let ghost before = next@;
        let flowing = counts[parent];
        let now = next[child].saturating_add(flowing);
        next.set(child, now);
        proof {
            let t = edges@.take(i + 1);
            assert(t.drop_last() =~= edges@.take(i as int));
            assert(t.last() == edges@[i as int]);
            assert forall|x: int| 0 <= x < direct@.len() implies #[trigger] next@[x] == capped(direct@[x] + incoming(t, counts@, x)) by {
                assert(incoming(t, counts@, x) == incoming(edges@.take(i as int), counts@, x)
                    + if child as int == x { counts@[parent as int] as int } else { 0 });
                assert(incoming(edges@.take(i as int), counts@, x) >= 0) by {
                    lemma_incoming_nonnegative(edges@.take(i as int), counts@, x);
                }
                if x != child as int {
                    assert(next@[x] == before[x]);
                }
            }
        }
        i += 1;
    }
    assert(edges@.take(edges@.len() as int) =~= edges@);
    assert(next@ =~= step(direct@, edges@, counts@));
    next
}

/// Push the direct uses down the reference graph: each form's uses are its direct uses plus,
/// for each reference to it from a container, that container's uses.
///
/// Relaxed [`MAX_RESOURCE_DEPTH`] + 1 times, stopping early once a round changes nothing: the
/// graph is acyclic (the walk refuses cycles) and its longest path is bounded by the depth
/// cap, so that many rounds reach the fixed point.
pub fn propagate(direct: &Vec<usize>, edges: &Vec<(usize, usize)>) -> (r: Vec<usize>)
    requires
        edges_within(edges@, direct@.len()),
    ensures
        r@ == rounds(direct@, edges@, (MAX_RESOURCE_DEPTH + 1) as nat),
{
    let mut counts = direct.clone();
    let mut round: u32 = 0;
    while round <= MAX_RESOURCE_DEPTH
        invariant
            edges_within(edges@, direct@.len()),
            round <= MAX_RESOURCE_DEPTH + 1,
            counts@ == rounds(direct@, edges@, round as nat),
        decreases MAX_RESOURCE_DEPTH + 1 - round,
    {
        let next = propagate_once(direct, edges, &counts);
        if vec_equal(&next, &counts) {
            proof {
                lemma_fixed_point_stays(direct@, edges@, round as nat, (MAX_RESOURCE_DEPTH + 1) as nat);
            }
            return counts;
        }
        counts = next;
        round += 1;
    }
    counts
}

/// Once a round changes nothing, no later round does.
proof fn lemma_fixed_point_stays(direct: Seq<usize>, edges: Seq<(usize, usize)>, k: nat, m: nat)
    requires
        k <= m,
        step(direct, edges, rounds(direct, edges, k)) == rounds(direct, edges, k),
    ensures
        rounds(direct, edges, m) == rounds(direct, edges, k),
    decreases m - k,
{
    if k < m {
        lemma_fixed_point_stays(direct, edges, k, (m - 1) as nat);
    }
}

/// Whether two vectors hold the same numbers.
fn vec_equal(a: &Vec<usize>, b: &Vec<usize>) -> (r: bool)
    ensures
        r == (a@ == b@),
{
    if a.len() != b.len() {
        return false;
    }
    let mut i: usize = 0;
    while i < a.len()
        invariant
            a@.len() == b@.len(),
            i <= a@.len(),
            forall|j: int| 0 <= j < i ==> a@[j] == b@[j],
        decreases a.len() - i,
    {
        if a[i] != b[i] {
            return false;
        }
        i += 1;
    }
    assert(a@ =~= b@);
    true
}

/// How many of the first `n` pages satisfy `p`.
pub open spec fn count_where(n: int, p: spec_fn(int) -> bool) -> nat
    decreases n,
{
    if n <= 0 {
        0
    } else {
        count_where(n - 1, p) + if p(n - 1) { 1nat } else { 0nat }
    }
}

/// No more of the first `n` pages satisfy a property than there are pages.
pub broadcast proof fn lemma_count_at_most(n: int, p: spec_fn(int) -> bool)
    requires
        n >= 0,
    ensures
        #[trigger] count_where(n, p) <= n,
    decreases n,
{
    if n > 0 {
        lemma_count_at_most(n - 1, p);
    }
}

/// What the walk found: uses per form, pages per font and per font part, and references per
/// page content stream, each keyed on the object.
pub struct FormUseCounts {
    direct: Vec<usize>,
    edges: Vec<(usize, usize)>,
    counts: Vec<usize>,
    page_count: usize,
    fonts: Vec<Vec<usize>>,
    font_parts: Vec<Vec<usize>>,
    font_part_names: Vec<Vec<usize>>,
    content_refs: Vec<usize>,
    content_pages: Vec<Vec<usize>>,
    page_forms: Vec<(usize, usize)>,
    descended: Vec<bool>,
    rank: Ghost<Seq<nat>>,
}

impl FormUseCounts {
    /// Every table has an entry per object, every page is a page of the document, and every
    /// font part is an object.
    pub closed spec fn wf(&self) -> bool {
        let n = self.counts@.len();
        &&& self.direct@.len() == n
        &&& edges_within(self.edges@, n)
        &&& self.counts@ == rounds(self.direct@, self.edges@, (MAX_RESOURCE_DEPTH + 1) as nat)
        &&& self.fonts@.len() == n
        &&& self.font_parts@.len() == n
        &&& self.font_part_names@.len() == n
        &&& self.content_refs@.len() == n
        &&& self.content_pages@.len() == n
        &&& forall|x: int, k: int| 0 <= x < n && 0 <= k < self.fonts@[x]@.len() ==> #[trigger] self.fonts@[x]@[k] < self.page_count
        &&& forall|x: int, k: int| 0 <= x < n && 0 <= k < self.font_parts@[x]@.len() ==> #[trigger] self.font_parts@[x]@[k] < self.page_count
        &&& forall|x: int, k: int| 0 <= x < n && 0 <= k < self.font_part_names@[x]@.len() ==> #[trigger] self.font_part_names@[x]@[k] < n
        &&& forall|x: int, k: int| 0 <= x < n && 0 <= k < self.content_pages@[x]@.len() ==> #[trigger] self.content_pages@[x]@[k] < self.page_count
        &&& self.descended@.len() == n
        &&& pairs_within(self.page_forms@, self.page_count as nat, n)
        &&& forall|x: int| 0 <= x < n ==> #[trigger] self.direct@[x] == capped(draws_of(self.page_forms@, x) as int)
        &&& self.rank@.len() == n
        &&& forall|k: int| 0 <= k < self.edges@.len() ==> #[trigger] self.rank@[self.edges@[k].1 as int] < self.rank@[self.edges@[k].0 as int]
    }

    /// How many objects the tables cover.
    pub closed spec fn objects(&self) -> nat {
        self.counts@.len()
    }

    /// How many pages the document has.
    pub closed spec fn pages(&self) -> nat {
        self.page_count as nat
    }

    /// How many places draw each form.
    pub closed spec fn form_uses(&self) -> Seq<usize> {
        self.counts@
    }

    /// How many references to each form come straight from a page: its resources or its
    /// annotations' appearances.
    pub closed spec fn direct_uses(&self) -> Seq<usize> {
        self.direct@
    }

    /// One `(container, form)` per reference from a form's resources to another form.
    pub closed spec fn references(&self) -> Seq<(usize, usize)> {
        self.edges@
    }

    /// One `(page, form)` per reference from a page's resources, or its annotations'
    /// appearances, to a form.
    pub closed spec fn page_references(&self) -> Seq<(usize, usize)> {
        self.page_forms@
    }

    /// Whether the walk reached stream `x`: drawn, at some depth, from some page.
    pub closed spec fn reached(&self, x: int) -> bool {
        0 <= x < self.descended@.len() && self.descended@[x]
    }

    /// Every form resource dictionary `res` names, the first entry with its key, is reached
    /// and recorded as drawn by page `page`; every font it names is one page `page` uses.
    pub open spec fn page_counted(&self, d: DocumentV, page: int, res: nat) -> bool {
        &&& match dictionary_target(d, key_of(d, res, crate::names::spec_x_object())) {
            Some(xd) => forall|j: int| 0 <= j < entries_of(d.objects[xd as int]).len() && first_key(entries_of(d.objects[xd as int]), j)
                ==> (#[trigger] crate::scope::stream_target(d, Some(entries_of(d.objects[xd as int])[j].1)) matches Some(y)
                    ==> self.reached(y as int) && self.page_references().contains((page as usize, y as usize))),
            None => true,
        }
        &&& match dictionary_target(d, key_of(d, res, crate::names::spec_font())) {
            Some(f) => forall|j: int| 0 <= j < entries_of(d.objects[f as int]).len() && first_key(entries_of(d.objects[f as int]), j)
                ==> (#[trigger] target(d, Some(entries_of(d.objects[f as int])[j].1)) matches Some(id)
                    ==> self.font_page(id as int, page)),
            None => true,
        }
    }

    /// Every form the resources of stream `x` name, the first entry with its key, is reached
    /// and recorded as drawn by `x`.
    pub open spec fn draws_counted(&self, d: DocumentV, x: nat) -> bool {
        match dictionary_target(d, key_of(d, x, crate::names::spec_resources())) {
            Some(r) => match dictionary_target(d, key_of(d, r, crate::names::spec_x_object())) {
                Some(xd) => forall|j: int| 0 <= j < entries_of(d.objects[xd as int]).len() && first_key(entries_of(d.objects[xd as int]), j)
                    ==> (#[trigger] crate::scope::stream_target(d, Some(entries_of(d.objects[xd as int])[j].1)) matches Some(y)
                        ==> self.reached(y as int) && self.references().contains((x as usize, y as usize))),
                None => true,
            },
            None => true,
        }
    }

    /// Every font the resources of stream `x` name, the first entry with its key, is one page
    /// `page` uses.
    pub open spec fn fonts_counted(&self, d: DocumentV, x: nat, page: int) -> bool {
        match dictionary_target(d, key_of(d, x, crate::names::spec_resources())) {
            Some(r) => match dictionary_target(d, key_of(d, r, crate::names::spec_font())) {
                Some(f) => forall|j: int| 0 <= j < entries_of(d.objects[f as int]).len() && first_key(entries_of(d.objects[f as int]), j)
                    ==> (#[trigger] target(d, Some(entries_of(d.objects[f as int])[j].1)) matches Some(id)
                        ==> self.font_page(id as int, page)),
                None => true,
            },
            None => true,
        }
    }

    /// A form's direct uses are its references from pages, one each.
    pub proof fn lemma_direct_uses_are_page_references(&self)
        requires
            self.wf(),
        ensures
            self.direct_uses().len() == self.objects(),
            forall|x: int| 0 <= x < self.objects() ==> #[trigger] self.direct_uses()[x] == capped(draws_of(self.page_references(), x) as int),
    {
    }

    /// No form is used fewer times than it is referenced from pages.
    pub proof fn lemma_uses_cover_direct_uses(&self)
        requires
            self.wf(),
        ensures
            self.form_uses().len() == self.objects(),
            forall|x: int| 0 <= x < self.objects() ==> #[trigger] self.form_uses()[x] >= self.direct_uses()[x],
    {
        let k = (MAX_RESOURCE_DEPTH + 1) as nat;
        let prev = rounds(self.direct@, self.edges@, (k - 1) as nat);
        assert(self.counts@ == step(self.direct@, self.edges@, prev));
        assert forall|x: int| 0 <= x < self.objects() implies #[trigger] self.form_uses()[x] >= self.direct_uses()[x] by {
            lemma_incoming_nonnegative(self.edges@, prev, x);
        }
    }

    /// An order on the streams in which every reference goes from a higher stream to a lower.
    pub closed spec fn rank(&self) -> Seq<nat> {
        self.rank@
    }

    /// Every reference goes down in [`Self::rank`].
    pub proof fn lemma_references_go_down(&self)
        requires
            self.wf(),
        ensures
            self.rank().len() == self.objects(),
            forall|a: usize, b: usize| #[trigger] self.references().contains((a, b))
                ==> a < self.objects() && b < self.objects() && self.rank()[b as int] < self.rank()[a as int],
    {
        assert forall|a: usize, b: usize| #[trigger] self.references().contains((a, b))
            implies a < self.objects() && b < self.objects() && self.rank()[b as int] < self.rank()[a as int] by {
            let k = choose|k: int| 0 <= k < self.edges@.len() && self.edges@[k] == (a, b);
            assert(self.rank@[self.edges@[k].1 as int] < self.rank@[self.edges@[k].0 as int]);
        }
    }

    /// No chain of references a walk counted returns to where it started: a resource graph
    /// that draws a form inside itself is never counted, only refused.
    pub proof fn lemma_no_reference_cycle(&self, path: Seq<usize>)
        requires
            self.wf(),
            path.len() >= 2,
            forall|i: int| #![trigger path[i]] 0 <= i < path.len() - 1 ==> self.references().contains((path[i], path[i + 1])),
        ensures
            path[0] != path[path.len() - 1],
    {
        self.lemma_references_go_down();
        self.lemma_chain_goes_down(path);
    }

    /// Along a chain of references the rank falls.
    proof fn lemma_chain_goes_down(&self, path: Seq<usize>)
        requires
            self.wf(),
            path.len() >= 2,
            forall|i: int| #![trigger path[i]] 0 <= i < path.len() - 1 ==> self.references().contains((path[i], path[i + 1])),
            self.rank().len() == self.objects(),
            forall|a: usize, b: usize| #[trigger] self.references().contains((a, b))
                ==> a < self.objects() && b < self.objects() && self.rank()[b as int] < self.rank()[a as int],
        ensures
            self.rank()[path[path.len() - 1] as int] < self.rank()[path[0] as int],
        decreases path.len(),
    {
        assert(self.references().contains((path[0], path[1])));
        if path.len() > 2 {
            let rest = path.subrange(1, path.len() as int);
            assert forall|i: int| #![trigger rest[i]] 0 <= i < rest.len() - 1 implies self.references().contains((rest[i], rest[i + 1])) by {
                assert(path[i + 1] == rest[i]);
                assert(self.references().contains((path[i + 1], path[i + 2])));
            }
            self.lemma_chain_goes_down(rest);
        }
    }

    /// With no references between forms, each form is used exactly as often as pages draw it.
    pub proof fn lemma_uses_without_references(&self)
        requires
            self.wf(),
            self.references().len() == 0,
        ensures
            self.form_uses() == self.direct_uses(),
            forall|x: int| 0 <= x < self.objects() ==> #[trigger] self.form_uses()[x] == capped(draws_of(self.page_references(), x) as int),
    {
        lemma_rounds_without_edges(self.direct@, self.edges@, (MAX_RESOURCE_DEPTH + 1) as nat);
    }

    /// A form another form draws is used at least as often as the other is drawn from pages.
    pub proof fn lemma_uses_flow_down(&self, a: usize, b: usize)
        requires
            self.wf(),
            self.references().contains((a, b)),
        ensures
            self.form_uses()[b as int] >= self.direct_uses()[a as int],
    {
        let k = (MAX_RESOURCE_DEPTH + 1) as nat;
        let prev = rounds(self.direct@, self.edges@, (k - 1) as nat);
        let prev2 = rounds(self.direct@, self.edges@, (k - 2) as nat);
        assert(self.counts@ == step(self.direct@, self.edges@, prev));
        assert(prev == step(self.direct@, self.edges@, prev2));
        let i = choose|i: int| 0 <= i < self.edges@.len() && self.edges@[i] == (a, b);
        lemma_incoming_covers(self.edges@, prev, i);
        lemma_incoming_nonnegative(self.edges@, prev2, a as int);
        assert(prev[a as int] >= self.direct@[a as int]);
    }

    /// The uses are the direct uses pushed down the references.
    pub proof fn lemma_uses_are_propagated(&self)
        requires
            self.wf(),
        ensures
            self.form_uses() == rounds(self.direct_uses(), self.references(), (MAX_RESOURCE_DEPTH + 1) as nat),
    {
    }

    /// How many references each page content stream has, across every page's `/Contents`.
    pub closed spec fn content_counts(&self) -> Seq<usize> {
        self.content_refs@
    }

    /// Whether page `page` references content stream `object`.
    pub closed spec fn content_page(&self, object: int, page: usize) -> bool {
        0 <= object < self.content_pages@.len() && self.content_pages@[object]@.contains(page)
    }

    /// Whether page `page` uses font `font`.
    pub closed spec fn font_page(&self, font: int, page: int) -> bool {
        0 <= font < self.fonts@.len() && self.fonts@[font]@.contains(page as usize)
    }

    /// Whether page `page` reaches `part`, an object some font it uses names as its
    /// `/ToUnicode`, `/Encoding` or `/Widths`.
    pub closed spec fn part_page(&self, part: int, page: int) -> bool {
        0 <= part < self.font_parts@.len() && self.font_parts@[part]@.contains(page as usize)
    }

    /// Whether font `font` names `part`.
    pub closed spec fn names_part(&self, font: int, part: int) -> bool {
        0 <= font < self.font_part_names@.len() && self.font_part_names@[font]@.contains(part as usize)
    }

    /// Whether an edit to font `font` reaches page `page`: through the font itself or through
    /// a part it names.
    pub open spec fn edit_reaches(&self, font: int, page: int) -> bool {
        ||| self.font_page(font, page)
        ||| exists|part: int| #[trigger] self.names_part(font, part) && self.part_page(part, page)
    }

    /// How many pages outside `redacted` an edit to `font` reaches.
    pub open spec fn outside(&self, font: int, redacted: Set<usize>) -> nat {
        count_where(self.pages() as int, |p: int| self.edit_reaches(font, p) && !redacted.contains(p as usize))
    }

    /// The number of pages outside `redacted` an edit to `font` reaches fits a `usize`.
    pub proof fn lemma_outside_fits(&self, font: int, redacted: Set<usize>)
        ensures
            self.outside(font, redacted) <= self.pages() <= usize::MAX,
    {
        broadcast use lemma_count_at_most;
    }

    /// How many places draw the form with this identity: zero for an object the walk never
    /// reached, which is "not a form this document draws", not "unshared".
    pub fn uses(&self, object: usize) -> (r: usize)
        ensures
            r == if object < self.form_uses().len() { self.form_uses()[object as int] } else { 0 },
    {
        if object < self.counts.len() { self.counts[object] } else { 0 }
    }

    /// How many references there are to this page content stream object, document-wide.
    pub fn content_references(&self, object: usize) -> (r: usize)
        requires
            self.wf(),
        ensures
            r == if object < self.content_counts().len() { self.content_counts()[object as int] } else { 0 },
    {
        if object < self.content_refs.len() { self.content_refs[object] } else { 0 }
    }

    /// How many references there are to `object` by any route the walk counts, saturating.
    pub open spec fn references_to(&self, object: usize) -> usize {
        capped(
            (if object < self.form_uses().len() { self.form_uses()[object as int] } else { 0usize })
            + (if object < self.content_counts().len() { self.content_counts()[object as int] } else { 0usize }),
        )
    }

    /// How many references there are to this object by any route the walk counts: a form
    /// that is also a page's `/Contents` is shared however the references are spread.
    pub fn total_references(&self, object: usize) -> (r: usize)
        requires
            self.wf(),
        ensures
            r == self.references_to(object),
    {
        self.uses(object).saturating_add(self.content_references(object))
    }

    /// Whether page `p`, not `page`, references content stream `object`.
    pub open spec fn references_besides(&self, object: usize, page: usize) -> spec_fn(int) -> bool {
        |p: int| self.content_page(object as int, p as usize) && p != page as int
    }

    /// How many pages other than `page` reference this page content stream object.
    pub open spec fn others_referencing(&self, object: usize, page: usize) -> nat {
        count_where(self.pages() as int, self.references_besides(object, page))
    }

    /// How many pages other than `page` reference this page content stream object.
    pub fn content_pages_besides(&self, object: usize, page: usize) -> (r: usize)
        requires
            self.wf(),
        ensures
            r == self.others_referencing(object, page),
    {
        let ghost pred = self.references_besides(object, page);
        let mut count: usize = 0;
        let mut p: usize = 0;
        while p < self.page_count
            invariant
                p <= self.page_count,
                count <= p,
                pred == self.references_besides(object, page),
                count == count_where(p as int, pred),
            decreases self.page_count - p,
        {
            if p != page && object < self.content_pages.len() && holds(&self.content_pages[object], p) {
                count += 1;
            }
            p += 1;
        }
        count
    }

    /// Which pages reference this page content stream object.
    pub fn content_pages_of(&self, object: usize) -> (r: BTreeSet<usize>)
        requires
            self.wf(),
        ensures
            forall|p: usize| #[trigger] r@.contains(p) <==> self.content_page(object as int, p),
    {
        let mut r: BTreeSet<usize> = BTreeSet::new();
        if object >= self.content_pages.len() {
            return r;
        }
        let pages = &self.content_pages[object];
        let mut k: usize = 0;
        while k < pages.len()
            invariant
                object < self.content_pages@.len(),
                pages@ == self.content_pages@[object as int]@,
                k <= pages@.len(),
                forall|p: usize| #[trigger] r@.contains(p) <==> exists|j: int| 0 <= j < k && pages@[j] == p,
            decreases pages.len() - k,
        {
            r.insert(pages[k]);
            proof {
                assert forall|p: usize| #[trigger] r@.contains(p) <==> exists|j: int| 0 <= j < k + 1 && pages@[j] == p by {
                    if p == pages@[k as int] {
                        assert(pages@[k as int] == p);
                    }
                }
            }
            k += 1;
        }
        r
    }

    /// Which pages use this font.
    pub fn font_pages_of(&self, font: usize) -> (r: BTreeSet<usize>)
        requires
            self.wf(),
        ensures
            forall|p: usize| #[trigger] r@.contains(p) <==> self.font_page(font as int, p as int),
    {
        let mut r: BTreeSet<usize> = BTreeSet::new();
        if font >= self.fonts.len() {
            return r;
        }
        let pages = &self.fonts[font];
        let mut k: usize = 0;
        while k < pages.len()
            invariant
                font < self.fonts@.len(),
                pages@ == self.fonts@[font as int]@,
                k <= pages@.len(),
                forall|p: usize| #[trigger] r@.contains(p) <==> exists|j: int| 0 <= j < k && pages@[j] == p,
            decreases pages.len() - k,
        {
            r.insert(pages[k]);
            proof {
                assert forall|p: usize| #[trigger] r@.contains(p) <==> exists|j: int| 0 <= j < k + 1 && pages@[j] == p by {
                    if p == pages@[k as int] {
                        assert(pages@[k as int] == p);
                    }
                }
            }
            k += 1;
        }
        r
    }

    /// How many pages outside `redacted` an edit to this font would reach: the pages using
    /// the font, and the pages reaching any `/ToUnicode`, `/Encoding` or `/Widths` it names.
    ///
    /// The same expression [`Self::fonts_wholly_within`] filters on, so the cuttable set and
    /// the disclosure count cannot disagree.
    pub fn pages_outside(&self, font: usize, redacted: &BTreeSet<usize>) -> (r: usize)
        requires
            self.wf(),
        ensures
            r == self.outside(font as int, redacted@),
    {
        let n = self.page_count;
        let mut reached: Vec<bool> = Vec::new();
        while reached.len() < n
            invariant
                reached@.len() <= n,
                forall|p: int| 0 <= p < reached@.len() ==> !reached@[p],
            decreases n - reached.len(),
        {
            reached.push(false);
        }
        if font < self.fonts.len() {
            let own = &self.fonts[font];
            let mut k: usize = 0;
            while k < own.len()
                invariant
                    self.wf(),
                    font < self.fonts@.len(),
                    own@ == self.fonts@[font as int]@,
                    n == self.page_count,
                    k <= own@.len(),
                    reached@.len() == n,
                    forall|p: int| 0 <= p < n ==> (#[trigger] reached@[p] <==> exists|j: int| 0 <= j < k && own@[j] as int == p),
                decreases own.len() - k,
            {
                let p = own[k];
                reached.set(p, true);
                proof {
                    assert forall|q: int| 0 <= q < n implies (#[trigger] reached@[q] <==> exists|j: int| 0 <= j < k + 1 && own@[j] as int == q) by {
                        if q == p as int {
                            assert(own@[k as int] as int == q);
                        }
                    }
                }
                k += 1;
            }
            let names = &self.font_part_names[font];
            let mut m: usize = 0;
            while m < names.len()
                invariant
                    self.wf(),
                    font < self.fonts@.len(),
                    names@ == self.font_part_names@[font as int]@,
                    n == self.page_count,
                    m <= names@.len(),
                    reached@.len() == n,
                    forall|p: int| 0 <= p < n ==> (#[trigger] reached@[p] <==> (self.font_page(font as int, p)
                        || exists|j: int| 0 <= j < m && self.part_page(names@[j] as int, p))),
                decreases names.len() - m,
            {
                let part = names[m];
                let pages = &self.font_parts[part];
                let ghost start = reached@;
                let mut k: usize = 0;
                while k < pages.len()
                    invariant
                        self.wf(),
                        part < self.font_parts@.len(),
                        pages@ == self.font_parts@[part as int]@,
                        n == self.page_count,
                        k <= pages@.len(),
                        reached@.len() == n,
                        forall|p: int| 0 <= p < n ==> (#[trigger] reached@[p] <==> (start[p]
                            || exists|j: int| 0 <= j < k && pages@[j] as int == p)),
                    decreases pages.len() - k,
                {
                    let p = pages[k];
                    reached.set(p, true);
                    proof {
                        assert forall|q: int| 0 <= q < n implies (#[trigger] reached@[q] <==> (start[q]
                            || exists|j: int| 0 <= j < k + 1 && pages@[j] as int == q)) by {
                            if q == p as int {
                                assert(pages@[k as int] as int == q);
                            }
                        }
                    }
                    k += 1;
                }
                proof {
                    assert forall|p: int| 0 <= p < n implies (#[trigger] reached@[p] <==> (self.font_page(font as int, p)
                        || exists|j: int| 0 <= j < m + 1 && self.part_page(names@[j] as int, p))) by {
                        if exists|j: int| 0 <= j < pages@.len() && pages@[j] as int == p {
                            let j = choose|j: int| 0 <= j < pages@.len() && pages@[j] as int == p;
                            assert(self.font_parts@[part as int]@.contains(p as usize));
                            assert(self.part_page(names@[m as int] as int, p));
                        }
                        if self.part_page(names@[m as int] as int, p) {
                            assert(self.font_parts@[part as int]@.contains(p as usize));
                            let j = choose|j: int| 0 <= j < pages@.len() && pages@[j] == p as usize;
                            assert(pages@[j] as int == p);
                        }
                    }
                }
                m += 1;
            }
            proof {
                assert forall|p: int| 0 <= p < n implies (reached@[p] <==> self.edit_reaches(font as int, p)) by {
                    if exists|part: int| #[trigger] self.names_part(font as int, part) && self.part_page(part, p) {
                        let part = choose|part: int| #[trigger] self.names_part(font as int, part) && self.part_page(part, p);
                        let j = choose|j: int| 0 <= j < names@.len() && names@[j] == part as usize;
                        assert(names@[j] as int == part);
                    }
                    if exists|j: int| 0 <= j < names@.len() && self.part_page(names@[j] as int, p) {
                        let j = choose|j: int| 0 <= j < names@.len() && self.part_page(names@[j] as int, p);
                        assert(self.names_part(font as int, names@[j] as int));
                    }
                }
            }
        }
        let ghost pred = |p: int| self.edit_reaches(font as int, p) && !redacted@.contains(p as usize);
        let mut count: usize = 0;
        let mut p: usize = 0;
        while p < n
            invariant
                n == self.page_count,
                reached@.len() == n,
                p <= n,
                count <= p,
                pred == (|q: int| self.edit_reaches(font as int, q) && !redacted@.contains(q as usize)),
                forall|q: int| 0 <= q < n ==> (#[trigger] reached@[q] <==> self.edit_reaches(font as int, q)),
                count == count_where(p as int, pred),
            decreases n - p,
        {
            if reached[p] && !redacted.contains(&p) {
                count += 1;
            }
            p += 1;
        }
        count
    }

    /// The fonts every one of whose pages is in `redacted`, so cutting them changes nothing
    /// else.
    pub fn fonts_wholly_within(&self, redacted: &BTreeSet<usize>) -> (r: BTreeSet<usize>)
        requires
            self.wf(),
        ensures
            forall|f: usize| #[trigger] r@.contains(f) <==> (f < self.objects() && (exists|p: int| self.font_page(f as int, p))
                && self.outside(f as int, redacted@) == 0),
    {
        let mut r: BTreeSet<usize> = BTreeSet::new();
        let mut f: usize = 0;
        while f < self.fonts.len()
            invariant
                self.wf(),
                f <= self.fonts@.len(),
                forall|g: usize| #[trigger] r@.contains(g) <==> (g < f && (exists|p: int| self.font_page(g as int, p))
                    && self.outside(g as int, redacted@) == 0),
            decreases self.fonts.len() - f,
        {
            let used = self.fonts[f].len() > 0;
            proof {
                if used {
                    assert(self.font_page(f as int, self.fonts@[f as int]@[0] as int));
                }
                if exists|p: int| self.font_page(f as int, p) {
                    let p = choose|p: int| self.font_page(f as int, p);
                    assert(self.fonts@[f as int]@.contains(p as usize));
                }
            }
            if used && self.pages_outside(f, redacted) == 0 {
                r.insert(f);
            }
            f += 1;
        }
        r
    }
}

/// The stream objects a `/Contents` value names: the stream itself, or each element of an
/// array that is one.
pub open spec fn streams_in(d: DocumentV, vs: Seq<ValueV>) -> Seq<nat>
    decreases vs.len(),
{
    if vs.len() == 0 {
        Seq::empty()
    } else {
        streams_in(d, vs.drop_last()) + match target(d, Some(vs.last())) {
            Some(i) => if d.objects[i as int].body is Stream { seq![i] } else { Seq::empty() },
            None => Seq::empty(),
        }
    }
}

/// The content streams page `page` references, in order and with repeats.
pub open spec fn page_streams(d: DocumentV, page: nat) -> Seq<nat> {
    match target(d, key_of(d, page, spec_contents())) {
        Some(i) => match d.objects[i as int].body {
            BodyV::Stream(_, _) => seq![i],
            BodyV::Array(vs) => streams_in(d, vs),
            BodyV::Dictionary(_) => Seq::empty(),
        },
        None => Seq::empty(),
    }
}

/// Whether page `page`'s `/Contents` is an array longer than the walk reads.
pub open spec fn contents_too_long(d: DocumentV, page: nat) -> bool {
    match target(d, key_of(d, page, spec_contents())) {
        Some(i) => match d.objects[i as int].body {
            BodyV::Array(vs) => vs.len() > MAX_CONTENTS_ELEMENTS,
            _ => false,
        },
        None => false,
    }
}

/// How many times `x` occurs in `s`.
pub open spec fn occurrences(s: Seq<nat>, x: int) -> nat
    decreases s.len(),
{
    if s.len() == 0 {
        0
    } else {
        occurrences(s.drop_last(), x) + if s.last() as int == x { 1nat } else { 0nat }
    }
}

/// How many references the first `k` pages make to content stream `x`.
pub open spec fn content_total(d: DocumentV, k: int, x: int) -> nat
    decreases k,
{
    if k <= 0 {
        0
    } else {
        content_total(d, k - 1, x) + occurrences(page_streams(d, d.pages[k - 1]), x)
    }
}

/// Whether page position `p`, among the first `k`, references content stream `x`.
pub open spec fn references_content(d: DocumentV, p: int, x: int) -> bool {
    0 <= p < d.pages.len() && page_streams(d, d.pages[p]).contains(x as nat)
}

/// Whether the entry at `j` is the first with its key: no earlier entry has it.
pub open spec fn first_key(entries: Seq<(Seq<u8>, ValueV)>, j: int) -> bool {
    forall|k: int| 0 <= k < j ==> #[trigger] entries[k].0 != entries[j].0
}

/// Whether the entry at `j` is the first with its key: a dictionary's later duplicates are
/// shadowed.
pub(crate) fn is_first(entries: &Vec<Entry>, j: usize) -> (r: bool)
    requires
        j < entries@.len(),
    ensures
        r == first_key(entries_view(entries@), j as int),
{
    let ghost es = entries_view(entries@);
    let mut k: usize = 0;
    while k < j
        invariant
            j < entries@.len(),
            k <= j,
            es == entries_view(entries@),
            forall|i: int| 0 <= i < k ==> #[trigger] es[i].0 != es[j as int].0,
        decreases j - k,
    {
        assert(es[k as int].0 == entries@[k as int].key@ && es[j as int].0 == entries@[j as int].key@);
        if same_name(&entries[k].key, &entries[j].key) {
            return false;
        }
        k += 1;
    }
    true
}

/// How many of the `(from, form)` pairs in `s` are to form `x`.
pub open spec fn draws_of(s: Seq<(usize, usize)>, x: int) -> nat
    decreases s.len(),
{
    if s.len() == 0 {
        0
    } else {
        draws_of(s.drop_last(), x) + if s.last().1 as int == x { 1nat } else { 0nat }
    }
}

/// Two references from different places to one form are two draws of it.
pub proof fn lemma_two_references_two_draws(s: Seq<(usize, usize)>, x: usize, p: usize, q: usize)
    requires
        s.contains((p, x)),
        s.contains((q, x)),
        p != q,
    ensures
        draws_of(s, x as int) >= 2,
    decreases s.len(),
{
    let last = s.last();
    let rest = s.drop_last();
    if last == (p, x) {
        let k = choose|k: int| 0 <= k < s.len() && s[k] == (q, x);
        assert(k < s.len() - 1);
        assert(rest[k] == (q, x));
        lemma_one_reference_one_draw(rest, x, q);
    } else if last == (q, x) {
        let k = choose|k: int| 0 <= k < s.len() && s[k] == (p, x);
        assert(k < s.len() - 1);
        assert(rest[k] == (p, x));
        lemma_one_reference_one_draw(rest, x, p);
    } else {
        let k = choose|k: int| 0 <= k < s.len() && s[k] == (p, x);
        let m = choose|m: int| 0 <= m < s.len() && s[m] == (q, x);
        assert(rest[k] == (p, x));
        assert(rest[m] == (q, x));
        lemma_two_references_two_draws(rest, x, p, q);
    }
}

/// A reference to a form is a draw of it.
pub proof fn lemma_one_reference_one_draw(s: Seq<(usize, usize)>, x: usize, p: usize)
    requires
        s.contains((p, x)),
    ensures
        draws_of(s, x as int) >= 1,
    decreases s.len(),
{
    if s.last() != (p, x) {
        let k = choose|k: int| 0 <= k < s.len() && s[k] == (p, x);
        assert(s.drop_last()[k] == (p, x));
        lemma_one_reference_one_draw(s.drop_last(), x, p);
    }
}

/// The walk's state: what it has counted, what it has already descended, and what is open.
struct Walk {
    n: usize,
    page_count: usize,
    /// Forms referenced straight from a page's resources or annotations, per form.
    direct: Vec<usize>,
    /// One `(container, form)` per reference from a container's resources.
    edges: Vec<(usize, usize)>,
    /// Subtrees already descended, so a form referenced many times costs its subtree once.
    descended: Vec<bool>,
    /// The objects on the current path, for cycle detection: a form appearing twice is
    /// sharing, a form on its own path is a cycle.
    open: Vec<usize>,
    /// Which stream's resources are being read, or `None` at page level.
    container: Option<usize>,
    /// Fonts whose `/Resources` have been read, so a branching ladder of Type 3 fonts costs
    /// each rung once.
    fonts_read: Vec<bool>,
    dictionaries_read: usize,
    /// `(page, font)`: fonts each page names directly.
    page_fonts: Vec<(usize, usize)>,
    /// `(container, font)`: fonts each container names.
    container_fonts: Vec<(usize, usize)>,
    /// `(font, part)`: each font's indirect `/ToUnicode`, `/Encoding` and `/Widths`.
    font_parts: Vec<(usize, usize)>,
    content_refs: Vec<usize>,
    content_pages: Vec<Vec<usize>>,
    /// `(page, form)`: forms each page reaches directly.
    page_reaches: Vec<(usize, usize)>,
    at_page: usize,
    /// When each stream left the path, in the order the walk finished them.
    finish: Ghost<Seq<nat>>,
    /// How many streams the walk has finished.
    tick: Ghost<nat>,
}

/// Whether every pair joins two objects of a table of `n`.
pub open spec fn pairs_within(v: Seq<(usize, usize)>, a: nat, b: nat) -> bool {
    forall|i: int| 0 <= i < v.len() ==> (#[trigger] v[i]).0 < a && v[i].1 < b
}

impl Walk {
    spec fn wf(&self) -> bool {
        let n = self.n as nat;
        let pc = self.page_count as nat;
        &&& self.direct@.len() == n
        &&& self.descended@.len() == n
        &&& self.fonts_read@.len() == n
        &&& self.content_refs@.len() == n
        &&& self.content_pages@.len() == n
        &&& edges_within(self.edges@, n)
        &&& pairs_within(self.page_fonts@, pc, n)
        &&& pairs_within(self.container_fonts@, n, n)
        &&& pairs_within(self.font_parts@, n, n)
        &&& pairs_within(self.page_reaches@, pc, n)
        &&& forall|i: int| 0 <= i < self.open@.len() ==> #[trigger] self.open@[i] < n
        &&& (self.container matches Some(c) ==> c < n)
        &&& self.at_page <= pc
        &&& self.dictionaries_read <= MAX_RESOURCE_DICTIONARIES
        &&& forall|x: int, k: int| 0 <= x < n && 0 <= k < self.content_pages@[x]@.len() ==> #[trigger] self.content_pages@[x]@[k] < pc
        &&& forall|x: int| 0 <= x < n ==> #[trigger] self.direct@[x] == capped(draws_of(self.page_reaches@, x) as int)
    }

    /// The tables for page content streams are the ones only [`Self::page_contents`] writes.
    spec fn same_contents(&self, other: &Walk) -> bool {
        &&& self.n == other.n
        &&& self.page_count == other.page_count
        &&& self.at_page == other.at_page
        &&& self.content_refs@ == other.content_refs@
        &&& self.content_pages@ == other.content_pages@
        &&& self.container == other.container
        &&& self.open@ == other.open@
    }

    /// The walk has only added to what it had at `old`: more dictionaries read, nothing
    /// descended forgotten, no use count lowered, and every list extended, never rewritten.
    spec fn grows(&self, old: &Walk) -> bool {
        &&& self.dictionaries_read >= old.dictionaries_read
        &&& self.descended@.len() == old.descended@.len()
        &&& forall|x: int| 0 <= x < old.descended@.len() && #[trigger] old.descended@[x] ==> self.descended@[x]
        &&& self.direct@.len() == old.direct@.len()
        &&& forall|x: int| 0 <= x < old.direct@.len() ==> #[trigger] self.direct@[x] >= old.direct@[x]
        &&& extends(old.edges@, self.edges@)
        &&& extends(old.page_reaches@, self.page_reaches@)
        &&& extends(old.page_fonts@, self.page_fonts@)
        &&& extends(old.container_fonts@, self.container_fonts@)
        &&& extends(old.font_parts@, self.font_parts@)
    }

    /// Form `x` is recorded as used from where the walk stands: from the current page when
    /// it reads a page's own resources, else from the container whose resources it reads.
    spec fn counted(&self, x: nat) -> bool {
        match self.container {
            None => self.page_reaches@.contains((self.at_page, x as usize)),
            Some(p) => self.edges@.contains((p, x as usize)),
        }
    }

    /// Whatever stream `v` refers to has been descended, and counted as a use when `count`
    /// says so.
    spec fn reached(&self, d: DocumentV, v: Option<ValueV>, count: bool) -> bool {
        match crate::scope::stream_target(d, v) {
            Some(x) => x < self.descended@.len() && self.descended@[x as int] && (count ==> self.counted(x)),
            None => true,
        }
    }

    /// Every entry of dictionary `dict`, the first with its key, has been reached.
    spec fn all_reached(&self, d: DocumentV, dict: nat, count: bool) -> bool {
        forall|j: int| 0 <= j < entries_of(d.objects[dict as int]).len() && first_key(entries_of(d.objects[dict as int]), j)
            ==> #[trigger] self.reached(d, Some(entries_of(d.objects[dict as int])[j].1), count)
    }

    /// Font `id` is recorded as named from where the walk stands.
    spec fn font_noted(&self, id: nat) -> bool {
        match self.container {
            None => self.page_fonts@.contains((self.at_page, id as usize)),
            Some(p) => self.container_fonts@.contains((p, id as usize)),
        }
    }

    /// Every font resource dictionary `res` names, the first entry with its key, is recorded.
    spec fn fonts_noted(&self, d: DocumentV, res: nat) -> bool {
        match dictionary_target(d, key_of(d, res, crate::names::spec_font())) {
            Some(f) => forall|j: int| 0 <= j < entries_of(d.objects[f as int]).len() && first_key(entries_of(d.objects[f as int]), j)
                ==> (#[trigger] target(d, Some(entries_of(d.objects[f as int])[j].1)) matches Some(id) ==> self.font_noted(id)),
            None => true,
        }
    }

    /// Resource dictionary `res` has been read: its forms reached and counted, its patterns
    /// reached, and its fonts recorded.
    spec fn resources_walked(&self, d: DocumentV, res: nat) -> bool {
        &&& match dictionary_target(d, key_of(d, res, crate::names::spec_x_object())) {
            Some(x) => self.all_reached(d, x, true),
            None => true,
        }
        &&& match dictionary_target(d, key_of(d, res, crate::names::spec_pattern())) {
            Some(x) => self.all_reached(d, x, false),
            None => true,
        }
        &&& self.fonts_noted(d, res)
    }

    /// Annotation `item`'s appearance under state key `sk` has been reached and counted: a
    /// stream, or every stream of a dictionary of states.
    spec fn appearance_done(&self, d: DocumentV, item: ValueV, sk: Seq<u8>) -> bool {
        match target(d, Some(item)) {
            None => true,
            Some(k) => match dictionary_target(d, key_of(d, k, crate::names::spec_ap())) {
                None => true,
                Some(aps) => {
                    let v = key_of(d, aps, sk);
                    match dictionary_target(d, v) {
                        Some(bs) => self.all_reached(d, bs, true),
                        None => self.reached(d, v, true),
                    }
                },
            },
        }
    }

    /// Every appearance of every annotation of page `page` has been reached and counted,
    /// and every entry of its `/Annots` is a dictionary or reads as null.
    spec fn appearances_walked(&self, d: DocumentV, page: nat) -> bool {
        match target(d, key_of(d, page, crate::names::spec_annots())) {
            Some(a) => match d.objects[a as int].body {
                BodyV::Array(vs) => (forall|j: int, s: int| 0 <= j < vs.len() && 0 <= s < 3
                    ==> #[trigger] self.appearance_done(d, vs[j], state_key(s)))
                    && forall|j: int| 0 <= j < vs.len() ==> #[trigger] annotation_item_ok(d, vs[j]),
                _ => true,
            },
            None => true,
        }
    }

    /// Form `y`, drawn from where the walk stands, is a draw the document makes: the current
    /// page's at page level, else the draw of the stream whose resources are being read.
    spec fn source_ok(&self, d: DocumentV, y: nat) -> bool {
        match self.container {
            None => page_draws_form(d, self.at_page as int, y),
            Some(c) => stream_draws_form(d, c as nat, y),
        }
    }

    /// Every stream dictionary `dict` names, the first entry with its key, is drawn as
    /// [`Self::source_ok`] says.
    spec fn all_sourced(&self, d: DocumentV, dict: nat) -> bool {
        forall|j: int| 0 <= j < entries_of(d.objects[dict as int]).len() && first_key(entries_of(d.objects[dict as int]), j)
            ==> (#[trigger] crate::scope::stream_target(d, Some(entries_of(d.objects[dict as int])[j].1)) matches Some(y)
                ==> self.source_ok(d, y))
    }

    /// Resource dictionary `r` is one the walk reads where it stands.
    spec fn reading(&self, d: DocumentV, r: nat) -> bool {
        match self.container {
            None => read_for_page(d, self.at_page as int, r),
            Some(c) => read_for_stream(d, c as nat, r),
        }
    }

    /// Everything recorded is something the document does: each form a page reaches it
    /// draws, each reference is a stream's draw, and each font recorded is named where it is
    /// recorded.
    spec fn justified(&self, d: DocumentV) -> bool {
        &&& forall|k: int| #![trigger self.page_reaches@[k]] 0 <= k < self.page_reaches@.len()
            ==> page_draws_form(d, self.page_reaches@[k].0 as int, self.page_reaches@[k].1 as nat)
        &&& forall|k: int| #![trigger self.edges@[k]] 0 <= k < self.edges@.len()
            ==> stream_draws_form(d, self.edges@[k].0 as nat, self.edges@[k].1 as nat)
        &&& forall|k: int| #![trigger self.page_fonts@[k]] 0 <= k < self.page_fonts@.len()
            ==> page_names_font(d, self.page_fonts@[k].0 as int, self.page_fonts@[k].1 as nat)
        &&& forall|k: int| #![trigger self.container_fonts@[k]] 0 <= k < self.container_fonts@.len()
            ==> stream_names_font(d, self.container_fonts@[k].0 as nat, self.container_fonts@[k].1 as nat)
    }

    /// Apart from the tables for page content streams, `self` is `other`.
    spec fn untouched(&self, other: &Walk) -> bool {
        &&& self.n == other.n
        &&& self.page_count == other.page_count
        &&& self.at_page == other.at_page
        &&& self.container == other.container
        &&& self.open@ == other.open@
        &&& self.direct@ == other.direct@
        &&& self.edges@ == other.edges@
        &&& self.descended@ == other.descended@
        &&& self.fonts_read@ == other.fonts_read@
        &&& self.dictionaries_read == other.dictionaries_read
        &&& self.page_fonts@ == other.page_fonts@
        &&& self.container_fonts@ == other.container_fonts@
        &&& self.font_parts@ == other.font_parts@
        &&& self.page_reaches@ == other.page_reaches@
        &&& self.finish@ == other.finish@
        &&& self.tick@ == other.tick@
    }

    /// Whatever stream `v` refers to has been descended and recorded as drawn by stream `c`.
    spec fn drawn_by(&self, d: DocumentV, v: Option<ValueV>, c: nat) -> bool {
        match crate::scope::stream_target(d, v) {
            Some(y) => y < self.descended@.len() && self.descended@[y as int] && self.edges@.contains((c as usize, y as usize)),
            None => true,
        }
    }

    /// Every form the resources of stream `x` name, the first entry with its key, has been
    /// descended and recorded as drawn by `x`.
    spec fn forms_recorded(&self, d: DocumentV, x: nat) -> bool {
        match dictionary_target(d, key_of(d, x, crate::names::spec_resources())) {
            Some(r) => {
                &&& match dictionary_target(d, key_of(d, r, crate::names::spec_x_object())) {
                    Some(xd) => forall|j: int| 0 <= j < entries_of(d.objects[xd as int]).len() && first_key(entries_of(d.objects[xd as int]), j)
                        ==> #[trigger] self.drawn_by(d, Some(entries_of(d.objects[xd as int])[j].1), x),
                    None => true,
                }
                &&& match dictionary_target(d, key_of(d, r, crate::names::spec_font())) {
                    Some(f) => forall|j: int| 0 <= j < entries_of(d.objects[f as int]).len() && first_key(entries_of(d.objects[f as int]), j)
                        ==> (#[trigger] target(d, Some(entries_of(d.objects[f as int])[j].1)) matches Some(id)
                            ==> self.container_fonts@.contains((x as usize, id as usize))),
                    None => true,
                }
            },
            None => true,
        }
    }

    /// Every stream descended and no longer on the path has had its forms recorded, and the
    /// references recorded between streams go from later finished to earlier.
    spec fn closed_under(&self, d: DocumentV) -> bool {
        &&& forall|x: int| 0 <= x < self.descended@.len() && #[trigger] self.descended@[x]
            ==> self.open@.contains(x as usize) || self.forms_recorded(d, x as nat)
        &&& self.ordered()
        &&& forall|k: int| 0 <= k < self.page_reaches@.len() ==> #[trigger] self.descended@[self.page_reaches@[k].1 as int]
    }

    /// Stream `x` has been descended and is no longer on the path.
    spec fn finished(&self, x: int) -> bool {
        0 <= x < self.descended@.len() && self.descended@[x] && !self.open@.contains(x as usize)
    }

    /// A reference recorded from `e.0` to `e.1`: the second is finished, and the first is on
    /// the path or finished after it.
    spec fn edge_ordered(&self, e: (usize, usize)) -> bool {
        &&& self.finished(e.1 as int)
        &&& self.open@.contains(e.0) || (self.finished(e.0 as int) && self.finish@[e.1 as int] < self.finish@[e.0 as int])
    }

    /// Finished streams carry their finishing time, every recorded reference between streams
    /// is ordered, and the stream whose resources are being read is on the path.
    spec fn ordered(&self) -> bool {
        &&& self.finish@.len() == self.descended@.len()
        &&& forall|x: int| #[trigger] self.finished(x) ==> self.finish@[x] < self.tick@
        &&& forall|k: int| 0 <= k < self.edges@.len() ==> #[trigger] self.edge_ordered(self.edges@[k])
        &&& (self.container matches Some(c) ==> self.open@.contains(c))
    }

    /// Whatever stream `v` refers to has been descended and recorded as drawn by page `pi`.
    spec fn page_drawn(&self, d: DocumentV, v: Option<ValueV>, pi: usize) -> bool {
        match crate::scope::stream_target(d, v) {
            Some(y) => y < self.descended@.len() && self.descended@[y as int] && self.page_reaches@.contains((pi, y as usize)),
            None => true,
        }
    }

    /// Resource dictionary `res` has been read as page `pi`'s: every form it names descended
    /// and recorded as drawn by the page, every font it names recorded as used by the page.
    spec fn page_recorded(&self, d: DocumentV, pi: usize, res: nat) -> bool {
        &&& match dictionary_target(d, key_of(d, res, crate::names::spec_x_object())) {
            Some(xd) => forall|j: int| 0 <= j < entries_of(d.objects[xd as int]).len() && first_key(entries_of(d.objects[xd as int]), j)
                ==> #[trigger] self.page_drawn(d, Some(entries_of(d.objects[xd as int])[j].1), pi),
            None => true,
        }
        &&& match dictionary_target(d, key_of(d, res, crate::names::spec_font())) {
            Some(f) => forall|j: int| 0 <= j < entries_of(d.objects[f as int]).len() && first_key(entries_of(d.objects[f as int]), j)
                ==> (#[trigger] target(d, Some(entries_of(d.objects[f as int])[j].1)) matches Some(id)
                    ==> self.page_fonts@.contains((pi, id as usize))),
            None => true,
        }
    }

    /// Page `j` of the document has had its resources recorded, where it has any.
    spec fn page_done(&self, d: DocumentV, j: int) -> bool {
        match page_resources(d, d.pages[j]) {
            Some(Some(res)) => self.page_recorded(d, j as usize, res),
            _ => true,
        }
    }

    /// The streams on the path, from the first descended to the container, each drawn by the
    /// one before; at page level the path is empty.
    spec fn chained(&self, d: DocumentV) -> bool {
        &&& (self.container is None <==> self.open@.len() == 0)
        &&& (self.container matches Some(c) ==> self.open@.last() == c)
        &&& forall|i: int| #![trigger self.open@[i]] 0 <= i < self.open@.len() - 1
            ==> descends_to(d, self.open@[i] as nat, self.open@[i + 1] as nat)
    }

    /// Stream `y` may be drawn from where the walk stands at `depth`: the container's
    /// resources draw it, and under a ranking `h` its own resources fit below `depth`.
    spec fn may_draw(&self, d: DocumentV, h: spec_fn(nat) -> nat, depth: int, y: nat) -> bool {
        &&& (self.container matches Some(c) ==> descends_to(d, c as nat, y))
        &&& (layered(d, h) ==> fits(d, h, y, depth))
    }

    /// Every stream dictionary `dict` names, the first entry with its key, may be drawn.
    spec fn all_may_draw(&self, d: DocumentV, h: spec_fn(nat) -> nat, depth: int, dict: nat) -> bool {
        forall|j: int| 0 <= j < entries_of(d.objects[dict as int]).len() && first_key(entries_of(d.objects[dict as int]), j)
            ==> (#[trigger] crate::scope::stream_target(d, Some(entries_of(d.objects[dict as int])[j].1)) matches Some(y)
                ==> self.may_draw(d, h, depth, y))
    }

    /// What the walk may have read: one dictionary for each page begun, and one for each
    /// stream descended and each font opened that carries resources of its own.
    spec fn allowance(&self, d: DocumentV) -> int {
        self.at_page + 1 + marked_count(self.n as nat, self.descended@, resourced_stream(d))
            + marked_count(self.n as nat, self.fonts_read@, resourced_glyph_font(d))
    }

    /// Record one reference to a content stream object from the current page.
    fn record_content(&mut self, object: usize)
        requires
            old(self).wf(),
            object < old(self).n,
            old(self).at_page < old(self).page_count,
        ensures
            final(self).wf(),
            final(self).untouched(old(self)),
            final(self).n == old(self).n && final(self).page_count == old(self).page_count && final(self).at_page == old(self).at_page,
            final(self).container == old(self).container && final(self).open@ == old(self).open@,
            final(self).content_refs@ == old(self).content_refs@.update(object as int, capped(old(self).content_refs@[object as int] + 1)),
            forall|x: int, p: usize| 0 <= x < old(self).n ==> (#[trigger] final(self).content_pages@[x]@.contains(p) <==>
                old(self).content_pages@[x]@.contains(p) || (x == object && p == old(self).at_page)),
    {
        let now = self.content_refs[object].saturating_add(1);
        self.content_refs.set(object, now);
        let at = self.at_page;
        let mut pages = self.content_pages[object].clone();
        assert(pages@ =~= old(self).content_pages@[object as int]@);
        let ghost before = pages@;
        pages.push(at);
        self.content_pages.set(object, pages);
        proof {
            assert forall|x: int, p: usize| 0 <= x < self.n implies (#[trigger] self.content_pages@[x]@.contains(p) <==>
                old(self).content_pages@[x]@.contains(p) || (x == object && p == old(self).at_page)) by {
                if x == object {
                    if self.content_pages@[x]@.contains(p) && p != at {
                        let k = choose|k: int| 0 <= k < self.content_pages@[x]@.len() && self.content_pages@[x]@[k] == p;
                        assert(before[k] == p);
                    }
                    if before.contains(p) {
                        let k = choose|k: int| 0 <= k < before.len() && before[k] == p;
                        assert(self.content_pages@[x]@[k] == p);
                    }
                    if p == at {
                        assert(self.content_pages@[x]@[before.len() as int] == p);
                    }
                }
            }
        }
    }
}

/// A stream the resources being read draw may be drawn from where the walk stands.
proof fn lemma_drawn_here(w: Walk, d: DocumentV, h: spec_fn(nat) -> nat, depth: int, res: nat, y: nat)
    requires
        w.reading(d, res),
        draws_stream(d, res, y),
        layered(d, h) ==> depth + h(res) <= MAX_RESOURCE_DEPTH,
    ensures
        w.may_draw(d, h, depth, y),
{
    if let Some(c) = w.container {
        assert(read_for_stream(d, c as nat, res));
    }
}

/// The glyph procedures of a font the resources being read name may be drawn from where the
/// walk stands.
proof fn lemma_glyph_procs_may_draw(w: Walk, d: DocumentV, h: spec_fn(nat) -> nat, depth: int, res: nat, f: nat, p: nat)
    requires
        w.reading(d, res),
        names_font(d, res, f),
        dictionary_target(d, key_of(d, f, crate::names::spec_char_procs())) == Some(p),
        layered(d, h) ==> depth + h(res) <= MAX_RESOURCE_DEPTH,
    ensures
        w.all_may_draw(d, h, depth, p),
{
    let es = entries_of(d.objects[p as int]);
    assert forall|q: int| 0 <= q < es.len() && first_key(es, q)
        implies (#[trigger] crate::scope::stream_target(d, Some(es[q].1)) matches Some(y) ==> w.may_draw(d, h, depth, y)) by {
        if let Some(y) = crate::scope::stream_target(d, Some(es[q].1)) {
            assert(dict_names_stream(d, p, y));
            assert(glyph_proc(d, f, y));
            assert(draws_stream(d, res, y));
            lemma_drawn_here(w, d, h, depth, res, y);
        }
    }
}

/// Below the allowance, a document within the dictionary cap leaves room for one more read.
proof fn lemma_work_room(w: Walk, d: DocumentV)
    requires
        w.wf(),
        w.n == d.objects.len(),
        w.at_page < w.page_count,
        w.page_count == d.pages.len(),
        within_work(d),
        w.dictionaries_read < w.allowance(d),
    ensures
        w.dictionaries_read < MAX_RESOURCE_DICTIONARIES,
{
    lemma_marked_at_most(w.n as nat, w.descended@, resourced_stream(d));
    lemma_marked_at_most(w.n as nat, w.fonts_read@, resourced_glyph_font(d));
}

/// Where a page's `/Resources` climb ends, above a node whose `/Parent` is `parent`: the
/// nearest node's resource dictionary, `Some(None)` when the climb leaves the page tree first,
/// `None` when it runs out of depth.
pub open spec fn resources_climb(d: DocumentV, parent: Option<ValueV>, fuel: nat) -> Option<Option<nat>>
    decreases fuel,
{
    if fuel == 0 {
        None
    } else {
        match dictionary_target(d, parent) {
            None => Some(None),
            Some(node) => match dictionary_target(d, key_of(d, node, crate::names::spec_resources())) {
                Some(r) => Some(Some(r)),
                None => resources_climb(d, key_of(d, node, crate::names::spec_parent()), (fuel - 1) as nat),
            },
        }
    }
}

/// The resource dictionary page `page` draws against: its own, else the nearest ancestor's.
pub open spec fn page_resources(d: DocumentV, page: nat) -> Option<Option<nat>> {
    match dictionary_target(d, key_of(d, page, crate::names::spec_resources())) {
        Some(r) => Some(Some(r)),
        None => resources_climb(d, key_of(d, page, crate::names::spec_parent()), MAX_PAGE_TREE_DEPTH as nat),
    }
}

/// The resource dictionary page `page` draws against.
///
/// # Errors
///
/// `Malformed` for a `/Parent` chain deeper than the walk climbs, which a cycle in the page
/// tree also produces.
pub fn inherited_resources(d: &Document, page: usize) -> (r: Result<Option<usize>>)
    ensures
        r is Ok <==> page_resources(d@, page as nat) is Some,
        r is Ok ==> (match r->Ok_0 {
            Some(x) => Some(x as nat),
            None => None::<nat>,
        }) == page_resources(d@, page as nat)->0,
        r is Err ==> page_tree_refusal(r->Err_0),
{
    let rk = resources();
    let pk = parent();
    let own = d.dictionary_target(d.get(page, &rk));
    if own.is_some() {
        return Ok(own);
    }
    let mut current = d.get(page, &pk);
    let mut fuel: u32 = MAX_PAGE_TREE_DEPTH;
    let ghost goal = page_resources(d@, page as nat);
    while fuel > 0
        invariant
            rk@ == crate::names::spec_resources(),
            pk@ == crate::names::spec_parent(),
            fuel <= MAX_PAGE_TREE_DEPTH,
            goal == page_resources(d@, page as nat),
            resources_climb(d@, crate::graph::opt_view(current), fuel as nat) == goal,
        decreases fuel,
    {
        match d.dictionary_target(current) {
            None => {
                return Ok(None);
            },
            Some(node) => {
                let found = d.dictionary_target(d.get(node, &rk));
                if found.is_some() {
                    return Ok(found);
                }
                current = d.get(node, &pk);
            },
        }
        fuel -= 1;
    }
    Err(malformed(
        "qpdf sharing [page-tree-depth]: a /Parent chain deeper than burrow will climb, which a cycle in the page tree also produces",
    ))
}

impl Walk {
    /// Count every reference the current page's `/Contents` makes to a content stream.
    ///
    /// Counted per reference, not per page: `/Contents [5 0 R 5 0 R]` is one page drawing
    /// one stream twice, and an edit to it applies at both positions.
    fn page_contents(&mut self, d: &Document, page: usize) -> (r: Result<()>)
        requires
            old(self).wf(),
            old(self).n == d@.objects.len(),
            old(self).at_page < old(self).page_count,
        ensures
            final(self).wf(),
            final(self).untouched(old(self)),
            final(self).n == old(self).n && final(self).page_count == old(self).page_count && final(self).at_page == old(self).at_page,
            final(self).container == old(self).container && final(self).open@ == old(self).open@,
            r is Err <==> contents_too_long(d@, page as nat),
            r is Err ==> too_many_refusal(r->Err_0),
            r is Ok ==> forall|x: int| 0 <= x < old(self).n ==> #[trigger] final(self).content_refs@[x]
                == capped(old(self).content_refs@[x] + occurrences(page_streams(d@, page as nat), x)),
            r is Ok ==> forall|x: int, p: usize| 0 <= x < old(self).n ==> (#[trigger] final(self).content_pages@[x]@.contains(p) <==>
                old(self).content_pages@[x]@.contains(p) || (p == old(self).at_page && page_streams(d@, page as nat).contains(x as nat))),
    {
        let ck = contents();
        let value = d.get(page, &ck);
        let ghost streams = page_streams(d@, page as nat);
        match d.target(value) {
            Some(i) => match &d.objects[i].body {
                Body::Stream(_, _) => {
                    let ghost before = *self;
                    self.record_content(i);
                    proof {
                        assert(streams == seq![i as nat]);
                        assert(streams.drop_last() =~= Seq::<nat>::empty());
                        assert(occurrences(Seq::<nat>::empty(), 0) == 0);
                        assert forall|x: int| 0 <= x < old(self).n implies #[trigger] self.content_refs@[x]
                            == capped(old(self).content_refs@[x] + occurrences(streams, x)) by {
                            assert(occurrences(streams.drop_last(), x) == 0);
                        }
                        assert forall|x: int, p: usize| 0 <= x < old(self).n implies (#[trigger] self.content_pages@[x]@.contains(p) <==>
                            old(self).content_pages@[x]@.contains(p) || (p == old(self).at_page && streams.contains(x as nat))) by {
                            if streams.contains(x as nat) {
                                assert(streams[0] == x as nat);
                            }
                            if x == i as int {
                                assert(streams[0] == x as nat);
                            }
                        }
                    }
                    Ok(())
                },
                Body::Array(vs) => {
                    if vs.len() > MAX_CONTENTS_ELEMENTS {
                        return Err(unsupported(
                            "pdf redaction [contents-too-many]: a /Contents array with more elements than burrow will read",
                        ));
                    }
                    let ghost vv = crate::graph::values_view(vs@);
                    assert(streams == streams_in(d@, vv));
                    let ghost start = *self;
                    let mut j: usize = 0;
                    while j < vs.len()
                        invariant
                            self.wf(),
                            self.n == d@.objects.len(),
                            self.n == start.n && self.page_count == start.page_count && self.at_page == start.at_page,
                            self.container == start.container && self.open@ == start.open@,
                            self.untouched(&start),
                            self.at_page < self.page_count,
                            vv == crate::graph::values_view(vs@),
                            j <= vs@.len(),
                            forall|x: int| 0 <= x < start.n ==> #[trigger] self.content_refs@[x]
                                == capped(start.content_refs@[x] + occurrences(streams_in(d@, vv.take(j as int)), x)),
                            forall|x: int, p: usize| 0 <= x < start.n ==> (#[trigger] self.content_pages@[x]@.contains(p) <==>
                                start.content_pages@[x]@.contains(p) || (p == start.at_page && streams_in(d@, vv.take(j as int)).contains(x as nat))),
                        decreases vs.len() - j,
                    {
                        let ghost t = vv.take(j + 1);
                        proof {
                            assert(t.drop_last() =~= vv.take(j as int));
                            assert(t.last() == vs@[j as int]@);
                        }
                        let ghost prefix = streams_in(d@, vv.take(j as int));
                        let element = d.target(Some(&vs[j]));
                        let ghost mid = *self;
                        match element {
                            Some(k) => {
                                match &d.objects[k].body {
                                    Body::Stream(_, _) => {
                                        self.record_content(k);
                                        proof {
                                            assert(streams_in(d@, t) == prefix.push(k as nat));
                                            assert(streams_in(d@, t).drop_last() =~= prefix);
                                            assert forall|x: int, p: usize| 0 <= x < start.n implies (#[trigger] self.content_pages@[x]@.contains(p) <==>
                                                start.content_pages@[x]@.contains(p) || (p == start.at_page && streams_in(d@, t).contains(x as nat))) by {
                                                if streams_in(d@, t).contains(x as nat) && !prefix.contains(x as nat) {
                                                    let w = choose|w: int| 0 <= w < streams_in(d@, t).len() && streams_in(d@, t)[w] == x as nat;
                                                    assert(w == prefix.len());
                                                }
                                                if prefix.contains(x as nat) {
                                                    let w = choose|w: int| 0 <= w < prefix.len() && prefix[w] == x as nat;
                                                    assert(streams_in(d@, t)[w] == x as nat);
                                                }
                                                if x == k as int {
                                                    assert(streams_in(d@, t)[prefix.len() as int] == x as nat);
                                                }
                                            }
                                        }
                                    },
                                    _ => {
                                        assert(streams_in(d@, t) =~= prefix);
                                    },
                                }
                            },
                            None => {
                                assert(streams_in(d@, t) =~= prefix);
                            },
                        }
                        j += 1;
                    }
                    assert(vv.take(vs@.len() as int) =~= vv);
                    Ok(())
                },
                Body::Dictionary(_) => {
                    assert(streams =~= Seq::<nat>::empty());
                    Ok(())
                },
            },
            None => {
                assert(streams =~= Seq::<nat>::empty());
                Ok(())
            },
        }
    }
}

/// Whether `v` holds `x`.
fn holds(v: &Vec<usize>, x: usize) -> (r: bool)
    ensures
        r == v@.contains(x),
{
    let mut i: usize = 0;
    while i < v.len()
        invariant
            i <= v@.len(),
            forall|j: int| 0 <= j < i ==> v@[j] != x,
        decreases v.len() - i,
    {
        if v[i] == x {
            return true;
        }
        i += 1;
    }
    false
}

/// `b` is `a` with more after it.
pub open spec fn extends<T>(a: Seq<T>, b: Seq<T>) -> bool {
    a.len() <= b.len() && forall|i: int| 0 <= i < a.len() ==> #[trigger] b[i] == a[i]
}

/// Whether an `/Annots` entry is one the walk reads: null, or an annotation dictionary (a
/// stream's dictionary counts).
pub open spec fn annotation_item_ok(d: DocumentV, v: ValueV) -> bool {
    ||| crate::graph::reads_null(d, Some(v))
    ||| (target(d, Some(v)) matches Some(k) && (d.objects[k as int].body is Dictionary || d.objects[k as int].body is Stream))
}

/// Whether every entry of page `page`'s `/Annots` array is one the walk reads.
pub open spec fn annotations_readable(d: DocumentV, page: nat) -> bool {
    match target(d, key_of(d, page, crate::names::spec_annots())) {
        Some(a) => match d.objects[a as int].body {
            BodyV::Array(vs) => forall|j: int| 0 <= j < vs.len() ==> #[trigger] annotation_item_ok(d, vs[j]),
            _ => true,
        },
        None => true,
    }
}

/// Every entry of a readable `/Annots` array is one the walk reads.
proof fn lemma_readable_items(d: DocumentV, page: nat, a: nat, vs: Seq<ValueV>)
    requires
        target(d, key_of(d, page, crate::names::spec_annots())) == Some(a),
        d.objects[a as int].body == BodyV::Array(vs),
        annotations_readable(d, page),
    ensures
        forall|i: int| 0 <= i < vs.len() ==> #[trigger] annotation_item_ok(d, vs[i]),
{
    let t = target(d, key_of(d, page, crate::names::spec_annots()));
    assert(t->0 == a);
    let b = d.objects[a as int].body;
    assert(b->Array_0 == vs);
}

/// A page with no `/Annots` array, or whose every entry the walk reads, is readable.
proof fn lemma_readable(d: DocumentV, page: nat)
    requires
        match target(d, key_of(d, page, crate::names::spec_annots())) {
            Some(a) => match d.objects[a as int].body {
                BodyV::Array(vs) => forall|i: int| 0 <= i < vs.len() ==> #[trigger] annotation_item_ok(d, vs[i]),
                _ => true,
            },
            None => true,
        },
    ensures
        annotations_readable(d, page),
{
    let t = target(d, key_of(d, page, crate::names::spec_annots()));
    if let Some(a) = t {
        let b = d.objects[a as int].body;
        if let BodyV::Array(vs) = b {
            assert(forall|i: int| 0 <= i < vs.len() ==> #[trigger] annotation_item_ok(d, vs[i]));
        }
    }
}

/// One `/Annots` entry the walk cannot read makes the page's annotations unreadable.
proof fn lemma_unreadable(d: DocumentV, page: nat, a: nat, vs: Seq<ValueV>, j: int)
    requires
        target(d, key_of(d, page, crate::names::spec_annots())) == Some(a),
        d.objects[a as int].body == BodyV::Array(vs),
        0 <= j < vs.len(),
        !annotation_item_ok(d, vs[j]),
    ensures
        !annotations_readable(d, page),
{
    let t = target(d, key_of(d, page, crate::names::spec_annots()));
    assert(t is Some);
    assert(t->0 == a);
    let b = d.objects[a as int].body;
    assert(b is Array);
    assert(b->Array_0 == vs);
    if annotations_readable(d, page) {
        assert(annotation_item_ok(d, vs[j]));
    }
}

/// No stream carries a resource dictionary of its own, and neither does a font with glyph
/// procedures: every resource dictionary the walk reads is a page's.
pub open spec fn flat(d: DocumentV) -> bool {
    forall|x: int| 0 <= x < d.objects.len() ==> {
        &&& (#[trigger] d.objects[x]).body is Stream ==> dictionary_target(d, key_of(d, x as nat, crate::names::spec_resources())) is None
        &&& dictionary_target(d, key_of(d, x as nat, crate::names::spec_char_procs())) is Some
            ==> dictionary_target(d, key_of(d, x as nat, crate::names::spec_resources())) is None
    }
}

/// A document the walk counts whenever the clock allows: no stream or glyph-procedure font
/// carries resources of its own, no more pages than resource dictionaries the walk reads, and
/// every page with a readable `/Contents`, resources it can find, and readable `/Annots`.
pub open spec fn countable(d: DocumentV) -> bool {
    &&& walkable(d)
    &&& forall|i: int| 0 <= i < d.pages.len() ==> annotations_readable(d, #[trigger] d.pages[i])
}

/// A document the walk reads through to every page's `/Annots` whenever the clock allows:
/// [`countable`] but for what the `/Annots` arrays hold.
pub open spec fn walkable(d: DocumentV) -> bool {
    &&& flat(d)
    &&& d.pages.len() <= MAX_RESOURCE_DICTIONARIES
    &&& forall|i: int| 0 <= i < d.pages.len() ==> {
        &&& !contents_too_long(d, #[trigger] d.pages[i])
        &&& page_resources(d, d.pages[i]) is Some
    }
}

/// Resource dictionary `r` names form `y` under `/XObject`, the first entry with its key.
pub open spec fn names_form(d: DocumentV, r: nat, y: nat) -> bool {
    match dictionary_target(d, key_of(d, r, crate::names::spec_x_object())) {
        Some(xd) => exists|j: int| 0 <= j < entries_of(d.objects[xd as int]).len() && first_key(entries_of(d.objects[xd as int]), j)
            && #[trigger] crate::scope::stream_target(d, Some(entries_of(d.objects[xd as int])[j].1)) == Some(y),
        None => false,
    }
}

/// Resource dictionary `r` names font `f` under `/Font`, the first entry with its key.
pub open spec fn names_font(d: DocumentV, r: nat, f: nat) -> bool {
    match dictionary_target(d, key_of(d, r, crate::names::spec_font())) {
        Some(fd) => exists|j: int| 0 <= j < entries_of(d.objects[fd as int]).len() && first_key(entries_of(d.objects[fd as int]), j)
            && #[trigger] target(d, Some(entries_of(d.objects[fd as int])[j].1)) == Some(f),
        None => false,
    }
}

/// Resource dictionary `r` names a font with glyph procedures whose own resources are `r2`:
/// reading `r` reads `r2` too.
pub open spec fn glyph_font_step(d: DocumentV, r: nat, r2: nat) -> bool {
    exists|f: nat| #[trigger] names_font(d, r, f) && dictionary_target(d, key_of(d, f, crate::names::spec_char_procs())) is Some
        && dictionary_target(d, key_of(d, f, crate::names::spec_resources())) == Some(r2)
}

/// Reading resource dictionary `r0` reads each dictionary of `path` in turn, each one step
/// through a font with glyph procedures from the one before.
pub open spec fn reads_along(d: DocumentV, r0: nat, path: Seq<nat>) -> bool {
    &&& path.len() >= 1
    &&& path[0] == r0
    &&& forall|i: int| #![trigger path[i]] 0 <= i < path.len() - 1 ==> glyph_font_step(d, path[i], path[i + 1])
}

/// One more step through a font with glyph procedures is one more dictionary read.
pub proof fn lemma_reads_one_more(d: DocumentV, r0: nat, path: Seq<nat>, r2: nat)
    requires
        reads_along(d, r0, path),
        glyph_font_step(d, path.last(), r2),
    ensures
        reads_along(d, r0, path.push(r2)),
{
    let q = path.push(r2);
    assert forall|i: int| #![trigger q[i]] 0 <= i < q.len() - 1 implies glyph_font_step(d, q[i], q[i + 1]) by {
        if i < path.len() - 1 {
            assert(q[i] == path[i] && q[i + 1] == path[i + 1]);
            assert(glyph_font_step(d, path[i], path[i + 1]));
        } else {
            assert(q[i] == path.last());
        }
    }
}

/// Resource dictionary `r` is read as page `p`'s: its own or inherited resources, or reached
/// from them through fonts with glyph procedures.
pub open spec fn read_for_page(d: DocumentV, p: int, r: nat) -> bool {
    match page_resources(d, d.pages[p]) {
        Some(Some(r0)) => exists|path: Seq<nat>| #[trigger] reads_along(d, r0, path) && path.last() == r,
        _ => false,
    }
}

/// Resource dictionary `r` is read as stream `c`'s: its own resources, or reached from them
/// through fonts with glyph procedures.
pub open spec fn read_for_stream(d: DocumentV, c: nat, r: nat) -> bool {
    match dictionary_target(d, key_of(d, c, crate::names::spec_resources())) {
        Some(r0) => exists|path: Seq<nat>| #[trigger] reads_along(d, r0, path) && path.last() == r,
        None => false,
    }
}

/// Stream `y` is an appearance of an annotation on page object `page`: under `/N`, `/D` or
/// `/R` of its `/AP`, itself or in a dictionary of states.
pub open spec fn appearance_of(d: DocumentV, page: nat, y: nat) -> bool {
    match target(d, key_of(d, page, crate::names::spec_annots())) {
        Some(a) => match d.objects[a as int].body {
            BodyV::Array(vs) => exists|i: int, s: int| 0 <= i < vs.len() && 0 <= s < 3 && #[trigger] appears_under(d, vs[i], state_key(s), y),
            _ => false,
        },
        None => false,
    }
}

/// Stream `y` is annotation `item`'s appearance under state key `sk`.
pub open spec fn appears_under(d: DocumentV, item: ValueV, sk: Seq<u8>, y: nat) -> bool {
    match target(d, Some(item)) {
        None => false,
        Some(k) => match dictionary_target(d, key_of(d, k, crate::names::spec_ap())) {
            None => false,
            Some(aps) => {
                let v = key_of(d, aps, sk);
                match dictionary_target(d, v) {
                    Some(bs) => exists|j: int| 0 <= j < entries_of(d.objects[bs as int]).len() && first_key(entries_of(d.objects[bs as int]), j)
                        && #[trigger] crate::scope::stream_target(d, Some(entries_of(d.objects[bs as int])[j].1)) == Some(y),
                    None => crate::scope::stream_target(d, v) == Some(y),
                }
            },
        },
    }
}

/// A stream that appears under a state of an entry of a page's `/Annots` is an appearance of
/// an annotation on that page.
proof fn lemma_appearance(d: DocumentV, page: nat, a: nat, vs: Seq<ValueV>, i: int, s: int, y: nat)
    requires
        target(d, key_of(d, page, crate::names::spec_annots())) == Some(a),
        d.objects[a as int].body == BodyV::Array(vs),
        0 <= i < vs.len(),
        0 <= s < 3,
        appears_under(d, vs[i], state_key(s), y),
    ensures
        appearance_of(d, page, y),
{
    let t = target(d, key_of(d, page, crate::names::spec_annots()));
    assert(t->0 == a);
    let b = d.objects[a as int].body;
    assert(b->Array_0 == vs);
    assert(exists|i2: int, s2: int| 0 <= i2 < vs.len() && 0 <= s2 < 3 && #[trigger] appears_under(d, vs[i2], state_key(s2), y));
}

/// A page's own or inherited resource dictionary is read as the page's.
proof fn lemma_page_reads_its_resources(d: DocumentV, p: int, r: nat)
    requires
        page_resources(d, d.pages[p]) == Some(Some(r)),
    ensures
        read_for_page(d, p, r),
{
    let path = seq![r];
    assert(reads_along(d, r, path));
    assert(path.last() == r);
    let pr = page_resources(d, d.pages[p]);
    assert(pr->0->0 == r);
    assert(exists|q: Seq<nat>| #[trigger] reads_along(d, r, q) && q.last() == r);
}

/// Page `p` draws form `y` straight from a resource dictionary it reads, or as an
/// annotation's appearance.
pub open spec fn page_draws_form(d: DocumentV, p: int, y: nat) -> bool {
    ||| exists|r: nat| #[trigger] read_for_page(d, p, r) && names_form(d, r, y)
    ||| appearance_of(d, d.pages[p], y)
}

/// Stream `c` draws form `y` from a resource dictionary it reads.
pub open spec fn stream_draws_form(d: DocumentV, c: nat, y: nat) -> bool {
    exists|r: nat| #[trigger] read_for_stream(d, c, r) && names_form(d, r, y)
}

/// Page `p` names font `f` in a resource dictionary it reads.
pub open spec fn page_names_font(d: DocumentV, p: int, f: nat) -> bool {
    exists|r: nat| #[trigger] read_for_page(d, p, r) && names_font(d, r, f)
}

/// Stream `c` names font `f` in a resource dictionary it reads.
pub open spec fn stream_names_font(d: DocumentV, c: nat, f: nat) -> bool {
    exists|r: nat| #[trigger] read_for_stream(d, c, r) && names_font(d, r, f)
}

/// The forms the first `k` of the entries `es` name, in order, the first entry with each key.
pub open spec fn form_draws(d: DocumentV, es: Seq<(Seq<u8>, ValueV)>, k: int) -> Seq<usize>
    decreases k,
{
    if k <= 0 {
        Seq::empty()
    } else {
        let before = form_draws(d, es, k - 1);
        match crate::scope::stream_target(d, Some(es[k - 1].1)) {
            Some(y) => if first_key(es, k - 1) { before.push(y as usize) } else { before },
            None => before,
        }
    }
}

/// The forms resource dictionary `r` names under `/XObject`, in order.
pub open spec fn dictionary_draws(d: DocumentV, r: nat) -> Seq<usize> {
    match dictionary_target(d, key_of(d, r, crate::names::spec_x_object())) {
        Some(xd) => form_draws(d, entries_of(d.objects[xd as int]), entries_of(d.objects[xd as int]).len() as int),
        None => Seq::empty(),
    }
}

/// `ys`, each paired with page `p`.
pub open spec fn tagged(p: usize, ys: Seq<usize>) -> Seq<(usize, usize)> {
    ys.map_values(|y: usize| (p, y))
}

/// The forms the resource dictionary of page `i` names, in order.
pub open spec fn page_draw_list(d: DocumentV, i: int) -> Seq<usize> {
    match page_resources(d, d.pages[i]) {
        Some(Some(r)) => dictionary_draws(d, r),
        _ => Seq::empty(),
    }
}

/// The forms the resource dictionaries of the first `k` pages name, each paired with its page,
/// page by page and in order within a page.
pub open spec fn document_draws(d: DocumentV, k: int) -> Seq<(usize, usize)>
    decreases k,
{
    if k <= 0 {
        Seq::empty()
    } else {
        document_draws(d, k - 1) + tagged((k - 1) as usize, page_draw_list(d, k - 1))
    }
}

/// No page has an annotation with an appearance stream.
pub open spec fn no_appearances(d: DocumentV) -> bool {
    forall|i: int, y: nat| 0 <= i < d.pages.len() ==> !#[trigger] appearance_of(d, d.pages[i], y)
}

/// With no entry naming a stream, the entries name no form.
proof fn lemma_form_draws_none(d: DocumentV, es: Seq<(Seq<u8>, ValueV)>, k: int)
    requires
        forall|i: int| 0 <= i < k && first_key(es, i) ==> #[trigger] crate::scope::stream_target(d, Some(es[i].1)) is None,
    ensures
        form_draws(d, es, k) == Seq::<usize>::empty(),
    decreases k,
{
    if k > 0 {
        lemma_form_draws_none(d, es, k - 1);
    }
}

/// Stream `x`'s own resources name `x` under `/XObject`, the first entry with its key: the
/// form draws itself.
pub open spec fn draws_itself(d: DocumentV, x: nat) -> bool {
    match dictionary_target(d, key_of(d, x, crate::names::spec_resources())) {
        Some(r) => match dictionary_target(d, key_of(d, r, crate::names::spec_x_object())) {
            Some(xd) => exists|j: int| 0 <= j < entries_of(d.objects[xd as int]).len() && first_key(entries_of(d.objects[xd as int]), j)
                && #[trigger] crate::scope::stream_target(d, Some(entries_of(d.objects[xd as int])[j].1)) == Some(x),
            None => false,
        },
        None => false,
    }
}

/// The resource dictionary a stream or font carries of its own, when it carries one.
pub open spec fn own_resources(d: DocumentV, x: nat) -> Option<nat> {
    dictionary_target(d, key_of(d, x, crate::names::spec_resources()))
}

/// Dictionary `dict` names stream `y`, the first entry with its key.
pub open spec fn dict_names_stream(d: DocumentV, dict: nat, y: nat) -> bool {
    exists|j: int| 0 <= j < entries_of(d.objects[dict as int]).len() && first_key(entries_of(d.objects[dict as int]), j)
        && #[trigger] crate::scope::stream_target(d, Some(entries_of(d.objects[dict as int])[j].1)) == Some(y)
}

/// Resource dictionary `r` names stream `y` as a tiling pattern under `/Pattern`.
pub open spec fn names_pattern(d: DocumentV, r: nat, y: nat) -> bool {
    match dictionary_target(d, key_of(d, r, crate::names::spec_pattern())) {
        Some(pd) => dict_names_stream(d, pd, y),
        None => false,
    }
}

/// Font `f` has stream `y` among its glyph procedures under `/CharProcs`.
pub open spec fn glyph_proc(d: DocumentV, f: nat, y: nat) -> bool {
    match dictionary_target(d, key_of(d, f, crate::names::spec_char_procs())) {
        Some(p) => dict_names_stream(d, p, y),
        None => false,
    }
}

/// Reading resource dictionary `r` draws stream `y`: a form it names, a tiling pattern it
/// names, or a glyph procedure of a font it names.
pub open spec fn draws_stream(d: DocumentV, r: nat, y: nat) -> bool {
    ||| names_form(d, r, y)
    ||| names_pattern(d, r, y)
    ||| exists|f: nat| #[trigger] names_font(d, r, f) && glyph_proc(d, f, y)
}

/// Reading stream `c`'s resources draws stream `y`, so the walk descends from `c` into `y`.
pub open spec fn descends_to(d: DocumentV, c: nat, y: nat) -> bool {
    exists|r: nat| #[trigger] read_for_stream(d, c, r) && draws_stream(d, r, y)
}

/// Each stream of `path` draws the next.
pub open spec fn descent(d: DocumentV, path: Seq<nat>) -> bool {
    forall|i: int| #![trigger path[i]] 0 <= i < path.len() - 1 ==> descends_to(d, path[i], path[i + 1])
}

/// Some stream's resources reach the stream itself, directly or through others: a path of
/// descents that ends where it starts.
pub open spec fn has_cycle(d: DocumentV) -> bool {
    exists|path: Seq<nat>| path.len() >= 2 && path[0] == path.last() && #[trigger] descent(d, path)
}

/// `h` ranks resource dictionaries so that every read below another ranks lower, and no
/// page's resources or appearance's resources rank above what the depth cap allows: a
/// resource graph no deeper than the walk goes.
pub open spec fn layered(d: DocumentV, h: spec_fn(nat) -> nat) -> bool {
    &&& forall|r: nat, y: nat| #[trigger] draws_stream(d, r, y) && own_resources(d, y) is Some
        ==> h(own_resources(d, y)->0) < h(r)
    &&& forall|r: nat, r2: nat| #[trigger] glyph_font_step(d, r, r2) ==> h(r2) < h(r)
    &&& forall|i: int| 0 <= i < d.pages.len() ==> (#[trigger] page_resources(d, d.pages[i]) matches Some(Some(r))
        ==> h(r) <= MAX_RESOURCE_DEPTH)
    &&& forall|i: int, y: nat| 0 <= i < d.pages.len() && #[trigger] appearance_of(d, d.pages[i], y) && own_resources(d, y) is Some
        ==> h(own_resources(d, y)->0) + 1 <= MAX_RESOURCE_DEPTH
}

/// Object `x` is a stream with resources of its own: descending into it reads them.
pub open spec fn resourced_stream(d: DocumentV) -> spec_fn(int) -> bool {
    |x: int| d.objects[x].body is Stream && own_resources(d, x as nat) is Some
}

/// Object `x` is a font with glyph procedures and resources of its own: opening it reads them.
pub open spec fn resourced_glyph_font(d: DocumentV) -> spec_fn(int) -> bool {
    |x: int| dictionary_target(d, key_of(d, x as nat, crate::names::spec_char_procs())) is Some
        && own_resources(d, x as nat) is Some
}

/// The walk's dictionary cap covers one dictionary for every page, one for every stream with
/// resources of its own, and one for every font with glyph procedures and resources of its own.
pub open spec fn within_work(d: DocumentV) -> bool {
    d.pages.len() + count_where(d.objects.len() as int, resourced_stream(d))
        + count_where(d.objects.len() as int, resourced_glyph_font(d)) <= MAX_RESOURCE_DICTIONARIES
}

/// A document whose resource graph the walk reads through whenever the clock allows: no
/// stream's resources reach the stream itself, the graph is no deeper than the depth cap and
/// within the dictionary cap, and every page has a readable `/Contents`, resources it can
/// find and readable `/Annots`.
pub open spec fn nested_countable(d: DocumentV) -> bool {
    &&& !has_cycle(d)
    &&& exists|h: spec_fn(nat) -> nat| #[trigger] layered(d, h)
    &&& within_work(d)
    &&& forall|i: int| 0 <= i < d.pages.len() ==> {
        &&& !contents_too_long(d, #[trigger] d.pages[i])
        &&& page_resources(d, d.pages[i]) is Some
        &&& annotations_readable(d, d.pages[i])
    }
}

/// Streams drawn from a dictionary ranked by `h`, the depth below `depth` they reach.
pub open spec fn fits(d: DocumentV, h: spec_fn(nat) -> nat, y: nat, depth: int) -> bool {
    own_resources(d, y) matches Some(r) ==> depth + 1 + h(r) <= MAX_RESOURCE_DEPTH
}

/// How many of the first `n` objects are marked in `marks` and of kind `kind`.
pub open spec fn marked_count(n: nat, marks: Seq<bool>, kind: spec_fn(int) -> bool) -> nat {
    count_where(n as int, |x: int| marks[x] && kind(x))
}

/// Counting where two properties agree but at `o` counts the same, up to `o`.
proof fn lemma_count_step(n: int, p: spec_fn(int) -> bool, q: spec_fn(int) -> bool, o: int)
    requires
        forall|x: int| 0 <= x < n && x != o ==> #[trigger] p(x) == q(x),
    ensures
        count_where(n, q) + (if 0 <= o < n && p(o) { 1int } else { 0int })
            == count_where(n, p) + (if 0 <= o < n && q(o) { 1int } else { 0int }),
    decreases n,
{
    if n > 0 {
        lemma_count_step(n - 1, p, q, o);
    }
}

/// A property implied by another is counted at least as often.
proof fn lemma_count_mono(n: int, p: spec_fn(int) -> bool, q: spec_fn(int) -> bool)
    requires
        forall|x: int| 0 <= x < n && #[trigger] p(x) ==> q(x),
    ensures
        count_where(n, p) <= count_where(n, q),
    decreases n,
{
    if n > 0 {
        lemma_count_mono(n - 1, p, q);
    }
}

/// Marking object `o` counts it once more when it is of the kind and was unmarked.
proof fn lemma_mark(n: nat, marks: Seq<bool>, o: int, kind: spec_fn(int) -> bool)
    requires
        0 <= o < n,
        marks.len() == n,
    ensures
        marked_count(n, marks.update(o, true), kind) == marked_count(n, marks, kind)
            + (if !marks[o] && kind(o) { 1int } else { 0int }),
{
    let p = |x: int| marks[x] && kind(x);
    let q = |x: int| marks.update(o, true)[x] && kind(x);
    lemma_count_step(n as int, p, q, o);
}

/// No more objects are marked and of a kind than are of it.
proof fn lemma_marked_at_most(n: nat, marks: Seq<bool>, kind: spec_fn(int) -> bool)
    ensures
        marked_count(n, marks, kind) <= count_where(n as int, kind),
{
    let p = |x: int| marks[x] && kind(x);
    lemma_count_mono(n as int, p, kind);
}

/// A path of descents that leaves the last stream of `open` for a stream already on it
/// closes a cycle.
proof fn lemma_cycle_found(d: DocumentV, open: Seq<usize>, object: usize)
    requires
        open.len() > 0,
        forall|i: int| #![trigger open[i]] 0 <= i < open.len() - 1 ==> descends_to(d, open[i] as nat, open[i + 1] as nat),
        descends_to(d, open.last() as nat, object as nat),
        open.contains(object),
    ensures
        has_cycle(d),
{
    let k = choose|k: int| 0 <= k < open.len() && open[k] == object;
    let path = Seq::new((open.len() - k) as nat, |i: int| open[k + i] as nat).push(object as nat);
    assert forall|i: int| #![trigger path[i]] 0 <= i < path.len() - 1 implies descends_to(d, path[i], path[i + 1]) by {
        if i < open.len() - k - 1 {
            assert(descends_to(d, open[k + i] as nat, open[k + i + 1] as nat));
        } else {
            assert(path[i] == open.last() as nat);
        }
    }
    assert(path[0] == path.last());
    assert(descent(d, path));
}

/// The other refusals the walk can give carry messages other than the cycle's.
proof fn lemma_messages_differ()
    ensures
        "qpdf sharing [resource-graph-depth]: a resource graph nested deeper than burrow will walk"@
            != "qpdf sharing [resource-graph-cycle]: a form's resources reach the form itself, directly or through another"@,
        "qpdf sharing [resource-graph-work]: more resource dictionaries than burrow will read, which a branching graph reaches long before the depth cap"@
            != "qpdf sharing [resource-graph-cycle]: a form's resources reach the form itself, directly or through another"@,
        "pdf redaction [contents-too-many]: a /Contents array with more elements than burrow will read"@
            != "qpdf sharing [resource-graph-cycle]: a form's resources reach the form itself, directly or through another"@,
{
    reveal_strlit("qpdf sharing [resource-graph-depth]: a resource graph nested deeper than burrow will walk");
    reveal_strlit("qpdf sharing [resource-graph-cycle]: a form's resources reach the form itself, directly or through another");
    reveal_strlit("qpdf sharing [resource-graph-work]: more resource dictionaries than burrow will read, which a branching graph reaches long before the depth cap");
    reveal_strlit("pdf redaction [contents-too-many]: a /Contents array with more elements than burrow will read");
    assert("qpdf sharing [resource-graph-cycle]: a form's resources reach the form itself, directly or through another"@.len() == 106);
    assert("qpdf sharing [resource-graph-depth]: a resource graph nested deeper than burrow will walk"@.len() == 89);
    assert("qpdf sharing [resource-graph-work]: more resource dictionaries than burrow will read, which a branching graph reaches long before the depth cap"@.len() == 143);
    assert("pdf redaction [contents-too-many]: a /Contents array with more elements than burrow will read"@.len() == 93);
}

/// How the walk refuses a resource graph it will not count: one that draws a form inside
/// itself, one nested deeper than it walks, or one with more dictionaries than it reads.
pub open spec fn graph_refusal(e: Error) -> bool {
    &&& e is Unsupported
    &&& e->Unsupported_0@ == "qpdf sharing [resource-graph-cycle]: a form's resources reach the form itself, directly or through another"@
        || e->Unsupported_0@ == "qpdf sharing [resource-graph-depth]: a resource graph nested deeper than burrow will walk"@
        || e->Unsupported_0@ == "qpdf sharing [resource-graph-work]: more resource dictionaries than burrow will read, which a branching graph reaches long before the depth cap"@
}

/// The refusal of a resource graph that draws a form inside itself.
pub open spec fn cycle_refusal(e: Error) -> bool {
    e is Unsupported && e->Unsupported_0@ == "qpdf sharing [resource-graph-cycle]: a form's resources reach the form itself, directly or through another"@
}

/// The refusal of a `/Contents` array longer than the walk reads.
pub open spec fn too_many_refusal(e: Error) -> bool {
    e is Unsupported && e->Unsupported_0@ == "pdf redaction [contents-too-many]: a /Contents array with more elements than burrow will read"@
}

/// The refusal of a page whose `/Parent` chain is deeper than the climb to its resources.
pub open spec fn page_tree_refusal(e: Error) -> bool {
    e is Malformed && e->Malformed_0@ == "qpdf sharing [page-tree-depth]: a /Parent chain deeper than burrow will climb, which a cycle in the page tree also produces"@
}

/// The refusal of an `/Annots` entry that is neither an annotation dictionary nor null.
pub open spec fn annots_refusal(e: Error) -> bool {
    e is Malformed && e->Malformed_0@ == "qpdf sharing [not-a-dictionary-where-one-belongs]: an /Annots entry that is neither an annotation dictionary nor null"@
}

/// The appearance state keys, `/N`, `/D` and `/R`, by position.
pub open spec fn state_key(s: int) -> Seq<u8> {
    if s == 0 {
        crate::names::spec_n_state()
    } else if s == 1 {
        crate::names::spec_d_state()
    } else {
        crate::names::spec_r_state()
    }
}

/// What is in a list stays in every extension of it.
proof fn lemma_extends_contains<T>(a: Seq<T>, b: Seq<T>, e: T)
    requires
        extends(a, b),
        a.contains(e),
    ensures
        b.contains(e),
{
    let i = choose|i: int| 0 <= i < a.len() && a[i] == e;
    assert(b[i] == e);
}

/// What the walk has reached stays reached as it grows.
proof fn lemma_reached_kept(w1: Walk, w2: Walk, d: DocumentV, v: Option<ValueV>, count: bool)
    requires
        w2.grows(&w1),
        w2.container == w1.container,
        w2.at_page == w1.at_page,
        w1.reached(d, v, count),
    ensures
        w2.reached(d, v, count),
{
    if let Some(x) = crate::scope::stream_target(d, v) {
        assert(w1.descended@[x as int]);
        if count {
            match w1.container {
                None => lemma_extends_contains(w1.page_reaches@, w2.page_reaches@, (w1.at_page, x as usize)),
                Some(p) => lemma_extends_contains(w1.edges@, w2.edges@, (p, x as usize)),
            }
        }
    }
}

/// What the walk has reached of a dictionary stays reached as it grows.
proof fn lemma_all_reached_kept(w1: Walk, w2: Walk, d: DocumentV, dict: nat, count: bool)
    requires
        w2.grows(&w1),
        w2.container == w1.container,
        w2.at_page == w1.at_page,
        w1.all_reached(d, dict, count),
    ensures
        w2.all_reached(d, dict, count),
{
    let es = entries_of(d.objects[dict as int]);
    assert forall|j: int| 0 <= j < es.len() && first_key(es, j) implies #[trigger] w2.reached(d, Some(es[j].1), count) by {
        assert(w1.reached(d, Some(es[j].1), count));
        lemma_reached_kept(w1, w2, d, Some(es[j].1), count);
    }
}

/// An appearance the walk has reached stays reached as it grows.
proof fn lemma_appearance_kept(w1: Walk, w2: Walk, d: DocumentV, item: ValueV, sk: Seq<u8>)
    requires
        w2.grows(&w1),
        w2.container == w1.container,
        w2.at_page == w1.at_page,
        w1.appearance_done(d, item, sk),
    ensures
        w2.appearance_done(d, item, sk),
{
    if let Some(k) = target(d, Some(item)) {
        if let Some(aps) = dictionary_target(d, key_of(d, k, crate::names::spec_ap())) {
            let v = key_of(d, aps, sk);
            match dictionary_target(d, v) {
                Some(bs) => lemma_all_reached_kept(w1, w2, d, bs, true),
                None => lemma_reached_kept(w1, w2, d, v, true),
            }
        }
    }
}

/// What the walk records is justified as long as its records are the same.
proof fn lemma_justified_same(w1: Walk, w2: Walk, d: DocumentV)
    requires
        w1.justified(d),
        w2.page_reaches@ == w1.page_reaches@,
        w2.edges@ == w1.edges@,
        w2.page_fonts@ == w1.page_fonts@,
        w2.container_fonts@ == w1.container_fonts@,
    ensures
        w2.justified(d),
{
}

/// A walk grown from a grown walk has grown from the first.
proof fn lemma_grows_trans(w1: Walk, w2: Walk, w3: Walk)
    requires
        w2.grows(&w1),
        w3.grows(&w2),
    ensures
        w3.grows(&w1),
{
}

/// A walk that only counted content streams has grown.
proof fn lemma_untouched_grows(w1: Walk, w2: Walk)
    requires
        w2.untouched(&w1),
    ensures
        w2.grows(&w1),
{
}

/// The forms the walk has recorded a stream drawing stay recorded as it grows.
proof fn lemma_forms_recorded_kept(w1: Walk, w2: Walk, d: DocumentV, x: nat)
    requires
        w2.grows(&w1),
        w1.forms_recorded(d, x),
    ensures
        w2.forms_recorded(d, x),
{
    if let Some(r) = dictionary_target(d, key_of(d, x, crate::names::spec_resources())) {
        if let Some(xd) = dictionary_target(d, key_of(d, r, crate::names::spec_x_object())) {
            let es = entries_of(d.objects[xd as int]);
            assert forall|j: int| 0 <= j < es.len() && first_key(es, j) implies #[trigger] w2.drawn_by(d, Some(es[j].1), x) by {
                assert(w1.drawn_by(d, Some(es[j].1), x));
                if let Some(y) = crate::scope::stream_target(d, Some(es[j].1)) {
                    lemma_extends_contains(w1.edges@, w2.edges@, (x as usize, y as usize));
                }
            }
        }
        if let Some(f) = dictionary_target(d, key_of(d, r, crate::names::spec_font())) {
            let es = entries_of(d.objects[f as int]);
            assert forall|j: int| 0 <= j < es.len() && first_key(es, j)
                implies (#[trigger] target(d, Some(es[j].1)) matches Some(id) ==> w2.container_fonts@.contains((x as usize, id as usize))) by {
                if let Some(id) = target(d, Some(es[j].1)) {
                    lemma_extends_contains(w1.container_fonts@, w2.container_fonts@, (x as usize, id as usize));
                }
            }
        }
    }
}

/// Every stream the walk has finished stays finished while it grows without descending.
proof fn lemma_closed_kept(w1: Walk, w2: Walk, d: DocumentV)
    requires
        w1.closed_under(d),
        w2.grows(&w1),
        w2.descended@ == w1.descended@,
        w2.open@ == w1.open@,
        w2.edges@ == w1.edges@,
        w2.finish@ == w1.finish@,
        w2.tick@ == w1.tick@,
        w2.container == w1.container,
        w2.page_reaches@ == w1.page_reaches@,
    ensures
        w2.closed_under(d),
{
    assert forall|x: int| #[trigger] w2.finished(x) implies w2.finish@[x] < w2.tick@ by {
        assert(w1.finished(x));
    }
    assert forall|k: int| 0 <= k < w2.edges@.len() implies #[trigger] w2.edge_ordered(w2.edges@[k]) by {
        assert(w1.edge_ordered(w1.edges@[k]));
        assert(w1.finished(w1.edges@[k].1 as int));
    }
    assert forall|x: int| 0 <= x < w2.descended@.len() && #[trigger] w2.descended@[x]
        implies w2.open@.contains(x as usize) || w2.forms_recorded(d, x as nat) by {
        assert(w1.descended@[x]);
        if !w1.open@.contains(x as usize) {
            lemma_forms_recorded_kept(w1, w2, d, x as nat);
        }
    }
}

/// Recording a page's draw of a stream already descended keeps the walk closed.
proof fn lemma_closed_after_page_draw(w1: Walk, w2: Walk, d: DocumentV)
    requires
        w1.closed_under(d),
        w2.grows(&w1),
        w2.descended@ == w1.descended@,
        w2.open@ == w1.open@,
        w2.edges@ == w1.edges@,
        w2.finish@ == w1.finish@,
        w2.tick@ == w1.tick@,
        w2.container == w1.container,
        w2.page_reaches@.len() == w1.page_reaches@.len() + 1,
        w2.page_reaches@.drop_last() == w1.page_reaches@,
        w1.descended@[w2.page_reaches@.last().1 as int],
    ensures
        w2.closed_under(d),
{
    assert forall|x: int| 0 <= x < w2.descended@.len() && #[trigger] w2.descended@[x]
        implies w2.open@.contains(x as usize) || w2.forms_recorded(d, x as nat) by {
        assert(w1.descended@[x]);
        if !w1.open@.contains(x as usize) {
            lemma_forms_recorded_kept(w1, w2, d, x as nat);
        }
    }
    assert forall|x: int| #[trigger] w2.finished(x) implies w2.finish@[x] < w2.tick@ by {
        assert(w1.finished(x));
    }
    assert forall|k: int| 0 <= k < w2.edges@.len() implies #[trigger] w2.edge_ordered(w2.edges@[k]) by {
        assert(w1.edge_ordered(w1.edges@[k]));
        assert(w1.finished(w1.edges@[k].1 as int));
    }
    assert forall|k: int| 0 <= k < w2.page_reaches@.len() implies #[trigger] w2.descended@[w2.page_reaches@[k].1 as int] by {
        if k < w1.page_reaches@.len() {
            assert(w2.page_reaches@[k] == w2.page_reaches@.drop_last()[k]);
            assert(w1.descended@[w1.page_reaches@[k].1 as int]);
        }
    }
}

/// What the walk has recorded of a page stays recorded as it grows.
proof fn lemma_page_recorded_kept(w1: Walk, w2: Walk, d: DocumentV, pi: usize, res: nat)
    requires
        w2.grows(&w1),
        w1.page_recorded(d, pi, res),
    ensures
        w2.page_recorded(d, pi, res),
{
    if let Some(xd) = dictionary_target(d, key_of(d, res, crate::names::spec_x_object())) {
        let es = entries_of(d.objects[xd as int]);
        assert forall|j: int| 0 <= j < es.len() && first_key(es, j) implies #[trigger] w2.page_drawn(d, Some(es[j].1), pi) by {
            assert(w1.page_drawn(d, Some(es[j].1), pi));
            if let Some(y) = crate::scope::stream_target(d, Some(es[j].1)) {
                lemma_extends_contains(w1.page_reaches@, w2.page_reaches@, (pi, y as usize));
            }
        }
    }
    if let Some(f) = dictionary_target(d, key_of(d, res, crate::names::spec_font())) {
        let es = entries_of(d.objects[f as int]);
        assert forall|j: int| 0 <= j < es.len() && first_key(es, j)
            implies (#[trigger] target(d, Some(es[j].1)) matches Some(id) ==> w2.page_fonts@.contains((pi, id as usize))) by {
            if let Some(id) = target(d, Some(es[j].1)) {
                lemma_extends_contains(w1.page_fonts@, w2.page_fonts@, (pi, id as usize));
            }
        }
    }
}

/// A resource dictionary read at page level is recorded as the current page's.
proof fn lemma_page_recorded_from_walk(w: Walk, d: DocumentV, res: nat)
    requires
        w.container is None,
        w.resources_walked(d, res),
    ensures
        w.page_recorded(d, w.at_page, res),
{
    if let Some(xd) = dictionary_target(d, key_of(d, res, crate::names::spec_x_object())) {
        let es = entries_of(d.objects[xd as int]);
        assert forall|j: int| 0 <= j < es.len() && first_key(es, j) implies #[trigger] w.page_drawn(d, Some(es[j].1), w.at_page) by {
            assert(w.reached(d, Some(es[j].1), true));
        }
    }
    if let Some(f) = dictionary_target(d, key_of(d, res, crate::names::spec_font())) {
        let es = entries_of(d.objects[f as int]);
        assert forall|j: int| 0 <= j < es.len() && first_key(es, j)
            implies (#[trigger] target(d, Some(es[j].1)) matches Some(id) ==> w.page_fonts@.contains((w.at_page, id as usize))) by {
            if let Some(id) = target(d, Some(es[j].1)) {
                assert(w.font_noted(id));
            }
        }
    }
}

impl Walk {
    /// One resource dictionary: its forms, its patterns, and its fonts.
    ///
    /// # Errors
    ///
    /// `Unsupported` naming `resource-graph-work` past [`MAX_RESOURCE_DICTIONARIES`] read in
    /// all, or `resource-graph-depth` past [`MAX_RESOURCE_DEPTH`], or as the walk below.
    #[verifier::spinoff_prover]
    fn resources(&mut self, d: &Document, res: usize, depth: u32, Ghost(h): Ghost<spec_fn(nat) -> nat>) -> (r: Result<()>)
        requires
            old(self).chained(d@),
            old(self).page_count == d@.pages.len(),
            old(self).dictionaries_read < old(self).allowance(d@),
            layered(d@, h) ==> depth + h(res as nat) <= MAX_RESOURCE_DEPTH,
            old(self).wf(),
            old(self).closed_under(d@),
            old(self).justified(d@),
            old(self).reading(d@, res as nat),
            old(self).n == d@.objects.len(),
            old(self).at_page < old(self).page_count,
            depth <= MAX_RESOURCE_DEPTH + 1,
        ensures
            final(self).chained(d@),
            final(self).dictionaries_read <= final(self).allowance(d@),
            r is Err && cycle_refusal(r->Err_0) ==> has_cycle(d@),
            !has_cycle(d@) && layered(d@, h) && within_work(d@) ==> r is Ok,
            final(self).wf(),
            r is Ok ==> final(self).closed_under(d@),
            final(self).justified(d@),
            final(self).same_contents(old(self)),
            final(self).grows(old(self)),
            r is Err ==> graph_refusal(r->Err_0),
            old(self).dictionaries_read >= MAX_RESOURCE_DICTIONARIES ==> r is Err,
            old(self).dictionaries_read < MAX_RESOURCE_DICTIONARIES ==> final(self).dictionaries_read > old(self).dictionaries_read,
            old(self).dictionaries_read < MAX_RESOURCE_DICTIONARIES && depth > MAX_RESOURCE_DEPTH ==> r is Err,
            r is Ok ==> final(self).resources_walked(d@, res as nat),
            flat(d@) && old(self).open@.len() == 0 && old(self).dictionaries_read < MAX_RESOURCE_DICTIONARIES && depth <= MAX_RESOURCE_DEPTH
                ==> r is Ok && final(self).dictionaries_read == old(self).dictionaries_read + 1,
            flat(d@) && old(self).open@.len() == 0 && old(self).dictionaries_read < MAX_RESOURCE_DICTIONARIES && depth <= MAX_RESOURCE_DEPTH
                ==> final(self).edges@ == old(self).edges@
                && final(self).page_reaches@ == old(self).page_reaches@ + tagged(old(self).at_page, dictionary_draws(d@, res as nat)),
        decreases MAX_RESOURCE_DEPTH + 1 - depth, 4int,
    {
        if self.dictionaries_read >= MAX_RESOURCE_DICTIONARIES {
            proof {
                lemma_messages_differ();
                if within_work(d@) {
                    lemma_work_room(*self, d@);
                }
            }
            return Err(unsupported(
                "qpdf sharing [resource-graph-work]: more resource dictionaries than burrow will read, which a branching graph reaches long before the depth cap",
            ));
        }
        self.dictionaries_read += 1;
        proof {
            lemma_closed_kept(*old(self), *self, d@);
            lemma_justified_same(*old(self), *self, d@);
        }
        if depth > MAX_RESOURCE_DEPTH {
            proof {
                lemma_messages_differ();
            }
            return Err(unsupported(
                "qpdf sharing [resource-graph-depth]: a resource graph nested deeper than burrow will walk",
            ));
        }
        let xk = x_object();
        let xobjects = d.dictionary_target(d.get(res, &xk));
        match xobjects {
            Some(dict) => {
                proof {
                    let es = entries_of(d@.objects[dict as int]);
                    assert forall|j: int| 0 <= j < es.len() && first_key(es, j)
                        implies (#[trigger] crate::scope::stream_target(d@, Some(es[j].1)) matches Some(y) ==> self.source_ok(d@, y)) by {
                        if let Some(y) = crate::scope::stream_target(d@, Some(es[j].1)) {
                            assert(names_form(d@, res as nat, y));
                            match self.container {
                                None => assert(read_for_page(d@, self.at_page as int, res as nat)),
                                Some(c) => assert(read_for_stream(d@, c as nat, res as nat)),
                            }
                        }
                    }
                    assert forall|j: int| 0 <= j < es.len() && first_key(es, j)
                        implies (#[trigger] crate::scope::stream_target(d@, Some(es[j].1)) matches Some(y) ==> self.may_draw(d@, h, depth as int, y)) by {
                        if let Some(y) = crate::scope::stream_target(d@, Some(es[j].1)) {
                            assert(names_form(d@, res as nat, y));
                            lemma_drawn_here(*self, d@, h, depth as int, res as nat, y);
                        }
                    }
                }
                self.drawables(d, dict, true, depth, Ghost(h))?;
            },
            None => {},
        }
        let ghost after_forms = *self;
        let pk = pattern();
        let patterns = d.dictionary_target(d.get(res, &pk));
        match patterns {
            Some(dict) => {
                proof {
                    let es = entries_of(d@.objects[dict as int]);
                    assert forall|j: int| 0 <= j < es.len() && first_key(es, j)
                        implies (#[trigger] crate::scope::stream_target(d@, Some(es[j].1)) matches Some(y) ==> self.may_draw(d@, h, depth as int, y)) by {
                        if let Some(y) = crate::scope::stream_target(d@, Some(es[j].1)) {
                            assert(dict_names_stream(d@, dict as nat, y));
                            assert(names_pattern(d@, res as nat, y));
                            lemma_drawn_here(*self, d@, h, depth as int, res as nat, y);
                        }
                    }
                }
                self.drawables(d, dict, false, depth, Ghost(h))?;
            },
            None => {},
        }
        let ghost after_patterns = *self;
        proof {
            if let Some(x) = xobjects {
                lemma_all_reached_kept(after_forms, after_patterns, d@, x as nat, true);
            }
        }
        proof {
            if flat(d@) && old(self).open@.len() == 0 && depth <= MAX_RESOURCE_DEPTH {
                assert(old(self).container is None);
                match xobjects {
                    Some(x) => {
                        assert(after_patterns.page_reaches@ =~= old(self).page_reaches@ + tagged(old(self).at_page, dictionary_draws(d@, res as nat)));
                    },
                    None => {
                        assert(dictionary_draws(d@, res as nat) =~= Seq::<usize>::empty());
                        assert(after_patterns.page_reaches@ =~= old(self).page_reaches@ + tagged(old(self).at_page, dictionary_draws(d@, res as nat)));
                    },
                }
            }
        }
        let result = self.type_three_fonts(d, res, depth, Ghost(h));
        proof {
            if result is Ok {
                if let Some(x) = xobjects {
                    lemma_all_reached_kept(after_patterns, *self, d@, x as nat, true);
                }
                if let Some(x) = patterns {
                    lemma_all_reached_kept(after_patterns, *self, d@, x as nat, false);
                }
            }
        }
        result
    }

    /// Every entry of dictionary `dict`, as something that may draw.
    #[verifier::spinoff_prover]
    fn drawables(&mut self, d: &Document, dict: usize, count: bool, depth: u32, Ghost(h): Ghost<spec_fn(nat) -> nat>) -> (r: Result<()>)
        requires
            old(self).chained(d@),
            old(self).page_count == d@.pages.len(),
            old(self).dictionaries_read <= old(self).allowance(d@),
            old(self).all_may_draw(d@, h, depth as int, dict as nat),
            old(self).wf(),
            old(self).closed_under(d@),
            old(self).justified(d@),
            count ==> old(self).all_sourced(d@, dict as nat),
            old(self).n == d@.objects.len(),
            old(self).at_page < old(self).page_count,
            dict < d@.objects.len(),
            depth <= MAX_RESOURCE_DEPTH,
        ensures
            final(self).chained(d@),
            final(self).dictionaries_read <= final(self).allowance(d@),
            r is Err && cycle_refusal(r->Err_0) ==> has_cycle(d@),
            !has_cycle(d@) && layered(d@, h) && within_work(d@) ==> r is Ok,
            final(self).wf(),
            r is Ok ==> final(self).closed_under(d@),
            final(self).justified(d@),
            final(self).same_contents(old(self)),
            final(self).grows(old(self)),
            r is Err ==> graph_refusal(r->Err_0),
            r is Ok && d@.objects[dict as int].body is Dictionary ==> final(self).all_reached(d@, dict as nat, count),
            flat(d@) && old(self).open@.len() == 0 ==> r is Ok && final(self).dictionaries_read == old(self).dictionaries_read,
            flat(d@) && old(self).open@.len() == 0 ==> final(self).edges@ == old(self).edges@
                && final(self).page_reaches@ == old(self).page_reaches@ + (if count && d@.objects[dict as int].body is Dictionary {
                    tagged(old(self).at_page, form_draws(d@, entries_of(d@.objects[dict as int]), entries_of(d@.objects[dict as int]).len() as int))
                } else {
                    Seq::empty()
                }),
        decreases MAX_RESOURCE_DEPTH + 1 - depth, 2int,
    {
        let entries = match &d.objects[dict].body {
            Body::Dictionary(es) => es,
            _ => {
                assert(old(self).page_reaches@ + Seq::<(usize, usize)>::empty() =~= old(self).page_reaches@);
                return Ok(());
            },
        };
        let ghost es = entries_of(d@.objects[dict as int]);
        assert(entries_view(entries@) == es);
        let ghost start = *self;
        let mut j: usize = 0;
        while j < entries.len()
            invariant
                self.wf(),
                self.n == d@.objects.len(),
                self.at_page < self.page_count,
                start == *old(self),
                self.same_contents(&start),
                self.grows(&start),
                depth <= MAX_RESOURCE_DEPTH,
                j <= entries@.len(),
                entries_view(entries@) == es,
                es == entries_of(d@.objects[dict as int]),
                flat(d@) && start.open@.len() == 0 ==> self.dictionaries_read == start.dictionaries_read,
                self.closed_under(d@),
                self.justified(d@),
                self.chained(d@),
                self.page_count == d@.pages.len(),
                self.dictionaries_read <= self.allowance(d@),
                start.all_may_draw(d@, h, depth as int, dict as nat),
                count ==> start.all_sourced(d@, dict as nat),
                d@.objects[dict as int].body is Dictionary,
                flat(d@) && start.open@.len() == 0 ==> self.edges@ == start.edges@
                    && self.page_reaches@ == start.page_reaches@ + (if count { tagged(start.at_page, form_draws(d@, es, j as int)) } else { Seq::empty() }),
                forall|i: int| 0 <= i < j && first_key(es, i) ==> #[trigger] self.reached(d@, Some(es[i].1), count),
            decreases entries.len() - j,
        {
            let ghost prior = *self;
            if is_first(entries, j) {
                let ghost before = *self;
                assert(es[j as int].1 == entries@[j as int].value@);
                proof {
                    if count {
                        assert(first_key(es, j as int));
                        if let Some(y) = crate::scope::stream_target(d@, Some(es[j as int].1)) {
                            assert(start.source_ok(d@, y));
                        }
                    }
                    if let Some(y) = crate::scope::stream_target(d@, Some(es[j as int].1)) {
                        assert(first_key(es, j as int));
                        assert(start.may_draw(d@, h, depth as int, y));
                    }
                }
                self.drawable(d, Some(&entries[j].value), count, depth, Ghost(h))?;
                proof {
                    assert forall|i: int| 0 <= i < j + 1 && first_key(es, i) implies #[trigger] self.reached(d@, Some(es[i].1), count) by {
                        if i < j {
                            lemma_reached_kept(before, *self, d@, Some(es[i].1), count);
                        }
                    }
                }
            }
            proof {
                if flat(d@) && start.open@.len() == 0 {
                    let fd = form_draws(d@, es, j + 1);
                    if count {
                        match crate::scope::stream_target(d@, Some(es[j as int].1)) {
                            Some(y) => {
                                if first_key(es, j as int) {
                                    assert(fd == form_draws(d@, es, j as int).push(y as usize));
                                    assert(tagged(start.at_page, fd) =~= tagged(start.at_page, form_draws(d@, es, j as int)).push((start.at_page, y as usize)));
                                    assert(self.page_reaches@ =~= start.page_reaches@ + tagged(start.at_page, fd));
                                } else {
                                    assert(fd == form_draws(d@, es, j as int));
                                }
                            },
                            None => {
                                assert(fd == form_draws(d@, es, j as int));
                            },
                        }
                    }
                }
            }
            j += 1;
        }
        proof {
            if flat(d@) && start.open@.len() == 0 && !count {
                assert(self.page_reaches@ =~= start.page_reaches@ + Seq::<(usize, usize)>::empty());
            }
        }
        Ok(())
    }

    /// A Form XObject, a tiling pattern or a glyph procedure: counted as a use of a form when
    /// `count` says so, and descended either way.
    #[verifier::spinoff_prover]
    fn drawable(&mut self, d: &Document, value: Option<&Value>, count: bool, depth: u32, Ghost(h): Ghost<spec_fn(nat) -> nat>) -> (r: Result<()>)
        requires
            old(self).chained(d@),
            old(self).page_count == d@.pages.len(),
            old(self).dictionaries_read <= old(self).allowance(d@),
            crate::scope::stream_target(d@, opt_view(value)) matches Some(y) ==> old(self).may_draw(d@, h, depth as int, y),
            old(self).wf(),
            old(self).closed_under(d@),
            old(self).justified(d@),
            count ==> (crate::scope::stream_target(d@, opt_view(value)) matches Some(y) ==> old(self).source_ok(d@, y)),
            old(self).n == d@.objects.len(),
            old(self).at_page < old(self).page_count,
            depth <= MAX_RESOURCE_DEPTH,
        ensures
            final(self).chained(d@),
            final(self).dictionaries_read <= final(self).allowance(d@),
            r is Err && cycle_refusal(r->Err_0) ==> has_cycle(d@),
            !has_cycle(d@) && layered(d@, h) && within_work(d@) ==> r is Ok,
            final(self).wf(),
            r is Ok ==> final(self).closed_under(d@),
            final(self).justified(d@),
            final(self).same_contents(old(self)),
            final(self).grows(old(self)),
            r is Err ==> graph_refusal(r->Err_0),
            crate::scope::stream_target(d@, opt_view(value)) is None ==> r is Ok,
            r is Ok ==> final(self).reached(d@, opt_view(value), count),
            r is Ok && count && old(self).container is None ==> (crate::scope::stream_target(d@, opt_view(value)) matches Some(x)
                ==> final(self).direct@[x as int] >= capped(old(self).direct@[x as int] + 1)),
            flat(d@) && old(self).open@.len() == 0 ==> r is Ok && final(self).dictionaries_read == old(self).dictionaries_read,
            flat(d@) && old(self).open@.len() == 0 ==> final(self).edges@ == old(self).edges@
                && final(self).page_reaches@ == (if count && crate::scope::stream_target(d@, opt_view(value)) is Some {
                    old(self).page_reaches@.push((old(self).at_page, crate::scope::stream_target(d@, opt_view(value))->0 as usize))
                } else {
                    old(self).page_reaches@
                }),
        decreases MAX_RESOURCE_DEPTH + 1 - depth, 1int,
    {
        let object = match d.target(value) {
            Some(i) => i,
            None => {
                return Ok(());
            },
        };
        match &d.objects[object].body {
            Body::Stream(_, _) => {},
            _ => {
                return Ok(());
            },
        }
        let ghost before = *self;
        let result = self.descend(d, object, depth, Ghost(h));
        match result {
            Err(e) => {
                return Err(e);
            },
            Ok(()) => {},
        }
        if count {
            match self.container {
                None => {
                    let ghost walked = *self;
                    let ghost reaches = self.page_reaches@;
                    let now = self.direct[object].saturating_add(1);
                    self.direct.set(object, now);
                    self.page_reaches.push((self.at_page, object));
                    assert(self.page_reaches@[self.page_reaches@.len() - 1] == (self.at_page, object));
                    proof {
                        assert(self.page_reaches@.drop_last() =~= reaches);
                        assert forall|x: int| 0 <= x < self.n implies #[trigger] self.direct@[x] == capped(draws_of(self.page_reaches@, x) as int) by {
                            assert(draws_of(self.page_reaches@, x) == draws_of(reaches, x) + if x == object as int { 1nat } else { 0nat });
                        }
                        assert(walked.descended@[object as int]);
                        lemma_closed_after_page_draw(walked, *self, d@);
                    }
                },
                Some(parent) => {
                    let ghost walked = *self;
                    self.edges.push((parent, object));
                    assert(self.edges@[self.edges@.len() - 1] == (parent, object));
                    proof {
                        assert(walked.finished(object as int));
                        assert forall|x: int| 0 <= x < self.descended@.len() && #[trigger] self.descended@[x]
                            implies self.open@.contains(x as usize) || self.forms_recorded(d@, x as nat) by {
                            if !walked.open@.contains(x as usize) {
                                lemma_forms_recorded_kept(walked, *self, d@, x as nat);
                            }
                        }
                        assert forall|x: int| #[trigger] self.finished(x) implies self.finish@[x] < self.tick@ by {
                            assert(walked.finished(x));
                        }
                        assert forall|k: int| 0 <= k < self.edges@.len() implies #[trigger] self.edge_ordered(self.edges@[k]) by {
                            if k < walked.edges@.len() {
                                assert(walked.edge_ordered(walked.edges@[k]));
                                assert(walked.finished(walked.edges@[k].1 as int));
                            }
                        }
                    }
                },
            }
        }
        Ok(())
    }

    /// A stream's own `/Resources`, once per object however many times it is referenced.
    ///
    /// # Errors
    ///
    /// `Unsupported` naming `resource-graph-cycle` when the stream is on the path that
    /// reached it: its resources reach the stream itself.
    #[verifier::spinoff_prover]
    fn descend(&mut self, d: &Document, object: usize, depth: u32, Ghost(h): Ghost<spec_fn(nat) -> nat>) -> (r: Result<()>)
        requires
            old(self).chained(d@),
            old(self).page_count == d@.pages.len(),
            old(self).dictionaries_read <= old(self).allowance(d@),
            old(self).may_draw(d@, h, depth as int, object as nat),
            d@.objects[object as int].body is Stream,
            old(self).wf(),
            old(self).closed_under(d@),
            old(self).justified(d@),
            old(self).n == d@.objects.len(),
            old(self).at_page < old(self).page_count,
            object < d@.objects.len(),
            depth <= MAX_RESOURCE_DEPTH,
        ensures
            final(self).chained(d@),
            final(self).dictionaries_read <= final(self).allowance(d@),
            r is Err && cycle_refusal(r->Err_0) ==> has_cycle(d@),
            !has_cycle(d@) && layered(d@, h) && within_work(d@) ==> r is Ok,
            final(self).wf(),
            r is Ok ==> final(self).closed_under(d@),
            final(self).justified(d@),
            final(self).same_contents(old(self)),
            final(self).grows(old(self)),
            r is Err ==> graph_refusal(r->Err_0),
            old(self).open@.contains(object) ==> r is Err,
            !old(self).open@.contains(object) ==> final(self).descended@[object as int],
            !old(self).open@.contains(object) && old(self).descended@[object as int] ==> r is Ok,
            flat(d@) && old(self).open@.len() == 0 && d@.objects[object as int].body is Stream
                ==> r is Ok && final(self).dictionaries_read == old(self).dictionaries_read,
            flat(d@) && old(self).open@.len() == 0 && d@.objects[object as int].body is Stream
                ==> final(self).edges@ == old(self).edges@ && final(self).page_reaches@ == old(self).page_reaches@,
        decreases MAX_RESOURCE_DEPTH + 1 - depth, 0int,
    {
        if holds(&self.open, object) {
            proof {
                lemma_cycle_found(d@, self.open@, object);
            }
            return Err(unsupported(
                "qpdf sharing [resource-graph-cycle]: a form's resources reach the form itself, directly or through another",
            ));
        }
        if self.descended[object] {
            return Ok(());
        }
        let rk = resources();
        let found = d.dictionary_target(d.get(object, &rk));
        self.descended.set(object, true);
        proof {
            lemma_mark(self.n as nat, old(self).descended@, object as int, resourced_stream(d@));
            assert(self.descended@ == old(self).descended@.update(object as int, true));
            assert forall|x: int| 0 <= x < self.descended@.len() && x != object && #[trigger] self.descended@[x]
                implies self.open@.contains(x as usize) || self.forms_recorded(d@, x as nat) by {
                assert(old(self).descended@[x]);
                if !old(self).open@.contains(x as usize) {
                    lemma_forms_recorded_kept(*old(self), *self, d@, x as nat);
                }
            }
        }
        let inner = match found {
            Some(r) => r,
            None => {
                let ghost marked = *self;
                self.finish = Ghost(self.finish@.update(object as int, self.tick@));
                self.tick = Ghost(self.tick@ + 1);
                proof {
                    assert(self.forms_recorded(d@, object as nat));
                    assert forall|x: int| 0 <= x < self.descended@.len() && #[trigger] self.descended@[x]
                        implies self.open@.contains(x as usize) || self.forms_recorded(d@, x as nat) by {
                        if x != object as int && !self.open@.contains(x as usize) {
                            assert(marked.forms_recorded(d@, x as nat));
                            lemma_forms_recorded_kept(marked, *self, d@, x as nat);
                        }
                    }
                    assert forall|x: int| #[trigger] self.finished(x) implies self.finish@[x] < self.tick@ by {
                        if x != object as int {
                            assert(old(self).finished(x));
                        }
                    }
                    assert forall|k: int| 0 <= k < self.edges@.len() implies #[trigger] self.edge_ordered(self.edges@[k]) by {
                        let e = self.edges@[k];
                        assert(old(self).edge_ordered(e));
                        assert(old(self).finished(e.1 as int));
                        if !self.open@.contains(e.0) {
                            assert(old(self).finished(e.0 as int));
                        }
                    }
                }
                return Ok(());
            },
        };
        let ghost before = *self;
        self.open.push(object);
        let enclosing = self.container;
        self.container = Some(object);
        let ghost pushed = *self;
        proof {
            assert(self.open@[self.open@.len() - 1] == object);
            assert forall|u: usize| #[trigger] self.open@.contains(u) <==> before.open@.contains(u) || u == object by {
                if self.open@.contains(u) && u != object {
                    let k = choose|k: int| 0 <= k < self.open@.len() && self.open@[k] == u;
                    assert(k < before.open@.len());
                    assert(before.open@[k] == u);
                }
                if before.open@.contains(u) {
                    let k = choose|k: int| 0 <= k < before.open@.len() && before.open@[k] == u;
                    assert(self.open@[k] == u);
                }
            }
            assert forall|x: int| 0 <= x < self.descended@.len() && #[trigger] self.descended@[x]
                implies self.open@.contains(x as usize) || self.forms_recorded(d@, x as nat) by {
                if x != object as int && !before.open@.contains(x as usize) {
                    lemma_forms_recorded_kept(before, *self, d@, x as nat);
                }
            }
            assert forall|x: int| #[trigger] self.finished(x) implies self.finish@[x] < self.tick@ by {
                assert(old(self).finished(x));
            }
            assert forall|k: int| 0 <= k < self.edges@.len() implies #[trigger] self.edge_ordered(self.edges@[k]) by {
                let e = self.edges@[k];
                assert(old(self).edge_ordered(e));
                assert(old(self).finished(e.1 as int));
                if !old(self).open@.contains(e.0) {
                    assert(old(self).finished(e.0 as int));
                }
            }
            if let Some(c) = enclosing {
                assert(old(self).open@.contains(c));
            }
        }
        proof {
            assert(reads_along(d@, inner as nat, seq![inner as nat]));
            assert(read_for_stream(d@, object as nat, inner as nat));
            lemma_justified_same(*old(self), *self, d@);
            assert(self.open@ == before.open@.push(object));
            assert forall|i: int| #![trigger self.open@[i]] 0 <= i < self.open@.len() - 1
                implies descends_to(d@, self.open@[i] as nat, self.open@[i + 1] as nat) by {
                if i < before.open@.len() - 1 {
                    assert(self.open@[i] == before.open@[i] && self.open@[i + 1] == before.open@[i + 1]);
                    assert(descends_to(d@, before.open@[i] as nat, before.open@[i + 1] as nat));
                } else {
                    assert(self.open@[i] == before.open@.last());
                }
            }
            assert(self.chained(d@));
            assert(own_resources(d@, object as nat) == Some(inner as nat));
        }
        let result = self.resources(d, inner, depth + 1, Ghost(h));
        let ghost walked = *self;
        self.container = enclosing;
        self.open.pop();
        proof {
            assert(self.open@ =~= before.open@);
            assert(before.grows(old(self)));
            assert(before.descended@[object as int]);
            assert(self.descended@[object as int]);
            if result is Ok {
                assert(walked.container == Some(object));
                if let Some(xd) = dictionary_target(d@, key_of(d@, inner as nat, crate::names::spec_x_object())) {
                    let es = entries_of(d@.objects[xd as int]);
                    assert forall|j: int| 0 <= j < es.len() && first_key(es, j) implies #[trigger] self.drawn_by(d@, Some(es[j].1), object as nat) by {
                        assert(walked.reached(d@, Some(es[j].1), true));
                    }
                }
                if let Some(f) = dictionary_target(d@, key_of(d@, inner as nat, crate::names::spec_font())) {
                    let es = entries_of(d@.objects[f as int]);
                    assert forall|j: int| 0 <= j < es.len() && first_key(es, j)
                        implies (#[trigger] target(d@, Some(es[j].1)) matches Some(id) ==> self.container_fonts@.contains((object, id as usize))) by {
                        if let Some(id) = target(d@, Some(es[j].1)) {
                            assert(walked.font_noted(id));
                        }
                    }
                }
                assert(self.forms_recorded(d@, object as nat));
                assert(walked.open@ == pushed.open@);
                assert(self.open@ =~= before.open@);
                assert forall|x: int| 0 <= x < self.descended@.len() && #[trigger] self.descended@[x]
                    implies self.open@.contains(x as usize) || self.forms_recorded(d@, x as nat) by {
                    if x != object as int {
                        assert(walked.descended@[x]);
                        if walked.open@.contains(x as usize) {
                            assert(pushed.open@.contains(x as usize));
                            assert(before.open@.contains(x as usize));
                        } else {
                            lemma_forms_recorded_kept(walked, *self, d@, x as nat);
                        }
                    }
                }
            }
        }
        if result.is_err() {
            return result;
        }
        let ghost closing = *self;
        self.finish = Ghost(self.finish@.update(object as int, self.tick@));
        self.tick = Ghost(self.tick@ + 1);
        proof {
            assert(!self.open@.contains(object));
            assert forall|x: int| 0 <= x < self.descended@.len() && #[trigger] self.descended@[x]
                implies self.open@.contains(x as usize) || self.forms_recorded(d@, x as nat) by {
                if !self.open@.contains(x as usize) {
                    assert(closing.forms_recorded(d@, x as nat));
                    lemma_forms_recorded_kept(closing, *self, d@, x as nat);
                }
            }
            assert forall|x: int| #[trigger] self.finished(x) implies self.finish@[x] < self.tick@ by {
                if x != object as int {
                    assert(walked.finished(x));
                }
            }
            assert(walked.open@.contains(object));
            assert(self.finished(object as int));
            assert forall|k: int| 0 <= k < self.edges@.len() implies #[trigger] self.edge_ordered(self.edges@[k]) by {
                let e = self.edges@[k];
                assert(walked.edge_ordered(e));
                assert(walked.finished(e.1 as int));
                assert(!walked.open@.contains(e.1));
                assert(e.1 != object);
                assert(!before.open@.contains(e.1));
                assert(self.finished(e.1 as int));
                if e.0 == object {
                    assert(walked.finish@[e.1 as int] < walked.tick@);
                } else if walked.open@.contains(e.0) {
                    assert(before.open@.contains(e.0));
                } else {
                    assert(walked.finished(e.0 as int));
                    assert(!before.open@.contains(e.0));
                }
            }
            if let Some(c) = enclosing {
                assert(old(self).open@.contains(c));
            }
            assert(self.open@ =~= before.open@);
            assert(before.descended@[object as int]);
            assert(self.descended@[object as int]);
            assert(before.grows(old(self)));
        }
        result
    }

    /// The fonts of a resource dictionary: each one's page set is recorded against the
    /// container, with the indirect `/ToUnicode`, `/Encoding` and `/Widths` it names; a Type
    /// 3 font's `/Resources` are read once and its glyph procedures descended.
    #[verifier::spinoff_prover]
    #[verifier::rlimit(100)]
    fn type_three_fonts(&mut self, d: &Document, res: usize, depth: u32, Ghost(h): Ghost<spec_fn(nat) -> nat>) -> (r: Result<()>)
        requires
            old(self).chained(d@),
            old(self).page_count == d@.pages.len(),
            old(self).dictionaries_read <= old(self).allowance(d@),
            layered(d@, h) ==> depth + h(res as nat) <= MAX_RESOURCE_DEPTH,
            old(self).wf(),
            old(self).closed_under(d@),
            old(self).justified(d@),
            old(self).reading(d@, res as nat),
            old(self).n == d@.objects.len(),
            old(self).at_page < old(self).page_count,
            depth <= MAX_RESOURCE_DEPTH,
        ensures
            final(self).chained(d@),
            final(self).dictionaries_read <= final(self).allowance(d@),
            r is Err && cycle_refusal(r->Err_0) ==> has_cycle(d@),
            !has_cycle(d@) && layered(d@, h) && within_work(d@) ==> r is Ok,
            final(self).wf(),
            r is Ok ==> final(self).closed_under(d@),
            final(self).justified(d@),
            final(self).same_contents(old(self)),
            final(self).grows(old(self)),
            r is Err ==> graph_refusal(r->Err_0),
            r is Ok ==> final(self).fonts_noted(d@, res as nat),
            flat(d@) && old(self).open@.len() == 0 ==> r is Ok && final(self).dictionaries_read == old(self).dictionaries_read,
            flat(d@) && old(self).open@.len() == 0 ==> final(self).edges@ == old(self).edges@
                && final(self).page_reaches@ == old(self).page_reaches@,
        decreases MAX_RESOURCE_DEPTH + 1 - depth, 3int,
    {
        let fk = font();
        let fonts = match d.dictionary_target(d.get(res, &fk)) {
            Some(f) => f,
            None => {
                return Ok(());
            },
        };
        let entries = match &d.objects[fonts].body {
            Body::Dictionary(es) => es,
            _ => {
                return Ok(());
            },
        };
        let ghost es = entries_of(d@.objects[fonts as int]);
        assert(entries_view(entries@) == es);
        let part_keys = vec![to_unicode(), encoding(), widths()];
        let pk = char_procs();
        let rk = resources();
        let ghost start = *self;
        let mut j: usize = 0;
        while j < entries.len()
            invariant
                self.wf(),
                self.n == d@.objects.len(),
                self.at_page < self.page_count,
                start == *old(self),
                self.same_contents(&start),
                self.grows(&start),
                depth <= MAX_RESOURCE_DEPTH,
                j <= entries@.len(),
                entries_view(entries@) == es,
                es == entries_of(d@.objects[fonts as int]),
                pk@ == crate::names::spec_char_procs(),
                rk@ == crate::names::spec_resources(),
                dictionary_target(d@, key_of(d@, res as nat, crate::names::spec_font())) == Some(fonts as nat),
                start.reading(d@, res as nat),
                self.chained(d@),
                self.page_count == d@.pages.len(),
                self.dictionaries_read <= self.allowance(d@),
                layered(d@, h) ==> depth + h(res as nat) <= MAX_RESOURCE_DEPTH,
                flat(d@) && start.open@.len() == 0 ==> self.dictionaries_read == start.dictionaries_read,
                flat(d@) && start.open@.len() == 0 ==> self.edges@ == start.edges@ && self.page_reaches@ == start.page_reaches@,
                self.closed_under(d@),
                self.justified(d@),
                forall|i: int| 0 <= i < j && first_key(es, i)
                    ==> (#[trigger] target(d@, Some(es[i].1)) matches Some(id) ==> self.font_noted(id)),
            decreases entries.len() - j,
        {
            if !is_first(entries, j) {
                j += 1;
                continue;
            }
            let ghost before = *self;
            assert(es[j as int].1 == entries@[j as int].value@);
            let identity = d.target(Some(&entries[j].value));
            match identity {
                Some(id) => {
                    match self.container {
                        None => {
                            self.page_fonts.push((self.at_page, id));
                            assert(self.page_fonts@[self.page_fonts@.len() - 1] == (self.at_page, id));
                        },
                        Some(parent) => {
                            self.container_fonts.push((parent, id));
                            assert(self.container_fonts@[self.container_fonts@.len() - 1] == (parent, id));
                        },
                    }
                    proof {
                        lemma_closed_kept(before, *self, d@);
                        assert(names_font(d@, res as nat, id as nat));
                        match before.container {
                            None => {
                                assert(read_for_page(d@, before.at_page as int, res as nat));
                                assert(page_names_font(d@, before.at_page as int, id as nat));
                                assert forall|k: int| #![trigger self.page_fonts@[k]] 0 <= k < self.page_fonts@.len()
                                    implies page_names_font(d@, self.page_fonts@[k].0 as int, self.page_fonts@[k].1 as nat) by {
                                    if k < before.page_fonts@.len() {
                                        assert(self.page_fonts@[k] == before.page_fonts@[k]);
                                    }
                                }
                            },
                            Some(c) => {
                                assert(read_for_stream(d@, c as nat, res as nat));
                                assert(stream_names_font(d@, c as nat, id as nat));
                                assert forall|k: int| #![trigger self.container_fonts@[k]] 0 <= k < self.container_fonts@.len()
                                    implies stream_names_font(d@, self.container_fonts@[k].0 as nat, self.container_fonts@[k].1 as nat) by {
                                    if k < before.container_fonts@.len() {
                                        assert(self.container_fonts@[k] == before.container_fonts@[k]);
                                    }
                                }
                            },
                        }
                        assert(self.justified(d@));
                    }
                    let ghost noted = *self;
                    let mut k: usize = 0;
                    while k < part_keys.len()
                        invariant
                            self.wf(),
                            self.n == d@.objects.len(),
                            self.at_page < self.page_count,
                            start == *old(self),
                            self.same_contents(&start),
                            self.grows(&noted),
                            depth <= MAX_RESOURCE_DEPTH,
                            id < self.n,
                            k <= part_keys@.len(),
                            self.closed_under(d@),
                            self.justified(d@),
                            self.chained(d@),
                            self.page_count == d@.pages.len(),
                            self.dictionaries_read <= self.allowance(d@),
                            flat(d@) && start.open@.len() == 0 ==> self.dictionaries_read == start.dictionaries_read,
                flat(d@) && start.open@.len() == 0 ==> self.edges@ == start.edges@ && self.page_reaches@ == start.page_reaches@,
                        decreases part_keys.len() - k,
                    {
                        match d.target(d.get(id, &part_keys[k])) {
                            Some(part) => {
                                if !d.objects[part].direct {
                                    let ghost prior = *self;
                                    self.font_parts.push((id, part));
                                    proof {
                                        lemma_closed_kept(prior, *self, d@);
                                        lemma_justified_same(prior, *self, d@);
                                    }
                                }
                            },
                            None => {},
                        }
                        k += 1;
                    }
                    let procs = d.dictionary_target(d.get(id, &pk));
                    proof {
                        if flat(d@) && procs is Some {
                            assert(d@.objects[id as int].body == d@.objects[id as int].body);
                            assert(dictionary_target(d@, key_of(d@, id as nat, crate::names::spec_char_procs())) is Some);
                            assert(dictionary_target(d@, key_of(d@, id as nat, crate::names::spec_resources())) is None);
                        }
                    }
                    match procs {
                        Some(p) => {
                            if !self.fonts_read[id] {
                                let ghost prior = *self;
                                self.fonts_read.set(id, true);
                                proof {
                                    lemma_closed_kept(prior, *self, d@);
                                    lemma_justified_same(prior, *self, d@);
                                    lemma_mark(self.n as nat, prior.fonts_read@, id as int, resourced_glyph_font(d@));
                                    assert(self.fonts_read@ == prior.fonts_read@.update(id as int, true));
                                }
                                match d.dictionary_target(d.get(id, &rk)) {
                                    Some(inner) => {
                                        proof {
                                            assert(names_font(d@, res as nat, id as nat));
                                            assert(glyph_font_step(d@, res as nat, inner as nat));
                                            match self.container {
                                                None => {
                                                    let r0 = page_resources(d@, d@.pages[self.at_page as int])->0->0;
                                                    let path = choose|path: Seq<nat>| #[trigger] reads_along(d@, r0, path) && path.last() == res as nat;
                                                    lemma_reads_one_more(d@, r0, path, inner as nat);
                                                    assert(path.push(inner as nat).last() == inner as nat);
                                                    assert(read_for_page(d@, self.at_page as int, inner as nat));
                                                },
                                                Some(c) => {
                                                    let r0 = dictionary_target(d@, key_of(d@, c as nat, crate::names::spec_resources()))->0;
                                                    let path = choose|path: Seq<nat>| #[trigger] reads_along(d@, r0, path) && path.last() == res as nat;
                                                    lemma_reads_one_more(d@, r0, path, inner as nat);
                                                    assert(path.push(inner as nat).last() == inner as nat);
                                                    assert(read_for_stream(d@, c as nat, inner as nat));
                                                },
                                            }
                                            assert(own_resources(d@, id as nat) == Some(inner as nat));
                                        }
                                        self.resources(d, inner, depth + 1, Ghost(h))?;
                                    },
                                    None => {},
                                }
                            }
                            let ghost procs_before = *self;
                            proof {
                                assert(names_font(d@, res as nat, id as nat));
                                lemma_glyph_procs_may_draw(*self, d@, h, depth as int, res as nat, id as nat, p as nat);
                            }
                            self.drawables(d, p, false, depth, Ghost(h))?;
                            proof {
                                if flat(d@) && start.open@.len() == 0 {
                                    assert(self.page_reaches@ =~= procs_before.page_reaches@ + Seq::<(usize, usize)>::empty());
                                }
                            }
                        },
                        None => {},
                    }
                    proof {
                        match before.container {
                            None => lemma_extends_contains(noted.page_fonts@, self.page_fonts@, (before.at_page, id)),
                            Some(p) => lemma_extends_contains(noted.container_fonts@, self.container_fonts@, (p, id)),
                        }
                    }
                },
                None => {},
            }
            proof {
                assert forall|i: int| 0 <= i < j + 1 && first_key(es, i)
                    implies (#[trigger] target(d@, Some(es[i].1)) matches Some(id) ==> self.font_noted(id)) by {
                    if i < j {
                        if let Some(id) = target(d@, Some(es[i].1)) {
                            assert(before.font_noted(id));
                            match before.container {
                                None => lemma_extends_contains(before.page_fonts@, self.page_fonts@, (before.at_page, id as usize)),
                                Some(p) => lemma_extends_contains(before.container_fonts@, self.container_fonts@, (p, id as usize)),
                            }
                        }
                    }
                }
            }
            j += 1;
        }
        Ok(())
    }

    /// `/Annots` to `/AP` to `/N`, `/D` and `/R`: appearance streams are forms, each either
    /// a stream or a dictionary of states each of which is.
    #[verifier::spinoff_prover]
    fn annotations(&mut self, d: &Document, page: usize, Ghost(h): Ghost<spec_fn(nat) -> nat>) -> (r: Result<()>)
        requires
            old(self).chained(d@),
            old(self).page_count == d@.pages.len(),
            old(self).dictionaries_read <= old(self).allowance(d@),
            old(self).wf(),
            old(self).closed_under(d@),
            old(self).justified(d@),
            old(self).at_page < d@.pages.len(),
            d@.pages[old(self).at_page as int] == page as nat,
            old(self).n == d@.objects.len(),
            old(self).at_page < old(self).page_count,
            old(self).container is None,
        ensures
            final(self).chained(d@),
            final(self).dictionaries_read <= final(self).allowance(d@),
            r is Err && cycle_refusal(r->Err_0) ==> has_cycle(d@),
            !has_cycle(d@) && layered(d@, h) && within_work(d@) && annotations_readable(d@, page as nat) ==> r is Ok,
            final(self).wf(),
            r is Ok ==> final(self).closed_under(d@),
            final(self).justified(d@),
            final(self).same_contents(old(self)),
            final(self).grows(old(self)),
            r is Err ==> graph_refusal(r->Err_0) || annots_refusal(r->Err_0),
            r is Err && r->Err_0 is Malformed ==> !annotations_readable(d@, page as nat),
            r is Ok ==> final(self).appearances_walked(d@, page as nat),
            r is Ok ==> annotations_readable(d@, page as nat),
            flat(d@) && old(self).open@.len() == 0 && r is Err ==> annots_refusal(r->Err_0),
            flat(d@) && old(self).open@.len() == 0 && annotations_readable(d@, page as nat)
                ==> r is Ok && final(self).dictionaries_read == old(self).dictionaries_read,
            flat(d@) && old(self).open@.len() == 0 && (forall|y: nat| !#[trigger] appearance_of(d@, page as nat, y))
                ==> final(self).edges@ == old(self).edges@ && final(self).page_reaches@ == old(self).page_reaches@,
    {
        let ak = annots();
        let items = match d.target(d.get(page, &ak)) {
            Some(a) => match &d.objects[a].body {
                Body::Array(vs) => vs,
                _ => {
                    proof {
                        lemma_readable(d@, page as nat);
                    }
                    return Ok(());
                },
            },
            None => {
                proof {
                    lemma_readable(d@, page as nat);
                }
                return Ok(());
            },
        };
        let ghost a = target(d@, key_of(d@, page as nat, crate::names::spec_annots()))->0;
        let ghost vs = crate::graph::values_view(items@);
        assert(d@.objects[a as int].body == BodyV::Array(vs));
        let apk = ap();
        let states = vec![n_state(), d_state(), r_state()];
        assert(states@[0]@ == state_key(0) && states@[1]@ == state_key(1) && states@[2]@ == state_key(2));
        proof {
            if annotations_readable(d@, page as nat) {
                lemma_readable_items(d@, page as nat, a, vs);
            }
        }
        let ghost start = *self;
        let mut j: usize = 0;
        while j < items.len()
            invariant
                self.wf(),
                self.n == d@.objects.len(),
                self.at_page < self.page_count,
                start == *old(self),
                self.same_contents(&start),
                self.grows(&start),
                self.container is None,
                j <= items@.len(),
                vs == crate::graph::values_view(items@),
                apk@ == crate::names::spec_ap(),
                states@.len() == 3,
                forall|s: int| 0 <= s < 3 ==> #[trigger] states@[s]@ == state_key(s),
                forall|i: int, s: int| 0 <= i < j && 0 <= s < 3 ==> #[trigger] self.appearance_done(d@, vs[i], state_key(s)),
                flat(d@) && start.open@.len() == 0 ==> self.dictionaries_read == start.dictionaries_read,
                flat(d@) && start.open@.len() == 0 && (forall|y: nat| !#[trigger] appearance_of(d@, page as nat, y))
                    ==> self.edges@ == start.edges@ && self.page_reaches@ == start.page_reaches@,
                annotations_readable(d@, page as nat) ==> forall|i: int| 0 <= i < vs.len() ==> #[trigger] annotation_item_ok(d@, vs[i]),
                self.closed_under(d@),
                self.justified(d@),
                self.chained(d@),
                self.page_count == d@.pages.len(),
                self.dictionaries_read <= self.allowance(d@),
                target(d@, key_of(d@, page as nat, crate::names::spec_annots())) == Some(a),
                d@.objects[a as int].body == BodyV::Array(vs),
                forall|i: int| 0 <= i < j ==> #[trigger] annotation_item_ok(d@, vs[i]),
                self.at_page < d@.pages.len(),
                d@.pages[self.at_page as int] == page as nat,
            decreases items.len() - j,
        {
            assert(vs[j as int] == items@[j as int]@);
            let acceptable = d.reads_null(Some(&items[j])) || match d.target(Some(&items[j])) {
                Some(k) => match &d.objects[k].body {
                    Body::Dictionary(_) => true,
                    Body::Stream(_, _) => true,
                    Body::Array(_) => false,
                },
                None => false,
            };
            if !acceptable {
                assert(!annotation_item_ok(d@, vs[j as int]));
                proof {
                    lemma_unreadable(d@, page as nat, a, vs, j as int);
                }
                return Err(malformed(
                    "qpdf sharing [not-a-dictionary-where-one-belongs]: an /Annots entry that is neither an annotation dictionary nor null",
                ));
            }
            let ghost before = *self;
            let appearances = match d.target(Some(&items[j])) {
                Some(k) => d.dictionary_target(d.get(k, &apk)),
                None => None,
            };
            match appearances {
                Some(aps) => {
                    let mut s: usize = 0;
                    while s < states.len()
                        invariant
                            self.wf(),
                            self.n == d@.objects.len(),
                            self.at_page < self.page_count,
                            start == *old(self),
                            self.same_contents(&start),
                            self.grows(&before),
                            before.grows(&start),
                            self.container is None,
                            aps < d@.objects.len(),
                            target(d@, Some(vs[j as int])) matches Some(k)
                                && dictionary_target(d@, key_of(d@, k, crate::names::spec_ap())) == Some(aps as nat),
                            states@.len() == 3,
                            forall|t: int| 0 <= t < 3 ==> #[trigger] states@[t]@ == state_key(t),
                            s <= 3,
                            self.closed_under(d@),
                            self.justified(d@),
                            self.chained(d@),
                            self.page_count == d@.pages.len(),
                            self.dictionaries_read <= self.allowance(d@),
                            flat(d@) && start.open@.len() == 0 ==> self.dictionaries_read == start.dictionaries_read,
                            flat(d@) && start.open@.len() == 0 && (forall|y: nat| !#[trigger] appearance_of(d@, page as nat, y))
                                ==> self.edges@ == start.edges@ && self.page_reaches@ == start.page_reaches@,
                            forall|t: int| 0 <= t < s ==> #[trigger] self.appearance_done(d@, vs[j as int], state_key(t)),
                            self.at_page < d@.pages.len(),
                            d@.pages[self.at_page as int] == page as nat,
                            target(d@, key_of(d@, page as nat, crate::names::spec_annots())) == Some(a),
                            d@.objects[a as int].body == BodyV::Array(vs),
                            0 <= j < vs.len(),
                        decreases states.len() - s,
                    {
                        let ghost mid = *self;
                        let appearance = d.get(aps, &states[s]);
                        match d.dictionary_target(appearance) {
                            Some(by_state) => {
                                proof {
                                    let bes = entries_of(d@.objects[by_state as int]);
                                    assert forall|q: int| 0 <= q < bes.len() && first_key(bes, q)
                                        implies (#[trigger] crate::scope::stream_target(d@, Some(bes[q].1)) matches Some(y) ==> self.source_ok(d@, y)) by {
                                        if let Some(y) = crate::scope::stream_target(d@, Some(bes[q].1)) {
                                            assert(appears_under(d@, vs[j as int], state_key(s as int), y));
                                            lemma_appearance(d@, page as nat, a, vs, j as int, s as int, y);
                                        }
                                    }
                                    assert forall|q: int| 0 <= q < bes.len() && first_key(bes, q)
                                        implies (#[trigger] crate::scope::stream_target(d@, Some(bes[q].1)) matches Some(y) ==> self.may_draw(d@, h, 0, y)) by {
                                        if let Some(y) = crate::scope::stream_target(d@, Some(bes[q].1)) {
                                            assert(appears_under(d@, vs[j as int], state_key(s as int), y));
                                            lemma_appearance(d@, page as nat, a, vs, j as int, s as int, y);
                                            assert(appearance_of(d@, d@.pages[self.at_page as int], y));
                                        }
                                    }
                                }
                                self.drawables(d, by_state, true, 0, Ghost(h))?;
                                proof {
                                    if flat(d@) && start.open@.len() == 0 && (forall|y: nat| !#[trigger] appearance_of(d@, page as nat, y)) {
                                        let bes = entries_of(d@.objects[by_state as int]);
                                        assert forall|q: int| 0 <= q < bes.len() && first_key(bes, q)
                                            implies #[trigger] crate::scope::stream_target(d@, Some(bes[q].1)) is None by {
                                            if let Some(y) = crate::scope::stream_target(d@, Some(bes[q].1)) {
                                                assert(appears_under(d@, vs[j as int], state_key(s as int), y));
                                                lemma_appearance(d@, page as nat, a, vs, j as int, s as int, y);
                                            }
                                        }
                                        lemma_form_draws_none(d@, bes, bes.len() as int);
                                        assert(self.page_reaches@ =~= mid.page_reaches@);
                                    }
                                }
                            },
                            None => {
                                proof {
                                    if let Some(y) = crate::scope::stream_target(d@, opt_view(appearance)) {
                                        assert(appears_under(d@, vs[j as int], state_key(s as int), y));
                                        lemma_appearance(d@, page as nat, a, vs, j as int, s as int, y);
                                        assert(appearance_of(d@, d@.pages[self.at_page as int], y));
                                    }
                                }
                                self.drawable(d, appearance, true, 0, Ghost(h))?;
                                proof {
                                    if flat(d@) && start.open@.len() == 0 && (forall|y: nat| !#[trigger] appearance_of(d@, page as nat, y)) {
                                        if let Some(y) = crate::scope::stream_target(d@, opt_view(appearance)) {
                                            assert(appears_under(d@, vs[j as int], state_key(s as int), y));
                                            lemma_appearance(d@, page as nat, a, vs, j as int, s as int, y);
                                        }
                                    }
                                }
                            },
                        }
                        proof {
                            assert forall|t: int| 0 <= t < s + 1 implies #[trigger] self.appearance_done(d@, vs[j as int], state_key(t)) by {
                                if t < s {
                                    lemma_appearance_kept(mid, *self, d@, vs[j as int], state_key(t));
                                }
                            }
                        }
                        s += 1;
                    }
                },
                None => {},
            }
            proof {
                assert forall|i: int, t: int| 0 <= i < j + 1 && 0 <= t < 3 implies #[trigger] self.appearance_done(d@, vs[i], state_key(t)) by {
                    if i < j {
                        lemma_appearance_kept(before, *self, d@, vs[i], state_key(t));
                    }
                }
            }
            j += 1;
        }
        proof {
            lemma_readable(d@, page as nat);
        }
        Ok(())
    }

    /// One page: its content streams, its resources (inherited when it has none), then its
    /// annotations' appearances.
    #[verifier::spinoff_prover]
    fn page(&mut self, d: &Document, page: usize, Ghost(h): Ghost<spec_fn(nat) -> nat>) -> (r: Result<()>)
        requires
            old(self).chained(d@),
            old(self).page_count == d@.pages.len(),
            old(self).dictionaries_read < old(self).allowance(d@),
            old(self).wf(),
            old(self).closed_under(d@),
            old(self).justified(d@),
            old(self).at_page < d@.pages.len(),
            d@.pages[old(self).at_page as int] == page as nat,
            old(self).n == d@.objects.len(),
            old(self).at_page < old(self).page_count,
            old(self).container is None,
        ensures
            final(self).chained(d@),
            final(self).dictionaries_read <= final(self).allowance(d@),
            r is Err && cycle_refusal(r->Err_0) ==> has_cycle(d@),
            !has_cycle(d@) && layered(d@, h) && within_work(d@) && !contents_too_long(d@, page as nat)
                && page_resources(d@, page as nat) is Some && annotations_readable(d@, page as nat) ==> r is Ok,
            final(self).wf(),
            r is Ok ==> final(self).closed_under(d@),
            final(self).justified(d@),
            final(self).n == old(self).n && final(self).page_count == old(self).page_count && final(self).at_page == old(self).at_page,
            final(self).container is None,
            r is Err ==> graph_refusal(r->Err_0) || too_many_refusal(r->Err_0) || page_tree_refusal(r->Err_0) || annots_refusal(r->Err_0),
            r is Err && r->Err_0 is Malformed ==> page_resources(d@, page as nat) is None || !annotations_readable(d@, page as nat),
            r is Ok ==> !contents_too_long(d@, page as nat) && page_resources(d@, page as nat) is Some,
            final(self).open@ == old(self).open@,
            r is Ok ==> final(self).grows(old(self)),
            r is Ok ==> annotations_readable(d@, page as nat),
            flat(d@) && old(self).open@.len() == 0 && old(self).dictionaries_read < MAX_RESOURCE_DICTIONARIES
                && !contents_too_long(d@, page as nat) && page_resources(d@, page as nat) is Some && r is Err
                ==> annots_refusal(r->Err_0),
            r is Ok ==> match page_resources(d@, page as nat) {
                Some(Some(res)) => final(self).page_recorded(d@, old(self).at_page, res),
                _ => true,
            },
            r is Ok ==> forall|x: int| 0 <= x < old(self).n ==> #[trigger] final(self).content_refs@[x]
                == capped(old(self).content_refs@[x] + occurrences(page_streams(d@, page as nat), x)),
            r is Ok ==> forall|x: int, p: usize| 0 <= x < old(self).n ==> (#[trigger] final(self).content_pages@[x]@.contains(p) <==>
                old(self).content_pages@[x]@.contains(p) || (p == old(self).at_page && page_streams(d@, page as nat).contains(x as nat))),
            flat(d@) && old(self).open@.len() == 0 && old(self).dictionaries_read < MAX_RESOURCE_DICTIONARIES
                && !contents_too_long(d@, page as nat) && page_resources(d@, page as nat) is Some && annotations_readable(d@, page as nat)
                ==> r is Ok && final(self).dictionaries_read <= old(self).dictionaries_read + 1,
            flat(d@) && old(self).open@.len() == 0 && old(self).dictionaries_read < MAX_RESOURCE_DICTIONARIES
                && (forall|y: nat| !#[trigger] appearance_of(d@, page as nat, y)) && r is Ok
                ==> final(self).edges@ == old(self).edges@ && final(self).page_reaches@ == old(self).page_reaches@
                    + tagged(old(self).at_page, match page_resources(d@, page as nat) {
                        Some(Some(res)) => dictionary_draws(d@, res),
                        _ => Seq::<usize>::empty(),
                    }),
    {
        let ghost entering = *self;
        let contents = self.page_contents(d, page);
        if contents.is_err() {
            proof {
                lemma_messages_differ();
            }
            return contents;
        }
        let ghost counted = *self;
        proof {
            lemma_untouched_grows(*old(self), *self);
            lemma_closed_kept(*old(self), *self, d@);
            lemma_justified_same(*old(self), *self, d@);
        }
        let found = inherited_resources(d, page)?;
        match found {
            Some(r) => {
                proof {
                    lemma_page_reads_its_resources(d@, self.at_page as int, r as nat);
                    assert(page_resources(d@, d@.pages[self.at_page as int]) == Some(Some(r as nat)));
                }
                self.resources(d, r, 0, Ghost(h))?;
                proof {
                    lemma_page_recorded_from_walk(*self, d@, r as nat);
                    lemma_grows_trans(*old(self), counted, *self);
                }
            },
            None => {},
        }
        proof {
            if flat(d@) && old(self).open@.len() == 0 && old(self).dictionaries_read < MAX_RESOURCE_DICTIONARIES {
                if found is None {
                    assert(self.page_reaches@ =~= old(self).page_reaches@ + tagged(old(self).at_page, Seq::<usize>::empty()));
                }
            }
        }
        let ghost read = *self;
        let result = self.annotations(d, page, Ghost(h));
        proof {
            if result is Ok {
                lemma_grows_trans(*old(self), read, *self);
                if let Some(r) = found {
                    lemma_page_recorded_kept(read, *self, d@, old(self).at_page, r as nat);
                }
            }
        }
        result
    }
}

/// Add `p` to the set at `at`, keeping every entry below `bound`.
fn add_to(sets: &mut Vec<Vec<usize>>, at: usize, p: usize, Ghost(bound): Ghost<nat>)
    requires
        at < old(sets)@.len(),
        p < bound,
        forall|x: int, k: int| 0 <= x < old(sets)@.len() && 0 <= k < old(sets)@[x]@.len() ==> #[trigger] old(sets)@[x]@[k] < bound,
    ensures
        final(sets)@.len() == old(sets)@.len(),
        forall|x: int, k: int| 0 <= x < final(sets)@.len() && 0 <= k < final(sets)@[x]@.len() ==> #[trigger] final(sets)@[x]@[k] < bound,
        forall|x: int, q: usize| 0 <= x < old(sets)@.len() ==> (#[trigger] final(sets)@[x]@.contains(q) <==>
            old(sets)@[x]@.contains(q) || (x == at && q == p)),
{
    if !holds(&sets[at], p) {
        let mut v = sets[at].clone();
        assert(v@ =~= old(sets)@[at as int]@);
        let ghost before = v@;
        v.push(p);
        sets.set(at, v);
        proof {
            assert forall|x: int, q: usize| 0 <= x < old(sets)@.len() implies (#[trigger] sets@[x]@.contains(q) <==>
                old(sets)@[x]@.contains(q) || (x == at && q == p)) by {
                if x == at as int {
                    if sets@[x]@.contains(q) && q != p {
                        let k = choose|k: int| 0 <= k < sets@[x]@.len() && sets@[x]@[k] == q;
                        assert(before[k] == q);
                    }
                    if before.contains(q) {
                        let k = choose|k: int| 0 <= k < before.len() && before[k] == q;
                        assert(sets@[x]@[k] == q);
                    }
                    if q == p {
                        assert(sets@[x]@[before.len() as int] == q);
                    }
                }
            }
        }
    }
}

/// `path` is a chain of streams page `p` draws: the first straight from the page, each next
/// one from the one before.
pub open spec fn drawn_chain(page_refs: Seq<(usize, usize)>, refs: Seq<(usize, usize)>, p: usize, path: Seq<usize>) -> bool {
    &&& path.len() >= 1
    &&& page_refs.contains((p, path[0]))
    &&& forall|i: int| #![trigger path[i]] 0 <= i < path.len() - 1 ==> refs.contains((path[i], path[i + 1]))
}

/// Adding a justified page to a font's set keeps the font table justified.
proof fn lemma_fonts_sourced_add(w: Walk, f1: Seq<Vec<usize>>, f2: Seq<Vec<usize>>, at: usize, q0: usize)
    requires
        w.fonts_sourced(f1),
        f2.len() == f1.len(),
        at < f1.len(),
        forall|x: int, q: usize| 0 <= x < f1.len() ==> (#[trigger] f2[x]@.contains(q) <==> f1[x]@.contains(q) || (x == at && q == q0)),
        w.font_sourced(at, q0),
    ensures
        w.fonts_sourced(f2),
{
    assert forall|f: int, q: usize| 0 <= f < f2.len() && #[trigger] f2[f]@.contains(q) implies w.font_sourced(f as usize, q) by {
        if !(f == at && q == q0) {
            assert(f1[f]@.contains(q));
        }
    }
}

/// A marking closed under `edges` marks the whole of every chain whose start it marks.
proof fn lemma_chain_marked(marked: Seq<bool>, edges: Seq<(usize, usize)>, path: Seq<usize>)
    requires
        path.len() >= 1,
        marked[path[0] as int],
        forall|i: int| #![trigger path[i]] 0 <= i < path.len() - 1 ==> edges.contains((path[i], path[i + 1])),
        forall|k: int| 0 <= k < edges.len() && #[trigger] marked[edges[k].0 as int] ==> marked[edges[k].1 as int],
    ensures
        marked[path.last() as int],
    decreases path.len(),
{
    if path.len() > 1 {
        let prefix = path.drop_last();
        assert forall|i: int| #![trigger prefix[i]] 0 <= i < prefix.len() - 1 implies edges.contains((prefix[i], prefix[i + 1])) by {
            assert(prefix[i] == path[i]);
            assert(prefix[i + 1] == path[i + 1]);
        }
        lemma_chain_marked(marked, edges, prefix);
        let i = path.len() - 2;
        assert(prefix.last() == path[i]);
        assert(edges.contains((path[i], path[i + 1])));
        let k = choose|k: int| 0 <= k < edges.len() && edges[k] == (path[i], path[i + 1]);
        assert(marked[edges[k].0 as int]);
    }
}

/// Adding to the font table keeps what it recorded of chains.
proof fn lemma_chain_fonts_kept(w: Walk, f1: Seq<Vec<usize>>, f2: Seq<Vec<usize>>, p: usize)
    requires
        w.chain_fonts_in(f1, p),
        f2.len() == f1.len(),
        forall|x: int, q: usize| 0 <= x < f1.len() ==> (#[trigger] f1[x]@.contains(q) ==> f2[x]@.contains(q)),
    ensures
        w.chain_fonts_in(f2, p),
{
    assert forall|path: Seq<usize>, f: usize|
        #[trigger] drawn_chain(w.page_reaches@, w.edges@, p, path) && #[trigger] w.container_fonts@.contains((path.last(), f))
        implies f < f2.len() && f2[f as int]@.contains(p) by {
        assert(f1[f as int]@.contains(p));
    }
}

/// `n` empty sets.
fn empty_sets(n: usize) -> (r: Vec<Vec<usize>>)
    ensures
        r@.len() == n,
        forall|x: int| 0 <= x < n ==> (#[trigger] r@[x])@.len() == 0,
{
    let mut r: Vec<Vec<usize>> = Vec::new();
    while r.len() < n
        invariant
            r@.len() <= n,
            forall|x: int| 0 <= x < r@.len() ==> (#[trigger] r@[x])@.len() == 0,
        decreases n - r.len(),
    {
        r.push(Vec::new());
    }
    r
}

/// `n` zeros.
fn zeros(n: usize) -> (r: Vec<usize>)
    ensures
        r@.len() == n,
        forall|x: int| 0 <= x < n ==> #[trigger] r@[x] == 0,
{
    let mut r: Vec<usize> = Vec::new();
    while r.len() < n
        invariant
            r@.len() <= n,
            forall|x: int| 0 <= x < r@.len() ==> #[trigger] r@[x] == 0,
        decreases n - r.len(),
    {
        r.push(0);
    }
    r
}

/// `n` falses.
fn unmarked(n: usize) -> (r: Vec<bool>)
    ensures
        r@.len() == n,
        forall|x: int| 0 <= x < n ==> !#[trigger] r@[x],
{
    let mut r: Vec<bool> = Vec::new();
    while r.len() < n
        invariant
            r@.len() <= n,
            forall|x: int| 0 <= x < r@.len() ==> !#[trigger] r@[x],
        decreases n - r.len(),
    {
        r.push(false);
    }
    r
}

/// The objects marked in `m`.
pub open spec fn marks(m: Seq<bool>) -> Set<int> {
    Set::new(|x: int| 0 <= x < m.len() && m[x])
}

/// Everything `starts` reach along `edges`, themselves included.
/// `path` starts at one of `starts` and follows `edges`.
spec fn starts_chain(edges: Seq<(usize, usize)>, starts: Seq<usize>, path: Seq<usize>) -> bool {
    &&& path.len() >= 1
    &&& starts.contains(path[0])
    &&& forall|i: int| #![trigger path[i]] 0 <= i < path.len() - 1 ==> edges.contains((path[i], path[i + 1]))
}

/// A chain followed one edge further is still a chain.
#[verifier::spinoff_prover]
proof fn lemma_chain_push(edges: Seq<(usize, usize)>, starts: Seq<usize>, path: Seq<usize>, to: usize)
    requires
        starts_chain(edges, starts, path),
        edges.contains((path.last(), to)),
    ensures
        starts_chain(edges, starts, path.push(to)),
        path.push(to).last() == to,
{
    let q = path.push(to);
    assert(q[0] == path[0]);
    assert forall|i: int| #![trigger q[i]] 0 <= i < q.len() - 1 implies edges.contains((q[i], q[i + 1])) by {
        if i < path.len() - 1 {
            assert(q[i] == path[i] && q[i + 1] == path[i + 1]);
            assert(edges.contains((path[i], path[i + 1])));
        } else {
            assert(q[i] == path.last());
        }
    }
}

#[verifier::spinoff_prover]
#[verifier::rlimit(60)]
fn closure_over(n: usize, edges: &Vec<(usize, usize)>, starts: &Vec<usize>) -> (r: Vec<bool>)
    requires
        edges_within(edges@, n as nat),
        forall|i: int| 0 <= i < starts@.len() ==> #[trigger] starts@[i] < n,
    ensures
        r@.len() == n,
        forall|i: int| 0 <= i < starts@.len() ==> #[trigger] r@[starts@[i] as int],
        forall|k: int| 0 <= k < edges@.len() && #[trigger] r@[edges@[k].0 as int] ==> r@[edges@[k].1 as int],
        forall|x: int| 0 <= x < n && #[trigger] r@[x] ==> exists|path: Seq<usize>| #[trigger] starts_chain(edges@, starts@, path)
            && path.last() == x as usize,
{
    let mut marked = unmarked(n);
    let mut order: Vec<usize> = Vec::new();
    assert(marks(marked@) =~= Set::<int>::empty());
    let mut k: usize = 0;
    while k < starts.len()
        invariant
            edges_within(edges@, n as nat),
            forall|i: int| 0 <= i < starts@.len() ==> #[trigger] starts@[i] < n,
            k <= starts@.len(),
            marked@.len() == n,
            marks(marked@).len() == order@.len(),
            marks(marked@).finite(),
            forall|j: int| 0 <= j < order@.len() ==> #[trigger] order@[j] < n,
            forall|x: int| 0 <= x < n ==> (#[trigger] marked@[x] <==> order@.contains(x as usize)),
            forall|i: int| 0 <= i < k ==> #[trigger] marked@[starts@[i] as int],
            forall|x: int| 0 <= x < n && #[trigger] marked@[x] ==> exists|path: Seq<usize>| #[trigger] starts_chain(edges@, starts@, path)
                && path.last() == x as usize,
        decreases starts.len() - k,
    {
        let y = starts[k];
        if !marked[y] {
            let ghost before = marked@;
            let ghost listed = order@;
            marked.set(y, true);
            order.push(y);
            assert(marks(marked@) =~= marks(before).insert(y as int));
            proof {
                let one = seq![y];
                assert(starts@[k as int] == y);
                assert(starts_chain(edges@, starts@, one));
                assert(one.last() == y);
                assert forall|x: int| 0 <= x < n && #[trigger] marked@[x] implies exists|path: Seq<usize>| #[trigger] starts_chain(edges@, starts@, path)
                    && path.last() == x as usize by {
                    if x != y as int {
                        assert(before[x]);
                    }
                }
                assert forall|x: int| 0 <= x < n implies (#[trigger] marked@[x] <==> order@.contains(x as usize)) by {
                    if x == y as int {
                        assert(order@[listed.len() as int] == y);
                    } else {
                        if order@.contains(x as usize) {
                            let w = choose|w: int| 0 <= w < order@.len() && order@[w] == x as usize;
                            assert(w < listed.len());
                            assert(listed[w] == x as usize);
                        }
                        if listed.contains(x as usize) {
                            let w = choose|w: int| 0 <= w < listed.len() && listed[w] == x as usize;
                            assert(order@[w] == x as usize);
                        }
                    }
                }
            }
        }
        k += 1;
    }
    proof {
        vstd::set_lib::lemma_int_range(0, n as int);
        vstd::set_lib::lemma_len_subset(marks(marked@), vstd::set_lib::set_int_range(0, n as int));
    }
    let mut i: usize = 0;
    while i < order.len()
        invariant
            edges_within(edges@, n as nat),
            i <= order@.len(),
            order@.len() <= n,
            marked@.len() == n,
            marks(marked@).len() == order@.len(),
            marks(marked@).finite(),
            forall|j: int| 0 <= j < order@.len() ==> #[trigger] order@[j] < n,
            forall|x: int| 0 <= x < n ==> (#[trigger] marked@[x] <==> order@.contains(x as usize)),
            forall|t: int| 0 <= t < starts@.len() ==> #[trigger] starts@[t] < n,
            forall|t: int| 0 <= t < starts@.len() ==> #[trigger] marked@[starts@[t] as int],
            forall|j: int, e: int| 0 <= j < i && 0 <= e < edges@.len() && #[trigger] edges@[e].0 == #[trigger] order@[j]
                ==> marked@[edges@[e].1 as int],
            forall|x: int| 0 <= x < n && #[trigger] marked@[x] ==> exists|path: Seq<usize>| #[trigger] starts_chain(edges@, starts@, path)
                && path.last() == x as usize,
        decreases n - i,
    {
        let x = order[i];
        let mut e: usize = 0;
        while e < edges.len()
            invariant
                edges_within(edges@, n as nat),
                i < order@.len(),
                x == order@[i as int],
                e <= edges@.len(),
                marked@.len() == n,
                marks(marked@).len() == order@.len(),
                marks(marked@).finite(),
                forall|j: int| 0 <= j < order@.len() ==> #[trigger] order@[j] < n,
                forall|y: int| 0 <= y < n ==> (#[trigger] marked@[y] <==> order@.contains(y as usize)),
                forall|t: int| 0 <= t < starts@.len() ==> #[trigger] starts@[t] < n,
                forall|t: int| 0 <= t < starts@.len() ==> #[trigger] marked@[starts@[t] as int],
                forall|j: int, f: int| 0 <= j < i && 0 <= f < edges@.len() && #[trigger] edges@[f].0 == #[trigger] order@[j]
                    ==> marked@[edges@[f].1 as int],
                forall|f: int| 0 <= f < e && #[trigger] edges@[f].0 == x ==> marked@[edges@[f].1 as int],
                forall|x: int| 0 <= x < n && #[trigger] marked@[x] ==> exists|path: Seq<usize>| #[trigger] starts_chain(edges@, starts@, path)
                    && path.last() == x as usize,
            decreases edges.len() - e,
        {
            let (from, to) = edges[e];
            if from == x && !marked[to] {
                let ghost before = marked@;
                let ghost listed = order@;
                marked.set(to, true);
                order.push(to);
                assert(marks(marked@) =~= marks(before).insert(to as int));
                proof {
                    assert(order@[i as int] == x);
                    assert(listed.contains(x));
                    assert(before[x as int]);
                    let px = choose|path: Seq<usize>| #[trigger] starts_chain(edges@, starts@, path) && path.last() == x;
                    assert(edges@[e as int] == (x, to));
                    assert(edges@.contains((px.last(), to)));
                    lemma_chain_push(edges@, starts@, px, to);
                    assert forall|y2: int| 0 <= y2 < n && #[trigger] marked@[y2] implies exists|path: Seq<usize>| #[trigger] starts_chain(edges@, starts@, path)
                        && path.last() == y2 as usize by {
                        if y2 != to as int {
                            assert(before[y2]);
                        } else {
                            assert(starts_chain(edges@, starts@, px.push(to)));
                        }
                    }
                    assert forall|y: int| 0 <= y < n implies (#[trigger] marked@[y] <==> order@.contains(y as usize)) by {
                        if y == to as int {
                            assert(order@[listed.len() as int] == to);
                        } else {
                            if order@.contains(y as usize) {
                                let w = choose|w: int| 0 <= w < order@.len() && order@[w] == y as usize;
                                assert(w < listed.len());
                                assert(listed[w] == y as usize);
                            }
                            if listed.contains(y as usize) {
                                let w = choose|w: int| 0 <= w < listed.len() && listed[w] == y as usize;
                                assert(order@[w] == y as usize);
                            }
                        }
                    }
                    assert forall|t: int| 0 <= t < starts@.len() implies #[trigger] marked@[starts@[t] as int] by {
                        assert(before[starts@[t] as int]);
                    }
                    assert forall|f: int| 0 <= f < e && #[trigger] edges@[f].0 == x implies marked@[edges@[f].1 as int] by {
                        assert(before[edges@[f].1 as int]);
                    }
                    assert forall|j: int, f: int| 0 <= j < i && 0 <= f < edges@.len() && #[trigger] edges@[f].0 == #[trigger] order@[j]
                        implies marked@[edges@[f].1 as int] by {
                        assert(listed[j] == order@[j]);
                        assert(before[edges@[f].1 as int]);
                    }
                }
            }
            e += 1;
        }
        proof {
            vstd::set_lib::lemma_int_range(0, n as int);
            vstd::set_lib::lemma_len_subset(marks(marked@), vstd::set_lib::set_int_range(0, n as int));
        }
        i += 1;
    }
    proof {
        assert forall|k: int| 0 <= k < edges@.len() && #[trigger] marked@[edges@[k].0 as int] implies marked@[edges@[k].1 as int] by {
            let c = edges@[k].0;
            assert(order@.contains(c));
            let j = choose|j: int| 0 <= j < order@.len() && order@[j] == c;
            assert(edges@[k].0 == order@[j]);
        }
    }
    marked
}

impl Walk {
    /// Which pages use each font: the fonts each page names itself, and the fonts every
    /// container it reaches names, joined over the references the walk recorded. A font
    /// named inside a form a page draws is a font that page uses.
    #[verifier::spinoff_prover]
    #[verifier::rlimit(40)]
    fn fonts_to_pages(&self) -> (r: Vec<Vec<usize>>)
        requires
            self.wf(),
        ensures
            r@.len() == self.n,
            forall|x: int, k: int| 0 <= x < r@.len() && 0 <= k < r@[x]@.len() ==> #[trigger] r@[x]@[k] < self.page_count,
            forall|k: int| 0 <= k < self.page_fonts@.len() ==> #[trigger] r@[self.page_fonts@[k].1 as int]@.contains(self.page_fonts@[k].0),
            forall|q: usize| q < self.page_count ==> #[trigger] self.chain_fonts_in(r@, q),
            self.fonts_sourced(r@),
    {
        let n = self.n;
        let mut fonts = empty_sets(n);
        assert(self.fonts_sourced(fonts@));
        let mut p: usize = 0;
        while p < self.page_count
            invariant
                self.wf(),
                n == self.n,
                p <= self.page_count,
                fonts@.len() == n,
                forall|x: int, k: int| 0 <= x < fonts@.len() && 0 <= k < fonts@[x]@.len() ==> #[trigger] fonts@[x]@[k] < self.page_count,
                forall|q: usize| q < p ==> #[trigger] self.chain_fonts_in(fonts@, q),
                self.fonts_sourced(fonts@),
            decreases self.page_count - p,
        {
            let mut starts: Vec<usize> = Vec::new();
            let mut j: usize = 0;
            while j < self.page_reaches.len()
                invariant
                    self.wf(),
                    n == self.n,
                    j <= self.page_reaches@.len(),
                    forall|i: int| 0 <= i < starts@.len() ==> #[trigger] starts@[i] < n,
                    forall|k: int| #![trigger self.page_reaches@[k]] 0 <= k < j && self.page_reaches@[k].0 == p
                        ==> starts@.contains(self.page_reaches@[k].1),
                    forall|i: int| 0 <= i < starts@.len() ==> self.page_reaches@.contains((p, #[trigger] starts@[i])),
                decreases self.page_reaches.len() - j,
            {
                let (page, form) = self.page_reaches[j];
                let ghost listed = starts@;
                if page == p {
                    starts.push(form);
                    proof {
                        assert(self.page_reaches@[j as int] == (p, form));
                        assert forall|i: int| 0 <= i < starts@.len() implies self.page_reaches@.contains((p, #[trigger] starts@[i])) by {
                            if i < listed.len() {
                                assert(starts@[i] == listed[i]);
                            }
                        }
                        assert(starts@[listed.len() as int] == form);
                        assert forall|k: int| #![trigger self.page_reaches@[k]] 0 <= k < j && self.page_reaches@[k].0 == p
                            implies starts@.contains(self.page_reaches@[k].1) by {
                            let w = choose|w: int| 0 <= w < listed.len() && listed[w] == self.page_reaches@[k].1;
                            assert(starts@[w] == listed[w]);
                        }
                    }
                }
                j += 1;
            }
            let reached = closure_over(n, &self.edges, &starts);
            let mut c: usize = 0;
            while c < self.container_fonts.len()
                invariant
                    self.wf(),
                    n == self.n,
                    p < self.page_count,
                    reached@.len() == n,
                    c <= self.container_fonts@.len(),
                    fonts@.len() == n,
                    forall|x: int, k: int| 0 <= x < fonts@.len() && 0 <= k < fonts@[x]@.len() ==> #[trigger] fonts@[x]@[k] < self.page_count,
                    forall|q: usize| q < p ==> #[trigger] self.chain_fonts_in(fonts@, q),
                    forall|k: int| #![trigger self.container_fonts@[k]] 0 <= k < c && reached@[self.container_fonts@[k].0 as int]
                        ==> fonts@[self.container_fonts@[k].1 as int]@.contains(p),
                    self.fonts_sourced(fonts@),
                    forall|i: int| 0 <= i < starts@.len() ==> self.page_reaches@.contains((p, #[trigger] starts@[i])),
                    forall|x: int| 0 <= x < n && #[trigger] reached@[x] ==> exists|path: Seq<usize>| #[trigger] starts_chain(self.edges@, starts@, path)
                        && path.last() == x as usize,
                decreases self.container_fonts.len() - c,
            {
                let (container, font) = self.container_fonts[c];
                if reached[container] {
                    let ghost before = fonts@;
                    add_to(&mut fonts, font, p, Ghost(self.page_count as nat));
                    proof {
                        let path = choose|path: Seq<usize>| #[trigger] starts_chain(self.edges@, starts@, path) && path.last() == container;
                        let w = choose|w: int| 0 <= w < starts@.len() && starts@[w] == path[0];
                        assert(self.page_reaches@.contains((p, starts@[w])));
                        assert(drawn_chain(self.page_reaches@, self.edges@, p, path));
                        assert(self.container_fonts@[c as int] == (container, font));
                        assert(self.font_sourced(font, p));
                        lemma_fonts_sourced_add(*self, before, fonts@, font, p);
                        assert forall|q: usize| q < p implies #[trigger] self.chain_fonts_in(fonts@, q) by {
                            lemma_chain_fonts_kept(*self, before, fonts@, q);
                        }
                        assert forall|k: int| #![trigger self.container_fonts@[k]] 0 <= k < c + 1 && reached@[self.container_fonts@[k].0 as int]
                            implies fonts@[self.container_fonts@[k].1 as int]@.contains(p) by {
                            if k < c {
                                assert(before[self.container_fonts@[k].1 as int]@.contains(p));
                            }
                        }
                    }
                }
                c += 1;
            }
            proof {
                assert forall|path: Seq<usize>, f: usize|
                    #[trigger] drawn_chain(self.page_reaches@, self.edges@, p, path) && #[trigger] self.container_fonts@.contains((path.last(), f))
                    implies f < fonts@.len() && fonts@[f as int]@.contains(p) by {
                    let k0 = choose|k: int| 0 <= k < self.page_reaches@.len() && self.page_reaches@[k] == (p, path[0]);
                    assert(self.page_reaches@[k0].0 == p);
                    assert(starts@.contains(path[0]));
                    let w = choose|w: int| 0 <= w < starts@.len() && starts@[w] == path[0];
                    assert(reached@[starts@[w] as int]);
                    lemma_chain_marked(reached@, self.edges@, path);
                    let k1 = choose|k: int| 0 <= k < self.container_fonts@.len() && self.container_fonts@[k] == (path.last(), f);
                    assert(reached@[self.container_fonts@[k1].0 as int]);
                }
                assert(self.chain_fonts_in(fonts@, p));
            }
            p += 1;
        }
        let mut j: usize = 0;
        while j < self.page_fonts.len()
            invariant
                self.wf(),
                n == self.n,
                j <= self.page_fonts@.len(),
                fonts@.len() == n,
                forall|x: int, k: int| 0 <= x < fonts@.len() && 0 <= k < fonts@[x]@.len() ==> #[trigger] fonts@[x]@[k] < self.page_count,
                forall|k: int| 0 <= k < j ==> #[trigger] fonts@[self.page_fonts@[k].1 as int]@.contains(self.page_fonts@[k].0),
                forall|q: usize| q < self.page_count ==> #[trigger] self.chain_fonts_in(fonts@, q),
                self.fonts_sourced(fonts@),
            decreases self.page_fonts.len() - j,
        {
            let (page, font) = self.page_fonts[j];
            let ghost before = fonts@;
            add_to(&mut fonts, font, page, Ghost(self.page_count as nat));
            proof {
                assert(self.page_fonts@[j as int] == (page, font));
                assert(self.font_sourced(font, page));
                lemma_fonts_sourced_add(*self, before, fonts@, font, page);
                assert forall|k: int| 0 <= k < j + 1 implies #[trigger] fonts@[self.page_fonts@[k].1 as int]@.contains(self.page_fonts@[k].0) by {
                    if k < j {
                        assert(before[self.page_fonts@[k].1 as int]@.contains(self.page_fonts@[k].0));
                    }
                }
                assert forall|q: usize| q < self.page_count implies #[trigger] self.chain_fonts_in(fonts@, q) by {
                    lemma_chain_fonts_kept(*self, before, fonts@, q);
                }
            }
            j += 1;
        }
        fonts
    }

    /// Font `f` is one page `q` names itself, or one the last stream of a chain `q` draws
    /// names.
    spec fn font_sourced(&self, f: usize, q: usize) -> bool {
        ||| self.page_fonts@.contains((q, f))
        ||| exists|path: Seq<usize>| #[trigger] drawn_chain(self.page_reaches@, self.edges@, q, path)
            && self.container_fonts@.contains((path.last(), f))
    }

    /// Every page `fonts` records for a font is one [`Self::font_sourced`] justifies.
    spec fn fonts_sourced(&self, fonts: Seq<Vec<usize>>) -> bool {
        forall|f: int, q: usize| 0 <= f < fonts.len() && #[trigger] fonts[f]@.contains(q) ==> self.font_sourced(f as usize, q)
    }

    /// Every font named by the last stream of a chain page `p` draws is in `fonts` as used by
    /// page `p`.
    spec fn chain_fonts_in(&self, fonts: Seq<Vec<usize>>, p: usize) -> bool {
        forall|path: Seq<usize>, f: usize|
            #[trigger] drawn_chain(self.page_reaches@, self.edges@, p, path) && #[trigger] self.container_fonts@.contains((path.last(), f))
            ==> f < fonts.len() && fonts[f as int]@.contains(p)
    }
}

/// How many places draw each form, which pages use each font, and how many references each
/// page content stream has.
///
/// One walk over every page, checking the deadline at each: its content streams, its
/// resources (inherited when it declares none), then its annotations' appearances.
///
/// What it counts is tied to the document, both ways: every form and font a page's resources
/// name is recorded against that page, every form a reached form's resources name is recorded
/// as a reference from it, and the fonts of every form down a chain of references count for
/// the page at the top; and nothing else is recorded, since each page reference is a draw the
/// page makes, each reference a draw its stream makes, and each font a page uses one it or a
/// stream down a chain it draws names. The references it records never form a cycle, and a
/// reached form never draws itself. On a [`countable`] document with no annotation
/// appearances the count is exact: the page references are the forms each page's resources
/// name, page by page and in order, and there are no references between forms, so each form
/// is used exactly as often as pages name it. With a deadline every reading
/// of the clock keeps within, a [`countable`] document is always counted, and so is a
/// [`nested_countable`] one, whose forms draw forms without any reaching itself; the cycle
/// refusal comes only for a document where some stream's resources reach the stream itself.
///
/// # Errors
///
/// - `Unsupported` naming `contents-too-many`, `resource-graph-cycle`, `resource-graph-depth`
///   or `resource-graph-work`.
/// - `Malformed` for a page tree deeper than the climb to a page's resources.
/// - `LimitExceeded` for `max_duration_ms`.
#[verifier::spinoff_prover]
#[verifier::rlimit(80)]
pub fn count_form_uses<C: Clock>(d: &Document, deadline: &Deadline, clock: &C) -> (r: Result<FormUseCounts>)
    requires
        crate::graph::wf(d@),
    ensures
        r is Ok ==> r->Ok_0.wf() && r->Ok_0.objects() == d@.objects.len() && r->Ok_0.pages() == d@.pages.len(),
        r is Ok ==> forall|i: int| 0 <= i < d@.pages.len() ==> !contents_too_long(d@, #[trigger] d@.pages[i])
            && page_resources(d@, d@.pages[i]) is Some,
        r is Ok ==> forall|x: int| 0 <= x < d@.objects.len() ==> #[trigger] r->Ok_0.content_counts()[x]
            == capped(content_total(d@, d@.pages.len() as int, x) as int),
        r is Ok ==> forall|x: int, p: usize| 0 <= x < d@.objects.len() ==> (#[trigger] r->Ok_0.content_page(x, p) <==> references_content(d@, p as int, x)),
        r is Ok ==> forall|i: int| 0 <= i < d@.pages.len() ==> match page_resources(d@, #[trigger] d@.pages[i]) {
            Some(Some(res)) => r->Ok_0.page_counted(d@, i, res),
            _ => true,
        },
        r is Ok ==> forall|x: int| 0 <= x < d@.objects.len() && #[trigger] r->Ok_0.reached(x) ==> r->Ok_0.draws_counted(d@, x as nat),
        r is Ok ==> forall|p: usize, path: Seq<usize>| p < d@.pages.len()
            && #[trigger] drawn_chain(r->Ok_0.page_references(), r->Ok_0.references(), p, path)
            ==> r->Ok_0.fonts_counted(d@, path.last() as nat, p as int),
        r is Err ==> graph_refusal(r->Err_0) || too_many_refusal(r->Err_0) || page_tree_refusal(r->Err_0)
            || annots_refusal(r->Err_0) || r->Err_0 is LimitExceeded,
        r is Err && r->Err_0 is Malformed ==> exists|i: int| 0 <= i < d@.pages.len()
            && (page_resources(d@, #[trigger] d@.pages[i]) is None || !annotations_readable(d@, d@.pages[i])),
        r is Err && r->Err_0 is LimitExceeded ==> r->Err_0->stage == crate::error::Stage::Duration && r->Err_0->allowed == deadline.budget,
        deadline.holds_for(clock) && countable(d@) ==> r is Ok,
        countable(d@) && r is Err ==> r->Err_0 is LimitExceeded,
        countable(d@) && no_appearances(d@) && r is Ok ==> r->Ok_0.page_references() == document_draws(d@, d@.pages.len() as int)
            && r->Ok_0.references().len() == 0,
        r is Ok ==> forall|i: int| 0 <= i < d@.pages.len() ==> annotations_readable(d@, #[trigger] d@.pages[i]),
        r is Ok ==> forall|x: int| 0 <= x < d@.objects.len() && #[trigger] r->Ok_0.reached(x) ==> !draws_itself(d@, x as nat),
        r is Ok ==> forall|p: usize, y: usize| #[trigger] r->Ok_0.page_references().contains((p, y))
            ==> p < d@.pages.len() && page_draws_form(d@, p as int, y as nat),
        r is Ok ==> forall|c: usize, y: usize| #[trigger] r->Ok_0.references().contains((c, y)) ==> stream_draws_form(d@, c as nat, y as nat),
        r is Ok ==> forall|f: usize, p: usize| #[trigger] r->Ok_0.font_page(f as int, p as int)
            ==> page_names_font(d@, p as int, f as nat) || exists|path: Seq<usize>|
                #[trigger] drawn_chain(r->Ok_0.page_references(), r->Ok_0.references(), p, path)
                && stream_names_font(d@, path.last() as nat, f as nat),
        walkable(d@) && r is Err ==> r->Err_0 is LimitExceeded || annots_refusal(r->Err_0),
        deadline.holds_for(clock) && walkable(d@) && !countable(d@) ==> r is Err && annots_refusal(r->Err_0),
        r is Err && cycle_refusal(r->Err_0) ==> has_cycle(d@),
        deadline.holds_for(clock) && nested_countable(d@) ==> r is Ok,
{
    let ghost h: spec_fn(nat) -> nat = choose|h: spec_fn(nat) -> nat| #[trigger] layered(d@, h);
    let n = d.objects.len();
    let pc = d.pages.len();
    let mut walk = Walk {
        n,
        page_count: pc,
        direct: zeros(n),
        edges: Vec::new(),
        descended: unmarked(n),
        open: Vec::new(),
        container: None,
        fonts_read: unmarked(n),
        dictionaries_read: 0,
        page_fonts: Vec::new(),
        container_fonts: Vec::new(),
        font_parts: Vec::new(),
        content_refs: zeros(n),
        content_pages: empty_sets(n),
        page_reaches: Vec::new(),
        at_page: 0,
        finish: Ghost(Seq::new(n as nat, |x: int| 0nat)),
        tick: Ghost(0nat),
    };
    let mut i: usize = 0;
    while i < pc
        invariant
            crate::graph::wf(d@),
            n == d@.objects.len(),
            pc == d@.pages.len(),
            walk.wf(),
            walk.n == n,
            walk.page_count == pc,
            walk.container is None,
            i <= pc,
            forall|j: int| 0 <= j < i ==> !contents_too_long(d@, #[trigger] d@.pages[j]) && page_resources(d@, d@.pages[j]) is Some,
            forall|x: int| 0 <= x < n ==> #[trigger] walk.content_refs@[x] == capped(content_total(d@, i as int, x) as int),
            forall|x: int, p: usize| 0 <= x < n ==> (#[trigger] walk.content_pages@[x]@.contains(p) <==>
                (p < i && references_content(d@, p as int, x))),
            walk.closed_under(d@),
            walk.justified(d@),
            walk.open@.len() == 0,
            forall|j: int| 0 <= j < i ==> #[trigger] walk.page_done(d@, j),
            walkable(d@) ==> walk.dictionaries_read <= i,
            countable(d@) && no_appearances(d@) ==> walk.edges@.len() == 0 && walk.page_reaches@ == document_draws(d@, i as int),
            forall|j: int| 0 <= j < i ==> annotations_readable(d@, #[trigger] d@.pages[j]),
            walk.dictionaries_read <= i + marked_count(n as nat, walk.descended@, resourced_stream(d@))
                + marked_count(n as nat, walk.fonts_read@, resourced_glyph_font(d@)),
            nested_countable(d@) ==> layered(d@, h),
        decreases pc - i,
    {
        deadline.checkpoint(clock)?;
        let ghost prior = walk;
        walk.at_page = i;
        let page = d.pages[i];
        assert(d@.pages[i as int] == page as nat);
        proof {
            lemma_closed_kept(prior, walk, d@);
            lemma_justified_same(prior, walk, d@);
            assert forall|j: int| 0 <= j < i implies #[trigger] walk.page_done(d@, j) by {
                assert(prior.page_done(d@, j));
                if let Some(Some(res)) = page_resources(d@, d@.pages[j]) {
                    lemma_page_recorded_kept(prior, walk, d@, j as usize, res);
                }
            }
        }
        let ghost before = walk;
        proof {
            if countable(d@) && no_appearances(d@) {
                assert forall|y: nat| !#[trigger] appearance_of(d@, page as nat, y) by {
                    assert(!appearance_of(d@, d@.pages[i as int], y));
                }
            }
            if walkable(d@) {
                assert(!contents_too_long(d@, d@.pages[i as int]));
            }
            if countable(d@) {
                assert(annotations_readable(d@, d@.pages[i as int]));
            }
            if nested_countable(d@) {
                assert(!contents_too_long(d@, d@.pages[i as int]));
                assert(annotations_readable(d@, d@.pages[i as int]));
            }
            assert(walk.chained(d@));
        }
        walk.page(d, page, Ghost(h))?;
        proof {
            if countable(d@) && no_appearances(d@) {
                assert(page_draw_list(d@, i as int) == match page_resources(d@, page as nat) {
                    Some(Some(res)) => dictionary_draws(d@, res),
                    _ => Seq::<usize>::empty(),
                });
                assert(document_draws(d@, i + 1) == document_draws(d@, i as int) + tagged(i, page_draw_list(d@, i as int)));
            }
            assert forall|j: int| 0 <= j < i + 1 implies #[trigger] walk.page_done(d@, j) by {
                if j < i {
                    assert(before.page_done(d@, j));
                    if let Some(Some(res)) = page_resources(d@, d@.pages[j]) {
                        lemma_page_recorded_kept(before, walk, d@, j as usize, res);
                    }
                }
            }
            assert forall|x: int| 0 <= x < n implies #[trigger] walk.content_refs@[x] == capped(content_total(d@, i + 1, x) as int) by {
                assert(content_total(d@, i + 1, x) == content_total(d@, i as int, x) + occurrences(page_streams(d@, page as nat), x));
            }
            assert forall|x: int, p: usize| 0 <= x < n implies (#[trigger] walk.content_pages@[x]@.contains(p) <==>
                (p < i + 1 && references_content(d@, p as int, x))) by {
                if p == i {
                    assert(references_content(d@, p as int, x) == page_streams(d@, page as nat).contains(x as nat));
                }
            }
        }
        i += 1;
    }
    proof {
        assert forall|k: int| 0 <= k < walk.edges@.len() implies #[trigger] walk.finish@[walk.edges@[k].1 as int]
            < walk.finish@[walk.edges@[k].0 as int] by {
            assert(walk.edge_ordered(walk.edges@[k]));
        }
    }
    let fonts = walk.fonts_to_pages();
    let counts = propagate(&walk.direct, &walk.edges);
    let mut parts = empty_sets(n);
    let mut names = empty_sets(n);
    let mut j: usize = 0;
    while j < walk.font_parts.len()
        invariant
            walk.wf(),
            walk.n == n,
            j <= walk.font_parts@.len(),
            fonts@.len() == n,
            forall|x: int, k: int| 0 <= x < fonts@.len() && 0 <= k < fonts@[x]@.len() ==> #[trigger] fonts@[x]@[k] < walk.page_count,
            parts@.len() == n,
            forall|x: int, k: int| 0 <= x < parts@.len() && 0 <= k < parts@[x]@.len() ==> #[trigger] parts@[x]@[k] < walk.page_count,
            names@.len() == n,
            forall|x: int, k: int| 0 <= x < names@.len() && 0 <= k < names@[x]@.len() ==> #[trigger] names@[x]@[k] < n,
        decreases walk.font_parts.len() - j,
    {
        let (font, part) = walk.font_parts[j];
        add_to(&mut names, font, part, Ghost(n as nat));
        let pages = &fonts[font];
        let mut k: usize = 0;
        while k < pages.len()
            invariant
                walk.wf(),
                walk.n == n,
                font < n,
                part < n,
                fonts@.len() == n,
                forall|x: int, q: int| 0 <= x < fonts@.len() && 0 <= q < fonts@[x]@.len() ==> #[trigger] fonts@[x]@[q] < walk.page_count,
                pages@ == fonts@[font as int]@,
                k <= pages@.len(),
                parts@.len() == n,
                forall|x: int, q: int| 0 <= x < parts@.len() && 0 <= q < parts@[x]@.len() ==> #[trigger] parts@[x]@[q] < walk.page_count,
            decreases pages.len() - k,
        {
            add_to(&mut parts, part, pages[k], Ghost(walk.page_count as nat));
            k += 1;
        }
        j += 1;
    }
    let counts_out = FormUseCounts {
        direct: walk.direct,
        edges: walk.edges,
        counts,
        page_count: pc,
        fonts,
        font_parts: parts,
        font_part_names: names,
        content_refs: walk.content_refs,
        content_pages: walk.content_pages,
        page_forms: walk.page_reaches,
        descended: walk.descended,
        rank: Ghost(walk.finish@),
    };
    proof {
        assert forall|i: int| 0 <= i < d@.pages.len() implies match page_resources(d@, #[trigger] d@.pages[i]) {
            Some(Some(res)) => counts_out.page_counted(d@, i, res),
            _ => true,
        } by {
            assert(walk.page_done(d@, i));
            if let Some(Some(res)) = page_resources(d@, d@.pages[i]) {
                assert(walk.page_recorded(d@, i as usize, res));
                if let Some(xd) = dictionary_target(d@, key_of(d@, res, crate::names::spec_x_object())) {
                    let es = entries_of(d@.objects[xd as int]);
                    assert forall|j: int| 0 <= j < es.len() && first_key(es, j)
                        implies (#[trigger] crate::scope::stream_target(d@, Some(es[j].1)) matches Some(y)
                            ==> counts_out.reached(y as int) && counts_out.page_references().contains((i as usize, y as usize))) by {
                        assert(walk.page_drawn(d@, Some(es[j].1), i as usize));
                    }
                }
                if let Some(f) = dictionary_target(d@, key_of(d@, res, crate::names::spec_font())) {
                    let es = entries_of(d@.objects[f as int]);
                    assert forall|j: int| 0 <= j < es.len() && first_key(es, j)
                        implies (#[trigger] target(d@, Some(es[j].1)) matches Some(id) ==> counts_out.font_page(id as int, i)) by {
                        if let Some(id) = target(d@, Some(es[j].1)) {
                            assert(walk.page_fonts@.contains((i as usize, id as usize)));
                            let k = choose|k: int| 0 <= k < walk.page_fonts@.len() && walk.page_fonts@[k] == (i as usize, id as usize);
                            assert(fonts@[walk.page_fonts@[k].1 as int]@.contains(walk.page_fonts@[k].0));
                        }
                    }
                }
            }
        }
        assert forall|x: int| 0 <= x < d@.objects.len() && #[trigger] counts_out.reached(x) implies counts_out.draws_counted(d@, x as nat) by {
            assert(walk.descended@[x]);
            assert(walk.forms_recorded(d@, x as nat));
            if let Some(r) = dictionary_target(d@, key_of(d@, x as nat, crate::names::spec_resources())) {
                if let Some(xd) = dictionary_target(d@, key_of(d@, r, crate::names::spec_x_object())) {
                    let es = entries_of(d@.objects[xd as int]);
                    assert forall|j: int| 0 <= j < es.len() && first_key(es, j)
                        implies (#[trigger] crate::scope::stream_target(d@, Some(es[j].1)) matches Some(y)
                            ==> counts_out.reached(y as int) && counts_out.references().contains((x as usize, y as usize))) by {
                        assert(walk.drawn_by(d@, Some(es[j].1), x as nat));
                    }
                }
            }
        }
    }
    proof {
        assert forall|p: usize, path: Seq<usize>| p < d@.pages.len()
            && #[trigger] drawn_chain(counts_out.page_references(), counts_out.references(), p, path)
            implies counts_out.fonts_counted(d@, path.last() as nat, p as int) by {
            let last = path.last();
            if path.len() == 1 {
                let k = choose|k: int| 0 <= k < walk.page_reaches@.len() && walk.page_reaches@[k] == (p, path[0]);
                assert(walk.descended@[walk.page_reaches@[k].1 as int]);
            } else {
                let i = path.len() - 2;
                assert(walk.edges@.contains((path[i], path[i + 1])));
                let k = choose|k: int| 0 <= k < walk.edges@.len() && walk.edges@[k] == (path[i], path[i + 1]);
                assert(walk.edge_ordered(walk.edges@[k]));
            }
            assert(walk.descended@[last as int]);
            assert(walk.forms_recorded(d@, last as nat));
            assert(walk.chain_fonts_in(fonts@, p));
            if let Some(r) = dictionary_target(d@, key_of(d@, last as nat, crate::names::spec_resources())) {
                if let Some(f) = dictionary_target(d@, key_of(d@, r, crate::names::spec_font())) {
                    let es = entries_of(d@.objects[f as int]);
                    assert forall|j: int| 0 <= j < es.len() && first_key(es, j)
                        implies (#[trigger] target(d@, Some(es[j].1)) matches Some(id) ==> counts_out.font_page(id as int, p as int)) by {
                        if let Some(id) = target(d@, Some(es[j].1)) {
                            assert(walk.container_fonts@.contains((last, id as usize)));
                        }
                    }
                }
            }
        }
    }
    proof {
        assert forall|p: usize, y: usize| #[trigger] counts_out.page_references().contains((p, y))
            implies p < d@.pages.len() && page_draws_form(d@, p as int, y as nat) by {
            let k = choose|k: int| 0 <= k < walk.page_reaches@.len() && walk.page_reaches@[k] == (p, y);
            assert(page_draws_form(d@, walk.page_reaches@[k].0 as int, walk.page_reaches@[k].1 as nat));
        }
        assert forall|c: usize, y: usize| #[trigger] counts_out.references().contains((c, y))
            implies stream_draws_form(d@, c as nat, y as nat) by {
            let k = choose|k: int| 0 <= k < walk.edges@.len() && walk.edges@[k] == (c, y);
            assert(stream_draws_form(d@, walk.edges@[k].0 as nat, walk.edges@[k].1 as nat));
        }
        assert forall|f: usize, p: usize| #[trigger] counts_out.font_page(f as int, p as int)
            implies page_names_font(d@, p as int, f as nat) || exists|path: Seq<usize>|
                #[trigger] drawn_chain(counts_out.page_references(), counts_out.references(), p, path)
                && stream_names_font(d@, path.last() as nat, f as nat) by {
            assert(fonts@[f as int]@.contains(p));
            assert(walk.font_sourced(f, p));
            if walk.page_fonts@.contains((p, f)) {
                let k = choose|k: int| 0 <= k < walk.page_fonts@.len() && walk.page_fonts@[k] == (p, f);
                assert(page_names_font(d@, walk.page_fonts@[k].0 as int, walk.page_fonts@[k].1 as nat));
            } else {
                let path = choose|path: Seq<usize>| #[trigger] drawn_chain(walk.page_reaches@, walk.edges@, p, path)
                    && walk.container_fonts@.contains((path.last(), f));
                let k = choose|k: int| 0 <= k < walk.container_fonts@.len() && walk.container_fonts@[k] == (path.last(), f);
                assert(stream_names_font(d@, walk.container_fonts@[k].0 as nat, walk.container_fonts@[k].1 as nat));
                assert(drawn_chain(counts_out.page_references(), counts_out.references(), p, path));
            }
        }
    }
    proof {
        counts_out.lemma_references_go_down();
        assert forall|x: int| 0 <= x < d@.objects.len() && #[trigger] counts_out.reached(x) implies !draws_itself(d@, x as nat) by {
            if draws_itself(d@, x as nat) {
                let r = dictionary_target(d@, key_of(d@, x as nat, crate::names::spec_resources()))->0;
                let xd = dictionary_target(d@, key_of(d@, r, crate::names::spec_x_object()))->0;
                let es = entries_of(d@.objects[xd as int]);
                let j = choose|j: int| 0 <= j < es.len() && first_key(es, j)
                    && #[trigger] crate::scope::stream_target(d@, Some(es[j].1)) == Some(x as nat);
                assert(counts_out.draws_counted(d@, x as nat));
                assert(counts_out.references().contains((x as usize, x as usize)));
            }
        }
    }
    Ok(counts_out)
}

} // verus!

