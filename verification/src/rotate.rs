//! Rotating pages, on the page and never on the ancestor the value was inherited from.

use vstd::prelude::*;

use crate::engine::{declared_rotation, open_document, opens, rotation_read, rotations_of};
use crate::error::{invalid_argument, malformed, Error, Result, Stage};
use crate::graph::{dictionary_target, key_of, reads_null, same_kind, wf, Document, DocumentV, Value, ValueV};
use crate::inherit::{avoids, changed_only, climb, inherited, lemma_climb_frame, Inherited, MAX_PAGE_TREE_DEPTH};
use crate::limits::{Clock, Deadline, Limits};
use crate::names::{rotate, spec_parent, spec_rotate};
use crate::rotation::{degrees_of, rotation_for, Rotation};

verus! {

/// The rotation page `page` displays at, when it can be read and is a multiple of 90.
pub open spec fn effective(d: DocumentV, page: nat) -> Option<Rotation> {
    match rotation_read(d, page) {
        Some(None) => Some(Rotation::Upright),
        Some(Some(n)) => if n % 90 == 0 { Some(rotation_for(n)) } else { None },
        None => None,
    }
}

/// The rotation page `page` displays at, following `/Rotate` up the page tree; upright when
/// no node carries it.
///
/// # Errors
///
/// `Malformed` when the value cannot be read or is not a multiple of 90.
pub fn effective_rotation(d: &Document, page: usize) -> (r: Result<Rotation>)
    ensures
        r is Ok <==> effective(d@, page as nat) is Some,
        r is Ok ==> Some(r->Ok_0) == effective(d@, page as nat),
        r is Err ==> r->Err_0 is Malformed,
{
    match declared_rotation(d, page)? {
        None => Ok(Rotation::Upright),
        Some(degrees) => match Rotation::from_degrees(degrees) {
            Ok(r) => Ok(r),
            Err(_) => Err(malformed("/Rotate is not a multiple of 90")),
        },
    }
}

/// Whether `sel` names pages of a `count`-page document, each at most once.
pub open spec fn valid_selection(sel: Seq<u64>, count: nat) -> bool {
    &&& forall|j: int| 0 <= j < sel.len() ==> #[trigger] sel[j] < count
    &&& forall|a: int, b: int| 0 <= a < sel.len() && 0 <= b < sel.len() && a != b ==> #[trigger] sel[a] != #[trigger] sel[b]
}

/// The page objects a selection names.
pub open spec fn selected(d: DocumentV, sel: Seq<u64>) -> Set<nat> {
    Set::new(|n: nat| exists|j: int| 0 <= j < sel.len() && n == d.pages[#[trigger] sel[j] as int])
}

/// Whether the walk above page `page` passes through none of the nodes in `s`.
pub open spec fn clear_of(d: DocumentV, page: nat, s: Set<nat>) -> bool {
    avoids(d, key_of(d, page, spec_parent()), MAX_PAGE_TREE_DEPTH as nat, s)
}

/// Whether the walk for `/Rotate` above a node whose `/Parent` is `parent` passes through
/// none of the nodes in `s` before it stops: at the first node that carries the key, where
/// the tree ends, or where it breaks.
pub open spec fn rotate_climb_clear(d: DocumentV, parent: Option<ValueV>, fuel: nat, s: Set<nat>) -> bool
    decreases fuel,
{
    if fuel == 0 || reads_null(d, parent) {
        true
    } else {
        match dictionary_target(d, parent) {
            None => true,
            Some(n) => !s.contains(n) && (!reads_null(d, key_of(d, n, spec_rotate()))
                || rotate_climb_clear(d, key_of(d, n, spec_parent()), (fuel - 1) as nat, s)),
        }
    }
}

/// Whether reading page `page`'s `/Rotate` reads no node in `s` but the page: it carries the
/// key itself, or the walk up to where it is found passes through none of them.
pub open spec fn reads_clear_of(d: DocumentV, page: nat, s: Set<nat>) -> bool {
    !reads_null(d, key_of(d, page, spec_rotate())) || rotate_climb_clear(d, key_of(d, page, spec_parent()), MAX_PAGE_TREE_DEPTH as nat, s)
}

/// A walk for `/Rotate` that stops before any changed node finds what it found before.
pub proof fn lemma_rotate_climb_frame(before: DocumentV, after: DocumentV, parent: Option<ValueV>, fuel: nat, s: Set<nat>)
    requires
        changed_only(before, after, s),
        rotate_climb_clear(before, parent, fuel, s),
    ensures
        climb(after, parent, spec_rotate(), fuel) == climb(before, parent, spec_rotate(), fuel),
    decreases fuel,
{
    if fuel > 0 && !reads_null(before, parent) {
        match dictionary_target(before, parent) {
            None => {},
            Some(n) => {
                assert(same_kind(after.objects[n as int], before.objects[n as int]));
                assert(key_of(after, n, spec_rotate()) == key_of(before, n, spec_rotate()));
                assert(key_of(after, n, spec_parent()) == key_of(before, n, spec_parent()));
                if reads_null(before, key_of(before, n, spec_rotate())) {
                    lemma_rotate_climb_frame(before, after, key_of(before, n, spec_parent()), (fuel - 1) as nat, s);
                }
            },
        }
    }
}

/// A walk above a page that passes through no node of `s` at all passes through none before
/// it stops.
pub proof fn lemma_clear_reads_clear(d: DocumentV, parent: Option<ValueV>, fuel: nat, s: Set<nat>)
    requires
        avoids(d, parent, fuel, s),
    ensures
        rotate_climb_clear(d, parent, fuel, s),
    decreases fuel,
{
    if fuel > 0 && !reads_null(d, parent) {
        if let Some(n) = dictionary_target(d, parent) {
            lemma_clear_reads_clear(d, key_of(d, n, spec_parent()), (fuel - 1) as nat, s);
        }
    }
}

/// A page whose whole walk up the tree avoids `s` reads its `/Rotate` clear of `s`.
pub proof fn lemma_clear_of_reads_clear(d: DocumentV, page: nat, s: Set<nat>)
    requires
        clear_of(d, page, s),
    ensures
        reads_clear_of(d, page, s),
{
    lemma_clear_reads_clear(d, key_of(d, page, spec_parent()), MAX_PAGE_TREE_DEPTH as nat, s);
}

/// What page `page` should carry after being turned by `by`: `by` after what it displays at.
pub open spec fn turned(d: DocumentV, page: nat, by: Rotation) -> Option<ValueV> {
    match effective(d, page) {
        Some(current) => Some(ValueV::Integer((degrees_of(by) + degrees_of(current)) % 360)),
        None => None,
    }
}

/// `after` is `before` with at most the `/Rotate` of the nodes in `s` changed.
pub open spec fn rotate_frame(before: DocumentV, after: DocumentV, s: Set<nat>) -> bool {
    &&& changed_only(before, after, s)
    &&& crate::graph::contents_kept(before, after)
    &&& after.pages == before.pages
    &&& after.root == before.root
    &&& forall|n: nat, k: Seq<u8>| k != spec_rotate() ==> #[trigger] key_of(after, n, k) == key_of(before, n, k)
}

/// Rotating pages leaves every other page displaying what it did: a page not in the
/// selection, whose `/Rotate` is read without passing through a selected page, reads the same
/// rotation afterwards — including a page that inherits its value from the same ancestor a
/// selected page does.
pub proof fn lemma_unselected_pages_keep_their_rotation(
    before: DocumentV,
    after: DocumentV,
    s: Set<nat>,
    q: nat,
)
    requires
        rotate_frame(before, after, s),
        !s.contains(q),
        reads_clear_of(before, q, s),
    ensures
        rotation_read(after, q) == rotation_read(before, q),
        effective(after, q) == effective(before, q),
{
    assert(key_of(after, q, spec_rotate()) == key_of(before, q, spec_rotate()));
    assert(key_of(after, q, spec_parent()) == key_of(before, q, spec_parent()));
    if reads_null(before, key_of(before, q, spec_rotate())) {
        lemma_rotate_climb_frame(before, after, key_of(before, q, spec_parent()), MAX_PAGE_TREE_DEPTH as nat, s);
    }
}

/// A page that carries its own integer `/Rotate` displays at exactly that value, whatever
/// its ancestors say: the value written on a page is the value read back from it.
pub proof fn lemma_own_rotate_is_read_back(d: DocumentV, page: nat, n: int)
    requires
        key_of(d, page, spec_rotate()) == Some(ValueV::Integer(n)),
    ensures
        rotation_read(d, page) == Some(Some(n)),
{
}

/// A page turned by `by` displays, afterwards, `by` applied after what it displayed before:
/// the value written on it is read back as that rotation.
pub proof fn lemma_turned_page_displays_the_turn(before: DocumentV, after: DocumentV, page: nat, by: Rotation)
    requires
        turned(before, page, by) is Some,
        key_of(after, page, spec_rotate()) == turned(before, page, by),
    ensures
        effective(after, page) matches Some(r) && degrees_of(r)
            == (degrees_of(by) + degrees_of(effective(before, page)->0)) % 360,
{
    let current = effective(before, page)->0;
    let n = (degrees_of(by) + degrees_of(current)) % 360;
    lemma_own_rotate_is_read_back(after, page, n);
    assert(n == 0 || n == 90 || n == 180 || n == 270) by {
        assert(degrees_of(by) == 0 || degrees_of(by) == 90 || degrees_of(by) == 180 || degrees_of(by) == 270);
        assert(degrees_of(current) == 0 || degrees_of(current) == 90 || degrees_of(current) == 180 || degrees_of(current) == 270);
    }
    assert(n % 90 == 0);
    assert(degrees_of(rotation_for(n)) == n);
}

/// The `/Rotate` node `n` carries once the values of `m` are written over `d`'s.
pub open spec fn rotate_under(d: DocumentV, m: Map<nat, ValueV>, n: nat) -> Option<ValueV> {
    if m.dom().contains(n) {
        Some(m[n])
    } else {
        key_of(d, n, spec_rotate())
    }
}

/// [`climb`] for `/Rotate`, reading each node's value as [`rotate_under`] gives it.
pub open spec fn climb_under(d: DocumentV, m: Map<nat, ValueV>, parent: Option<ValueV>, fuel: nat) -> Inherited
    decreases fuel,
{
    if fuel == 0 {
        Inherited::Broken
    } else if reads_null(d, parent) {
        Inherited::Absent
    } else {
        match dictionary_target(d, parent) {
            None => Inherited::Broken,
            Some(n) => {
                let v = rotate_under(d, m, n);
                if !reads_null(d, v) {
                    Inherited::Found(v.unwrap())
                } else {
                    climb_under(d, m, key_of(d, n, spec_parent()), (fuel - 1) as nat)
                }
            },
        }
    }
}

/// The rotation page `page` displays at once the values of `m` are written over `d`'s, as
/// [`effective`] reads it.
pub open spec fn effective_under(d: DocumentV, m: Map<nat, ValueV>, page: nat) -> Option<Rotation> {
    let own = rotate_under(d, m, page);
    let found = if !reads_null(d, own) {
        Inherited::Found(own.unwrap())
    } else {
        climb_under(d, m, key_of(d, page, spec_parent()), MAX_PAGE_TREE_DEPTH as nat)
    };
    match found {
        Inherited::Found(ValueV::Integer(n)) => if n % 90 == 0 { Some(rotation_for(n)) } else { None },
        Inherited::Found(_) => None,
        Inherited::Absent => Some(Rotation::Upright),
        Inherited::Broken => None,
    }
}

/// The page objects a selection names, in its order.
pub open spec fn selection_objects(d: DocumentV, sel: Seq<u64>) -> Seq<nat> {
    Seq::new(sel.len(), |j: int| d.pages[sel[j] as int])
}

/// The `/Rotate` values turning the pages `objs` by `by` writes, one after another in that
/// order, each page read as the values already written leave it; `None` when some page's
/// rotation cannot be read when its turn comes.
pub open spec fn turns(d: DocumentV, objs: Seq<nat>, by: Rotation) -> Option<Map<nat, ValueV>>
    decreases objs.len(),
{
    if objs.len() == 0 {
        Some(Map::empty())
    } else {
        match turns(d, objs.drop_last(), by) {
            Some(m) => match effective_under(d, m, objs.last()) {
                Some(current) => Some(m.insert(objs.last(), ValueV::Integer((degrees_of(by) + degrees_of(current)) % 360))),
                None => None,
            },
            None => None,
        }
    }
}

/// Turning a selection writes a value on every page of it, each a multiple of 90 below 360.
pub proof fn lemma_every_selected_page_is_written(d: DocumentV, objs: Seq<nat>, by: Rotation, j: int)
    requires
        turns(d, objs, by) is Some,
        0 <= j < objs.len(),
    ensures
        turns(d, objs, by)->0.dom().contains(objs[j]),
        turns(d, objs, by)->0[objs[j]] matches ValueV::Integer(n) && 0 <= n < 360 && n % 90 == 0,
    decreases objs.len(),
{
    let m0 = turns(d, objs.drop_last(), by)->0;
    let current = effective_under(d, m0, objs.last())->0;
    assert(degrees_of(by) == 0 || degrees_of(by) == 90 || degrees_of(by) == 180 || degrees_of(by) == 270);
    assert(degrees_of(current) == 0 || degrees_of(current) == 90 || degrees_of(current) == 180 || degrees_of(current) == 270);
    if j < objs.len() - 1 {
        lemma_every_selected_page_is_written(d, objs.drop_last(), by, j);
        assert(objs.drop_last()[j] == objs[j]);
    }
}

/// Once a page's turn cannot be read, the turns of the whole selection cannot either.
proof fn lemma_turns_stop(d: DocumentV, objs: Seq<nat>, k: int, by: Rotation)
    requires
        0 <= k <= objs.len(),
        turns(d, objs.take(k), by) is None,
    ensures
        turns(d, objs, by) is None,
    decreases objs.len(),
{
    if k < objs.len() {
        assert(objs.drop_last().take(k) =~= objs.take(k));
        lemma_turns_stop(d, objs.drop_last(), k, by);
    } else {
        assert(objs.take(k) =~= objs);
    }
}

/// A document whose `/Rotate` values are `d`'s with `m` written over them, and nothing else
/// changed, climbs for `/Rotate` as [`climb_under`] says.
proof fn lemma_climb_under(d: DocumentV, w: DocumentV, m: Map<nat, ValueV>, parent: Option<ValueV>, fuel: nat)
    requires
        w.objects.len() == d.objects.len(),
        forall|n: int| 0 <= n < d.objects.len() ==> same_kind(#[trigger] w.objects[n], d.objects[n]),
        forall|n: nat| #[trigger] key_of(w, n, spec_parent()) == key_of(d, n, spec_parent()),
        forall|n: nat| #[trigger] key_of(w, n, spec_rotate()) == rotate_under(d, m, n),
    ensures
        climb(w, parent, spec_rotate(), fuel) == climb_under(d, m, parent, fuel),
    decreases fuel,
{
    if fuel > 0 && !reads_null(d, parent) {
        if let Some(n) = dictionary_target(d, parent) {
            assert(same_kind(w.objects[n as int], d.objects[n as int]));
            assert(key_of(w, n, spec_rotate()) == rotate_under(d, m, n));
            assert(key_of(w, n, spec_parent()) == key_of(d, n, spec_parent()));
            lemma_climb_under(d, w, m, key_of(d, n, spec_parent()), (fuel - 1) as nat);
        } else {
            assert(dictionary_target(w, parent) is None);
        }
    }
}

/// The same document displays page `page` at the rotation [`effective_under`] gives.
proof fn lemma_effective_under(d: DocumentV, w: DocumentV, m: Map<nat, ValueV>, page: nat)
    requires
        w.objects.len() == d.objects.len(),
        forall|n: int| 0 <= n < d.objects.len() ==> same_kind(#[trigger] w.objects[n], d.objects[n]),
        forall|n: nat| #[trigger] key_of(w, n, spec_parent()) == key_of(d, n, spec_parent()),
        forall|n: nat| #[trigger] key_of(w, n, spec_rotate()) == rotate_under(d, m, n),
    ensures
        effective(w, page) == effective_under(d, m, page),
{
    assert(key_of(w, page, spec_rotate()) == rotate_under(d, m, page));
    assert(key_of(w, page, spec_parent()) == key_of(d, page, spec_parent()));
    lemma_climb_under(d, w, m, key_of(d, page, spec_parent()), MAX_PAGE_TREE_DEPTH as nat);
}

/// Rotating changes nothing a page draws: every object keeps its kind and its stream data,
/// and every key but `/Rotate` reads as it did, so a page's `/Contents` names the same stream
/// holding the same data.
pub proof fn lemma_rotated_pages_keep_their_content(before: DocumentV, after: DocumentV, s: Set<nat>, p: nat, x: nat)
    requires
        rotate_frame(before, after, s),
        key_of(before, p, crate::names::spec_contents()) == Some(ValueV::Reference(x)),
        x < before.objects.len(),
        before.objects[x as int].body is Stream,
    ensures
        crate::flatten::tree_attributes_only(before, after),
        key_of(after, p, crate::names::spec_contents()) == Some(ValueV::Reference(x)),
        after.objects[x as int].body is Stream,
        after.objects[x as int].body->Stream_1 == before.objects[x as int].body->Stream_1,
{
    assert forall|n: nat, k: Seq<u8>| #![trigger key_of(after, n, k)] !crate::flatten::is_inheritable(k) && k != spec_parent()
        implies key_of(after, n, k) == key_of(before, n, k) by {
        assert(k != spec_rotate());
    }
    crate::flatten::lemma_pages_keep_their_content(before, after, p, x);
}

/// A document held open for a rotation.
pub struct QpdfRotatable {
    document: Document,
    limits: Limits,
}

impl QpdfRotatable {
    /// Holds of every value [`Self::open`] returns, and every operation keeps it.
    pub closed spec fn wf(self) -> bool {
        opens(self.document@, self.limits)
    }

    /// The document, as it stands.
    pub closed spec fn doc(self) -> DocumentV {
        self.document@
    }

    /// The ceilings it was opened under.
    pub closed spec fn opened_under(self) -> Limits {
        self.limits
    }

    /// Open `document` for rotation under `limits`.
    ///
    /// # Errors
    ///
    /// As [`open_document`].
    pub fn open(document: Document, limits: Limits) -> (r: Result<QpdfRotatable>)
        ensures
            r is Ok <==> opens(document@, limits),
            r is Ok ==> r->Ok_0.doc() == document@ && r->Ok_0.opened_under() == limits && r->Ok_0.wf(),
            !wf(document@) ==> r is Err && r->Err_0 is Malformed,
            wf(document@) && document@.pages.len() > limits.max_pages ==> r is Err && r->Err_0 is LimitExceeded,
    {
        open_document(&document, &limits)?;
        Ok(QpdfRotatable { document, limits })
    }

    /// The document, as it stands after whatever has been done to it.
    pub fn document(&self) -> (d: &Document)
        requires
            self.wf(),
        ensures
            d@ == self.doc(),
            wf(d@),
    {
        &self.document
    }

    /// How many pages it has.
    pub fn pages(&self) -> (n: u64)
        requires
            self.wf(),
        ensures
            n == self.doc().pages.len(),
    {
        self.document.pages.len() as u64
    }

    /// The rotation page `index` displays at.
    ///
    /// # Errors
    ///
    /// `InvalidArgument` for a page past the end; `Malformed` as [`effective_rotation`].
    pub fn effective_rotation(&self, index: u64) -> (r: Result<Rotation>)
        requires
            self.wf(),
        ensures
            index >= self.doc().pages.len() ==> r is Err && r->Err_0 is InvalidArgument,
            index < self.doc().pages.len() ==> (r is Ok <==> effective(self.doc(), self.doc().pages[index as int]) is Some),
            r is Ok ==> index < self.doc().pages.len() && Some(r->Ok_0) == effective(self.doc(), self.doc().pages[index as int]),
            index < self.doc().pages.len() && r is Err ==> r->Err_0 is Malformed,
    {
        if index >= self.document.pages.len() as u64 {
            return Err(invalid_argument("page is not in the document"));
        }
        effective_rotation(&self.document, self.document.pages[index as usize])
    }

    /// Every page's `/Rotate` as written; see [`rotations_of`].
    pub fn rotations<C: Clock>(&self, deadline: &Deadline, clock: &C) -> (r: Result<Vec<i64>>)
        requires
            self.wf(),
        ensures
            r is Ok ==> r->Ok_0@.len() == self.doc().pages.len() && forall|i: int|
                0 <= i < self.doc().pages.len() ==> crate::engine::recorded(self.doc(), self.doc().pages[i], r->Ok_0@[i] as int),
            r is Err ==> crate::engine::swept_refusal(self.doc(), *deadline, r->Err_0),
            deadline.holds_for(clock) && (forall|i: int| 0 <= i < self.doc().pages.len()
                ==> crate::engine::rotation_read(self.doc(), #[trigger] self.doc().pages[i]) is Some) ==> r is Ok,
    {
        proof {
            assert forall|i: int| 0 <= i < self.document@.pages.len()
                && crate::engine::rotation_read(self.doc(), self.doc().pages[i]) is Some
                implies crate::engine::rotation_read(self.document@, #[trigger] self.document@.pages[i]) is Some by {}
        }
        rotations_of(&self.document, deadline, clock)
    }

    /// Turn each page in `pages` by `rotation`, relative to what it displays at now.
    ///
    /// The value is written on the page itself, never on the ancestor it may have been
    /// inherited from: that node can be the parent of every page. The work is done on a copy
    /// that replaces the document only when every page has been turned, so a refusal leaves
    /// the document as it was.
    ///
    /// # Errors
    ///
    /// - `InvalidArgument` for an empty selection, a page past the end, or a page named twice.
    /// - `LimitExceeded` for a selection longer than `max_pages`, or for `max_duration_ms`,
    ///   checked before each page and after the last.
    /// - `Malformed` for a page whose current rotation cannot be read.
    pub fn rotate<C: Clock>(&mut self, pages: &[u64], rotation: Rotation, clock: &C) -> (r: Result<()>)
        requires
            old(self).wf(),
        ensures
            final(self).wf(),
            ({
                let before = old(self).doc();
                let after = final(self).doc();
                let s = selected(before, pages@);
                let max = old(self).opened_under().max_pages;
                &&& final(self).opened_under() == old(self).opened_under()
                &&& rotate_frame(before, after, s)
                &&& forall|x: int| 0 <= x < before.objects.len() && (#[trigger] before.objects[x]).body is Stream
                    ==> after.objects[x].body is Stream && after.objects[x].body->Stream_1 == before.objects[x].body->Stream_1
                &&& r is Err ==> after == before
                &&& pages@.len() == 0 ==> r is Err && r->Err_0 is InvalidArgument
                &&& pages@.len() > 0 && pages@.len() > max ==> r is Err
                    && r->Err_0 == (Error::LimitExceeded {
                        limit: "max_pages",
                        stage: Stage::PageCount,
                        requested: pages@.len() as u64,
                        allowed: max,
                    })
                &&& (r is Err && r->Err_0 is InvalidArgument <==> pages@.len() == 0
                    || (pages@.len() <= max && !valid_selection(pages@, before.pages.len())))
                &&& r is Err && r->Err_0 is LimitExceeded ==> (r->Err_0->stage == Stage::PageCount && pages@.len() > max)
                    || (r->Err_0->stage == Stage::Duration && r->Err_0->allowed == old(self).opened_under().max_duration_ms)
                &&& r is Ok ==> 0 < pages@.len() && valid_selection(pages@, before.pages.len())
                &&& r is Ok ==> forall|j: int| 0 <= j < pages@.len() && reads_clear_of(before, before.pages[#[trigger] pages@[j] as int], s)
                    ==> turned(before, before.pages[pages@[j] as int], rotation) is Some
                    && key_of(after, before.pages[pages@[j] as int], spec_rotate())
                        == turned(before, before.pages[pages@[j] as int], rotation)
                &&& r is Err && r->Err_0 is Malformed ==> exists|j: int| 0 <= j < pages@.len() && (!reads_clear_of(before, before.pages[#[trigger] pages@[j] as int], s)
                    || effective(before, before.pages[pages@[j] as int]) is None)
                &&& 0 < pages@.len() <= max && valid_selection(pages@, before.pages.len())
                    && crate::limits::steady(clock, old(self).opened_under().max_duration_ms)
                    && (forall|j: int| 0 <= j < pages@.len() ==> reads_clear_of(before, before.pages[#[trigger] pages@[j] as int], s)
                        && effective(before, before.pages[pages@[j] as int]) is Some) ==> r is Ok
                &&& r is Ok ==> (turns(before, selection_objects(before, pages@), rotation) matches Some(m)
                    && forall|n: nat| #[trigger] key_of(after, n, spec_rotate()) == rotate_under(before, m, n))
                &&& r is Err && r->Err_0 is Malformed ==> turns(before, selection_objects(before, pages@), rotation) is None
                &&& 0 < pages@.len() <= max && valid_selection(pages@, before.pages.len())
                    && crate::limits::steady(clock, old(self).opened_under().max_duration_ms)
                    && turns(before, selection_objects(before, pages@), rotation) is Some ==> r is Ok
            }),
    {
        let ghost before = self.document@;
        let ghost s = selected(before, pages@);
        let deadline = Deadline::start(clock, &self.limits);
        if pages.len() == 0 {
            return Err(invalid_argument("no pages to rotate"));
        }
        Limits::check(Stage::PageCount, "max_pages", pages.len() as u64, self.limits.max_pages)?;
        let count = self.document.pages.len();
        let mut seen: Vec<bool> = Vec::new();
        let mut k: usize = 0;
        while k < count
            invariant
                k <= count,
                seen@.len() == k,
                forall|j: int| 0 <= j < k ==> !seen@[j],
            decreases count - k,
        {
            seen.push(false);
            k += 1;
        }
        let mut i: usize = 0;
        while i < pages.len()
            invariant
                self.document@ == before,
                self.limits == old(self).limits,
                opens(before, self.limits),
                s == selected(before, pages@),
                0 < pages@.len() <= self.limits.max_pages,
                count == before.pages.len(),
                seen@.len() == count,
                i <= pages@.len(),
                forall|a: int| 0 <= a < i ==> #[trigger] pages@[a] < count,
                forall|a: int, b: int| 0 <= a < i && 0 <= b < i && a != b ==> #[trigger] pages@[a] != #[trigger] pages@[b],
                forall|v: int| 0 <= v < count ==> (#[trigger] seen@[v] <==> exists|a: int| 0 <= a < i && pages@[a] == v),
            decreases pages.len() - i,
        {
            let index = pages[i];
            if index >= count as u64 {
                assert(!valid_selection(pages@, before.pages.len())) by {
                    assert(pages@[i as int] >= before.pages.len());
                }
                return Err(invalid_argument("page is not in the document"));
            }
            if seen[index as usize] {
                proof {
                    let a = choose|a: int| 0 <= a < i && pages@[a] == index;
                    assert(pages@[a] == pages@[i as int]);
                    assert(!valid_selection(pages@, before.pages.len()));
                }
                return Err(invalid_argument("the same page is named more than once"));
            }
            seen.set(index as usize, true);
            i += 1;
        }
        assert(valid_selection(pages@, before.pages.len()));
        let key = rotate();
        let mut work = self.document.duplicate();
        let ghost objs = selection_objects(before, pages@);
        let ghost mut m: Map<nat, ValueV> = Map::empty();
        assert(objs.take(0) =~= Seq::<nat>::empty());
        let mut j: usize = 0;
        while j < pages.len()
            invariant
                wf(before),
                self.document@ == before,
                count == before.pages.len(),
                self.limits == old(self).limits,
                before == old(self).doc(),
                0 < pages@.len() <= self.limits.max_pages,
                opens(work@, self.limits),
                valid_selection(pages@, before.pages.len()),
                s == selected(before, pages@),
                key@ == spec_rotate(),
                j <= pages@.len(),
                rotate_frame(before, work@, s),
                forall|a: int, k2: Seq<u8>| j <= a < pages@.len() ==> #[trigger] key_of(work@, before.pages[pages@[a] as int], k2)
                    == key_of(before, before.pages[pages@[a] as int], k2),
                forall|a: int| 0 <= a < j && reads_clear_of(before, before.pages[#[trigger] pages@[a] as int], s)
                    ==> turned(before, before.pages[pages@[a] as int], rotation) is Some
                    && key_of(work@, before.pages[pages@[a] as int], spec_rotate())
                        == turned(before, before.pages[pages@[a] as int], rotation),
                deadline.budget == self.limits.max_duration_ms,
                crate::limits::steady(clock, self.limits.max_duration_ms) ==> deadline.holds_for(clock),
                objs == selection_objects(before, pages@),
                turns(before, objs.take(j as int), rotation) == Some(m),
                forall|n: nat| #[trigger] key_of(work@, n, spec_rotate()) == rotate_under(before, m, n),
            decreases pages.len() - j,
        {
            deadline.checkpoint(clock)?;
            assert(pages@[j as int] < before.pages.len());
            assert(work.pages@.len() == before.pages.len());
            let idx: usize = pages[j] as usize;
            assert(idx == pages@[j as int]);
            let page = work.pages[idx];
            let ghost p = page as nat;
            assert(work@.pages[idx as int] == work.pages@[idx as int] as nat);
            assert(p == before.pages[pages@[j as int] as int]);
            assert(s.contains(p));
            proof {
                if reads_clear_of(before, p, s) {
                    if reads_null(before, key_of(before, p, spec_rotate())) {
                        lemma_rotate_climb_frame(before, work@, key_of(before, p, spec_parent()), MAX_PAGE_TREE_DEPTH as nat, s);
                    }
                    assert(inherited(work@, p, spec_rotate()) == inherited(before, p, spec_rotate()));
                }
            }
            proof {
                assert forall|n: nat| #[trigger] key_of(work@, n, spec_parent()) == key_of(before, n, spec_parent()) by {
                    assert(spec_parent() != spec_rotate()) by {
                        assert(spec_parent()[0] != spec_rotate()[0]);
                    }
                }
                lemma_effective_under(before, work@, m, p);
                assert(objs.take(j + 1).drop_last() =~= objs.take(j as int));
                assert(objs.take(j + 1).last() == p);
            }
            let current = match effective_rotation(&work, page) {
                Ok(c) => c,
                Err(e) => {
                    assert(!reads_clear_of(before, p, s) || effective(before, p) is None);
                    proof {
                        lemma_turns_stop(before, objs, (j + 1) as int, rotation);
                    }
                    return Err(e);
                },
            };
            let wanted = rotation.after(current);
            let ghost mid = work@;
            work.set_key(page, rotate(), Value::Integer(wanted.degrees()));
            proof {
                crate::graph::lemma_entries_change_keeps_contents(mid, work@, p);
                crate::graph::lemma_contents_kept_trans(before, mid, work@);
                let m2 = m.insert(p, ValueV::Integer((degrees_of(rotation) + degrees_of(current)) % 360));
                assert(turns(before, objs.take(j + 1), rotation) == Some(m2));
                assert(!(mid.objects[p as int].body is Array));
                assert forall|n: nat| #[trigger] key_of(work@, n, spec_rotate()) == rotate_under(before, m2, n) by {
                    if n != p {
                        assert(key_of(mid, n, spec_rotate()) == rotate_under(before, m, n));
                    }
                }
                m = m2;
            }
            proof {
                assert forall|a: int, k2: Seq<u8>| j + 1 <= a < pages@.len() implies #[trigger] key_of(work@, before.pages[pages@[a] as int], k2)
                    == key_of(before, before.pages[pages@[a] as int], k2) by {
                    assert(pages@[a] != pages@[j as int]);
                    assert(before.pages[pages@[a] as int] != p);
                }
                assert forall|a: int| 0 <= a < j + 1 && reads_clear_of(before, before.pages[#[trigger] pages@[a] as int], s)
                    implies turned(before, before.pages[pages@[a] as int], rotation) is Some
                    && key_of(work@, before.pages[pages@[a] as int], spec_rotate())
                        == turned(before, before.pages[pages@[a] as int], rotation) by {
                    if a < j {
                        assert(pages@[a] != pages@[j as int]);
                        assert(before.pages[pages@[a] as int] != p);
                    }
                }
                assert(changed_only(before, work@, s)) by {
                    assert forall|n: nat, k2: Seq<u8>| !s.contains(n) implies #[trigger] key_of(work@, n, k2) == key_of(before, n, k2) by {
                        assert(n != p);
                    }
                }
            }
            j += 1;
        }
        assert(objs.take(j as int) =~= objs);
        deadline.checkpoint(clock)?;
        self.document = work;
        Ok(())
    }
}

} // verus!
