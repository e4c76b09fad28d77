//! Splitting: a run of pages taken out of a source into a document of their own.
//!
//! The output is built, not carved. Reading the source and removing the unwanted pages would
//! keep whatever the source's other objects say; so the output starts empty and pages are
//! copied in, with exactly what they reach. That is an allowlist by construction: an object
//! is in the output only if a wanted page reaches it, other than through `/Parent`.

use vstd::prelude::*;

use crate::assemble::{dangling, lemma_inherited_found_is_not_null, lemma_inherits_nothing};
use crate::engine::{open_document, opens, rotations_of};
use crate::error::{internal, invalid_argument, Error, Result, Stage};
use crate::flatten::{flatten, flattened, is_inheritable, lemma_inheritable_is_not_parent};
use crate::graph::{
    copy_object, dict_get, entries_view, is_dictionary, key_of, same_kind, target, values_view, wf, Body, BodyV,
    Document, DocumentV, Entry, Object, ObjectV, Value, ValueV,
};
use crate::inherit::{inherited, Inherited};
use crate::limits::{Clock, Deadline, Limits};
use crate::names::{
    annots, kids, pages, parent, spec_annots, spec_count, spec_crop_box, spec_kids, spec_media_box,
    spec_pages, spec_parent, spec_resources, spec_rotate, spec_type_key, type_key,
};

verus! {

/// Whether `es` holds a reference to object `y` under some key other than `/Parent`.
pub open spec fn entries_refer_to(es: Seq<(Seq<u8>, ValueV)>, y: int) -> bool {
    exists|i: int| 0 <= i < es.len() && (#[trigger] es[i]).0 != spec_parent() && es[i].1 == ValueV::Reference(y as nat)
}

/// Whether object `o` refers to object `y`, other than through `/Parent`.
pub open spec fn refers_to(o: ObjectV, y: int) -> bool {
    match o.body {
        BodyV::Dictionary(es) => entries_refer_to(es, y),
        BodyV::Stream(es, _) => entries_refer_to(es, y),
        BodyV::Array(vs) => exists|i: int| 0 <= i < vs.len() && #[trigger] vs[i] == ValueV::Reference(y as nat),
    }
}

/// A set of objects that holds everything its members refer to.
pub open spec fn closed(d: DocumentV, s: Set<int>) -> bool {
    forall|x: int, y: int| #![trigger s.contains(x), refers_to(d.objects[x], y)]
        s.contains(x) && 0 <= x < d.objects.len() && 0 <= y < d.objects.len() && refers_to(d.objects[x], y)
            ==> s.contains(y)
}

/// Whether object `x` is reached from `roots`: it is in every closed set that holds them.
pub open spec fn reachable(d: DocumentV, roots: Set<int>, x: int) -> bool {
    forall|s: Set<int>| #[trigger] closed(d, s) && roots.subset_of(s) ==> s.contains(x)
}

/// The objects a vector of indices names.
pub open spec fn index_set(v: Seq<usize>) -> Set<int> {
    Set::new(|x: int| exists|i: int| 0 <= i < v.len() && v[i] as int == x)
}

/// The objects a mark vector marks.
pub open spec fn marked_set(m: Seq<bool>) -> Set<int> {
    Set::new(|x: int| 0 <= x < m.len() && m[x])
}

/// Mark `y`, queueing it when it was not marked.
fn mark(marked: &mut Vec<bool>, order: &mut Vec<usize>, y: usize)
    requires
        y < old(marked)@.len(),
    ensures
        final(marked)@ == old(marked)@.update(y as int, true),
        old(marked)@[y as int] ==> final(order)@ == old(order)@,
        !old(marked)@[y as int] ==> final(order)@ == old(order)@.push(y),
{
    if !marked[y] {
        marked.set(y, true);
        order.push(y);
    } else {
        assert(marked@ =~= marked@.update(y as int, true));
    }
}

/// Everything `roots` reach, other than through `/Parent`: `r[x]` says whether object `x` is.
pub fn reach(d: &Document, roots: &Vec<usize>) -> (r: Vec<bool>)
    requires
        forall|i: int| 0 <= i < roots@.len() ==> #[trigger] roots@[i] < d@.objects.len(),
    ensures
        r@.len() == d@.objects.len(),
        forall|x: int| 0 <= x < d@.objects.len() ==> (r@[x] <==> reachable(d@, index_set(roots@), x)),
{
    let ghost dv = d@;
    let ghost rs = index_set(roots@);
    let n = d.objects.len();
    let mut marked: Vec<bool> = Vec::new();
    while marked.len() < n
        invariant
            marked@.len() <= n,
            forall|x: int| 0 <= x < marked@.len() ==> !marked@[x],
        decreases n - marked.len(),
    {
        marked.push(false);
    }
    let mut order: Vec<usize> = Vec::new();
    assert(marked_set(marked@) =~= Set::<int>::empty());
    let mut k: usize = 0;
    while k < roots.len()
        invariant
            n == dv.objects.len(),
            dv == d@,
            rs == index_set(roots@),
            forall|i: int| 0 <= i < roots@.len() ==> #[trigger] roots@[i] < n,
            k <= roots@.len(),
            marked@.len() == n,
            marked_set(marked@).len() == order@.len(),
            marked_set(marked@).finite(),
            forall|j: int| 0 <= j < order@.len() ==> #[trigger] order@[j] < n && marked@[order@[j] as int],
            forall|x: int| 0 <= x < n && #[trigger] marked@[x] ==> exists|j: int| 0 <= j < order@.len() && order@[j] as int == x,
            forall|s: Set<int>| #[trigger] closed(dv, s) && rs.subset_of(s) ==> marked_set(marked@).subset_of(s),
            forall|i: int| 0 <= i < k ==> #[trigger] marked@[roots@[i] as int],
        decreases roots.len() - k,
    {
        let y = roots[k];
        let ghost before = marked@;
        let ghost before_order = order@;
        mark(&mut marked, &mut order, y);
        proof {
            assert(marked_set(marked@) =~= marked_set(before).insert(y as int));
            if !before[y as int] {
                assert(!marked_set(before).contains(y as int));
                assert(order@[order@.len() - 1] == y);
            }
            assert forall|x: int| 0 <= x < n && #[trigger] marked@[x] implies exists|j: int| 0 <= j < order@.len() && order@[j] as int == x by {
                if x != y {
                    let j = choose|j: int| 0 <= j < before_order.len() && before_order[j] as int == x;
                    assert(order@[j] == before_order[j]);
                } else if !before[y as int] {
                    assert(order@[order@.len() - 1] as int == x);
                } else {
                    let j = choose|j: int| 0 <= j < before_order.len() && before_order[j] as int == x;
                    assert(order@[j] == before_order[j]);
                }
            }
            assert forall|s: Set<int>| #[trigger] closed(dv, s) && rs.subset_of(s) implies marked_set(marked@).subset_of(s) by {
                assert(rs.contains(y as int));
            }
        }
        k += 1;
    }
    proof {
        vstd::set_lib::lemma_int_range(0, n as int);
        vstd::set_lib::lemma_len_subset(marked_set(marked@), vstd::set_lib::set_int_range(0, n as int));
    }
    let pk = parent();
    let mut i: usize = 0;
    while i < order.len()
        invariant
            n == dv.objects.len(),
            dv == d@,
            rs == index_set(roots@),
            pk@ == spec_parent(),
            i <= order@.len(),
            order@.len() <= n,
            marked@.len() == n,
            marked_set(marked@).len() == order@.len(),
            marked_set(marked@).finite(),
            forall|j: int| 0 <= j < order@.len() ==> #[trigger] order@[j] < n && marked@[order@[j] as int],
            forall|x: int| 0 <= x < n && #[trigger] marked@[x] ==> exists|j: int| 0 <= j < order@.len() && order@[j] as int == x,
            forall|s: Set<int>| #[trigger] closed(dv, s) && rs.subset_of(s) ==> marked_set(marked@).subset_of(s),
            forall|r: int| 0 <= r < roots@.len() ==> #[trigger] marked@[roots@[r] as int],
            forall|r: int| 0 <= r < roots@.len() ==> #[trigger] roots@[r] < n,
            forall|j: int, y: int| #![trigger order@[j], refers_to(dv.objects[order@[j] as int], y)]
                0 <= j < i && 0 <= y < n && refers_to(dv.objects[order@[j] as int], y) ==> marked@[y],
        decreases n - i,
    {
        let x = order[i];
        let ghost start_marked = marked@;
        let ghost start_order = order@;
        match &d.objects[x].body {
            Body::Dictionary(es) | Body::Stream(es, _) => {
                let ghost ev = crate::graph::entries_view(es@);
                assert(match dv.objects[x as int].body {
                    BodyV::Dictionary(e) => e == ev,
                    BodyV::Stream(e, _) => e == ev,
                    BodyV::Array(_) => false,
                });
                let mut e: usize = 0;
                while e < es.len()
                    invariant
                        n == dv.objects.len(),
                        dv == d@,
                        rs == index_set(roots@),
                        pk@ == spec_parent(),
                        x < n,
                        ev == crate::graph::entries_view(es@),
                        e <= es@.len(),
                        i < order@.len(),
                        order@[i as int] == x,
                        marked@.len() == n,
                        marked_set(marked@).len() == order@.len(),
                        marked_set(marked@).finite(),
                        forall|j: int| 0 <= j < order@.len() ==> #[trigger] order@[j] < n && marked@[order@[j] as int],
                        forall|x2: int| 0 <= x2 < n && #[trigger] marked@[x2] ==> exists|j: int| 0 <= j < order@.len() && order@[j] as int == x2,
                        forall|s: Set<int>| #[trigger] closed(dv, s) && rs.subset_of(s) ==> marked_set(marked@).subset_of(s),
                        forall|w: int| 0 <= w < n && start_marked[w] ==> #[trigger] marked@[w],
                        start_order.len() <= order@.len(),
                        forall|j: int| 0 <= j < start_order.len() ==> #[trigger] order@[j] == start_order[j],
                        forall|q: int| 0 <= q < e && ev[q].0 != spec_parent() ==> (#[trigger] ev[q].1 matches ValueV::Reference(y) ==> (y < n ==> marked@[y as int])),
                        (match dv.objects[x as int].body {
                            BodyV::Dictionary(e2) => e2 == ev,
                            BodyV::Stream(e2, _) => e2 == ev,
                            BodyV::Array(_) => false,
                        }),
                    decreases es.len() - e,
                {
                    assert(ev[e as int] == es@[e as int]@);
                    if !crate::graph::same_name(&es[e].key, &pk) {
                        match &es[e].value {
                            Value::Reference(y) => {
                                if *y < n {
                                    let ghost bm = marked@;
                                    let ghost bo = order@;
                                    mark(&mut marked, &mut order, *y);
                                    proof {
                                        lemma_marked_step(dv, rs, bm, marked@, bo, order@, x as int, *y);
                                    }
                                }
                            },
                            _ => {},
                        }
                    }
                    e += 1;
                }
                proof {
                    assert forall|y: int| 0 <= y < n && refers_to(dv.objects[x as int], y) implies marked@[y] by {
                        let q = choose|q: int| 0 <= q < ev.len() && (#[trigger] ev[q]).0 != spec_parent() && ev[q].1 == ValueV::Reference(y as nat);
                        assert(ev[q].1 matches ValueV::Reference(z) ==> (z < n ==> marked@[z as int]));
                    }
                }
            },
            Body::Array(vs) => {
                let ghost vv = crate::graph::values_view(vs@);
                assert(dv.objects[x as int].body == BodyV::Array(vv));
                let mut e: usize = 0;
                while e < vs.len()
                    invariant
                        n == dv.objects.len(),
                        dv == d@,
                        rs == index_set(roots@),
                        x < n,
                        vv == crate::graph::values_view(vs@),
                        dv.objects[x as int].body == BodyV::Array(vv),
                        e <= vs@.len(),
                        i < order@.len(),
                        order@[i as int] == x,
                        marked@.len() == n,
                        marked_set(marked@).len() == order@.len(),
                        marked_set(marked@).finite(),
                        forall|j: int| 0 <= j < order@.len() ==> #[trigger] order@[j] < n && marked@[order@[j] as int],
                        forall|x2: int| 0 <= x2 < n && #[trigger] marked@[x2] ==> exists|j: int| 0 <= j < order@.len() && order@[j] as int == x2,
                        forall|s: Set<int>| #[trigger] closed(dv, s) && rs.subset_of(s) ==> marked_set(marked@).subset_of(s),
                        forall|w: int| 0 <= w < n && start_marked[w] ==> #[trigger] marked@[w],
                        start_order.len() <= order@.len(),
                        forall|j: int| 0 <= j < start_order.len() ==> #[trigger] order@[j] == start_order[j],
                        forall|q: int| 0 <= q < e ==> (#[trigger] vv[q] matches ValueV::Reference(y) ==> (y < n ==> marked@[y as int])),
                    decreases vs.len() - e,
                {
                    assert(vv[e as int] == vs@[e as int]@);
                    match &vs[e] {
                        Value::Reference(y) => {
                            if *y < n {
                                let ghost bm = marked@;
                                let ghost bo = order@;
                                mark(&mut marked, &mut order, *y);
                                proof {
                                    lemma_marked_step(dv, rs, bm, marked@, bo, order@, x as int, *y);
                                }
                            }
                        },
                        _ => {},
                    }
                    e += 1;
                }
                proof {
                    assert forall|y: int| 0 <= y < n && refers_to(dv.objects[x as int], y) implies marked@[y] by {
                        let q = choose|q: int| 0 <= q < vv.len() && #[trigger] vv[q] == ValueV::Reference(y as nat);
                        assert(vv[q] matches ValueV::Reference(z) ==> (z < n ==> marked@[z as int]));
                    }
                }
            },
        }
        proof {
            vstd::set_lib::lemma_int_range(0, n as int);
            vstd::set_lib::lemma_len_subset(marked_set(marked@), vstd::set_lib::set_int_range(0, n as int));
            assert forall|r: int| 0 <= r < roots@.len() implies #[trigger] marked@[roots@[r] as int] by {
                assert(start_marked[roots@[r] as int]);
            }
            assert forall|j: int, y: int| #![trigger order@[j], refers_to(dv.objects[order@[j] as int], y)]
                0 <= j < i + 1 && 0 <= y < n && refers_to(dv.objects[order@[j] as int], y) implies marked@[y] by {
                if j < i {
                    assert(order@[j] == start_order[j]);
                    assert(start_marked[y]);
                }
            }
        }
        i += 1;
    }
    proof {
        assert(closed(dv, marked_set(marked@))) by {
            assert forall|x: int, y: int| #![trigger marked_set(marked@).contains(x), refers_to(dv.objects[x], y)]
                marked_set(marked@).contains(x) && 0 <= x < n && 0 <= y < n && refers_to(dv.objects[x], y)
                implies marked_set(marked@).contains(y) by {
                assert(marked@[x]);
                let j = choose|j: int| 0 <= j < order@.len() && order@[j] as int == x;
                assert(refers_to(dv.objects[order@[j] as int], y));
            }
        }
        assert(rs.subset_of(marked_set(marked@))) by {
            assert forall|x: int| rs.contains(x) implies marked_set(marked@).contains(x) by {
                let r = choose|r: int| 0 <= r < roots@.len() && roots@[r] as int == x;
                assert(marked@[roots@[r] as int]);
            }
        }
        assert forall|x: int| 0 <= x < n implies (marked@[x] <==> reachable(dv, rs, x)) by {
            if marked@[x] {
                assert forall|s: Set<int>| #[trigger] closed(dv, s) && rs.subset_of(s) implies s.contains(x) by {
                    assert(marked_set(marked@).contains(x));
                }
            }
        }
    }
    marked
}

/// Marking `y` because marked `x` refers to it keeps every invariant of the walk.
proof fn lemma_marked_step(
    dv: DocumentV,
    rs: Set<int>,
    bm: Seq<bool>,
    am: Seq<bool>,
    bo: Seq<usize>,
    ao: Seq<usize>,
    x: int,
    y: usize,
)
    requires
        0 <= x < dv.objects.len(),
        y < dv.objects.len(),
        bm.len() == dv.objects.len(),
        bm[x],
        refers_to(dv.objects[x], y as int),
        am == bm.update(y as int, true),
        bm[y as int] ==> ao == bo,
        !bm[y as int] ==> ao == bo.push(y),
        marked_set(bm).len() == bo.len(),
        marked_set(bm).finite(),
        forall|j: int| 0 <= j < bo.len() ==> #[trigger] bo[j] < dv.objects.len() && bm[bo[j] as int],
        forall|x2: int| 0 <= x2 < dv.objects.len() && #[trigger] bm[x2] ==> exists|j: int| 0 <= j < bo.len() && bo[j] as int == x2,
        forall|s: Set<int>| #[trigger] closed(dv, s) && rs.subset_of(s) ==> marked_set(bm).subset_of(s),
    ensures
        am.len() == dv.objects.len(),
        am[y as int],
        marked_set(am).len() == ao.len(),
        marked_set(am).finite(),
        forall|j: int| 0 <= j < ao.len() ==> #[trigger] ao[j] < dv.objects.len() && am[ao[j] as int],
        forall|x2: int| 0 <= x2 < dv.objects.len() && #[trigger] am[x2] ==> exists|j: int| 0 <= j < ao.len() && ao[j] as int == x2,
        forall|s: Set<int>| #[trigger] closed(dv, s) && rs.subset_of(s) ==> marked_set(am).subset_of(s),
        forall|w: int| 0 <= w < dv.objects.len() && bm[w] ==> #[trigger] am[w],
        bo.len() <= ao.len(),
        forall|j: int| 0 <= j < bo.len() ==> #[trigger] ao[j] == bo[j],
{
    assert(marked_set(am) =~= marked_set(bm).insert(y as int));
    if !bm[y as int] {
        assert(!marked_set(bm).contains(y as int));
    }
    assert forall|x2: int| 0 <= x2 < dv.objects.len() && #[trigger] am[x2] implies exists|j: int| 0 <= j < ao.len() && ao[j] as int == x2 by {
        if x2 == y as int && !bm[y as int] {
            assert(ao[ao.len() - 1] as int == x2);
        } else {
            let j = choose|j: int| 0 <= j < bo.len() && bo[j] as int == x2;
            assert(ao[j] == bo[j]);
        }
    }
    assert forall|s: Set<int>| #[trigger] closed(dv, s) && rs.subset_of(s) implies marked_set(am).subset_of(s) by {
        assert(marked_set(bm).contains(x));
        assert(s.contains(x));
    }
}

/// The array a page's `/Annots` refers to.
pub open spec fn annots_of(d: DocumentV, page: nat) -> Option<nat> {
    target(d, key_of(d, page, spec_annots()))
}

/// Whether the pages at positions `i` and `j` are different pages with one `/Annots` array.
pub open spec fn shares_annots(d: DocumentV, i: int, j: int) -> bool {
    &&& 0 <= i < d.pages.len()
    &&& 0 <= j < d.pages.len()
    &&& i != j
    &&& annots_of(d, d.pages[i]) is Some
    &&& annots_of(d, d.pages[j]) == annots_of(d, d.pages[i])
}

/// For each page, the positions of the other pages its `/Annots` array is shared with.
pub open spec fn sharing_recorded(d: DocumentV, r: Seq<Vec<u64>>) -> bool {
    &&& r.len() == d.pages.len()
    &&& forall|i: int, j: int| 0 <= i < r.len() ==> (#[trigger] r[i]@.contains(j as u64) && 0 <= j < d.pages.len()
        <==> shares_annots(d, i, j))
    &&& forall|i: int, k: int| 0 <= i < r.len() && 0 <= k < r[i]@.len() ==> #[trigger] r[i]@[k] < d.pages.len()
}

/// For each page, the other pages its `/Annots` array is shared with, by position.
///
/// Asked of the source, before anything is copied: in an output, a copy shared with an
/// excluded page is indistinguishable from a copy shared with nobody.
pub fn annots_sharing(d: &Document) -> (r: Vec<Vec<u64>>)
    ensures
        sharing_recorded(d@, r@),
{
    let key = annots();
    let n = d.pages.len();
    let mut arrays: Vec<Option<usize>> = Vec::new();
    let mut i: usize = 0;
    while i < n
        invariant
            n == d@.pages.len(),
            key@ == spec_annots(),
            i <= n,
            arrays@.len() == i,
            forall|j: int| 0 <= j < i ==> #[trigger] arrays@[j] == match annots_of(d@, d@.pages[j]) {
                Some(a) => Some(a as usize),
                None => None::<usize>,
            },
        decreases n - i,
    {
        assert(d@.pages[i as int] == d.pages@[i as int] as nat);
        arrays.push(d.target(d.get(d.pages[i], &key)));
        i += 1;
    }
    let mut r: Vec<Vec<u64>> = Vec::new();
    let mut i: usize = 0;
    while i < n
        invariant
            n == d@.pages.len(),
            arrays@.len() == n,
            forall|j: int| 0 <= j < n ==> #[trigger] arrays@[j] == match annots_of(d@, d@.pages[j]) {
                Some(a) => Some(a as usize),
                None => None::<usize>,
            },
            forall|j: int| 0 <= j < n ==> (#[trigger] annots_of(d@, d@.pages[j]) matches Some(a) ==> a < d@.objects.len()),
            i <= n,
            r@.len() == i,
            forall|a: int, j: int| 0 <= a < i ==> (#[trigger] r@[a]@.contains(j as u64) && 0 <= j < n
                <==> shares_annots(d@, a, j)),
            forall|a: int, k: int| 0 <= a < i && 0 <= k < r@[a]@.len() ==> #[trigger] r@[a]@[k] < n,
        decreases n - i,
    {
        let mut others: Vec<u64> = Vec::new();
        let mut j: usize = 0;
        while j < n
            invariant
                n == d@.pages.len(),
                arrays@.len() == n,
                forall|q: int| 0 <= q < n ==> #[trigger] arrays@[q] == match annots_of(d@, d@.pages[q]) {
                    Some(a) => Some(a as usize),
                    None => None::<usize>,
                },
                forall|q: int| 0 <= q < n ==> (#[trigger] annots_of(d@, d@.pages[q]) matches Some(a) ==> a < d@.objects.len()),
                i < n,
                j <= n,
                forall|w: int| 0 <= w < j ==> (#[trigger] others@.contains(w as u64) <==> shares_annots(d@, i as int, w)),
                forall|k: int| 0 <= k < others@.len() ==> #[trigger] others@[k] < j,
            decreases n - j,
        {
            proof {
                assert(d@.objects.len() == d.objects@.len());
                assert(d.objects@.len() == d.objects.len());
            }
            let shared = match (arrays[i], arrays[j]) {
                (Some(a), Some(b)) => i != j && a == b,
                _ => false,
            };
            let ghost before = others@;
            if shared {
                others.push(j as u64);
            }
            proof {
                assert forall|w: int| 0 <= w < j + 1 implies (#[trigger] others@.contains(w as u64) <==> shares_annots(d@, i as int, w)) by {
                    if w < j {
                        if others@.contains(w as u64) && !before.contains(w as u64) {
                            assert(others@[others@.len() - 1] == w as u64);
                        }
                        if before.contains(w as u64) {
                            let k = choose|k: int| 0 <= k < before.len() && before[k] == w as u64;
                            assert(others@[k] == before[k]);
                        }
                    } else {
                        if others@.contains(w as u64) && !shared {
                            let k = choose|k: int| 0 <= k < others@.len() && others@[k] == w as u64;
                            assert(before[k] < j);
                        }
                        if shared {
                            assert(others@[others@.len() - 1] == w as u64);
                        }
                    }
                }
            }
            j += 1;
        }
        proof {
            assert forall|w: int| (#[trigger] others@.contains(w as u64) && 0 <= w < n) <==> shares_annots(d@, i as int, w) by {
                if others@.contains(w as u64) && !(0 <= w < n) {
                    let k = choose|k: int| 0 <= k < others@.len() && others@[k] == w as u64;
                    assert(others@[k] < n);
                }
            }
        }
        r.push(others);
        i += 1;
    }
    r
}

/// A source document held open for the life of a split.
pub struct QpdfSource {
    document: Document,
    /// The same document with its page tree flattened: every page carries what it inherits,
    /// so a page copied out alone still displays as it did.
    flat: Document,
    limits: Limits,
    annots_shared: Vec<Vec<u64>>,
}

impl QpdfSource {
    /// Holds of every value [`Self::open`] returns.
    pub closed spec fn wf(self) -> bool {
        &&& opens(self.document@, self.limits)
        &&& flattened(self.document@, self.flat@)
        &&& sharing_recorded(self.document@, self.annots_shared@)
    }

    /// The document, as opened.
    pub closed spec fn doc(self) -> DocumentV {
        self.document@
    }

    /// The document with its page tree flattened.
    pub closed spec fn flat(self) -> DocumentV {
        self.flat@
    }

    /// The ceilings it was opened under.
    pub closed spec fn limits(self) -> Limits {
        self.limits
    }

    /// The flattened copy is the document with its page tree flattened: the same pages, the
    /// same number of objects, and every page inheriting what it did.
    pub proof fn lemma_flat_is_flattened(self)
        requires
            self.wf(),
        ensures
            flattened(self.doc(), self.flat()),
    {
    }

    /// Open `document` for splitting under `limits`.
    ///
    /// # Errors
    ///
    /// As [`open_document`].
    pub fn open(document: Document, limits: Limits) -> (r: Result<QpdfSource>)
        ensures
            r is Ok <==> opens(document@, limits),
            r is Ok ==> r->Ok_0.wf() && r->Ok_0.doc() == document@ && r->Ok_0.limits() == limits,
            r is Ok ==> r->Ok_0.flat().pages == document@.pages,
            r is Ok ==> r->Ok_0.flat().objects.len() == document@.objects.len(),
            !wf(document@) ==> r is Err && r->Err_0 is Malformed,
            wf(document@) && document@.pages.len() > limits.max_pages ==> r is Err && r->Err_0 is LimitExceeded,
    {
        open_document(&document, &limits)?;
        let mut flat = document.duplicate();
        flatten(&mut flat);
        let annots_shared = annots_sharing(&document);
        Ok(QpdfSource { document, flat, limits, annots_shared })
    }

    /// How many pages the source has.
    pub fn pages(&self) -> (n: u64)
        requires
            self.wf(),
        ensures
            n == self.doc().pages.len(),
    {
        self.document.pages.len() as u64
    }

    /// Every page's `/Rotate` as written; see [`rotations_of`].
    pub fn rotations<C: Clock>(&self, deadline: &Deadline, clock: &C) -> (r: Result<Vec<i64>>)
        requires
            self.wf(),
        ensures
            r is Ok ==> r->Ok_0@.len() == self.doc().pages.len() && forall|i: int|
                0 <= i < self.doc().pages.len() ==> crate::engine::recorded(self.doc(), self.doc().pages[i], r->Ok_0@[i] as int),
            r is Err ==> crate::engine::swept_refusal(self.doc(), *deadline, r->Err_0),
            deadline.holds_for(clock) && (forall|i: int| 0 <= i < self.doc().pages.len()
                ==> crate::engine::rotation_read(self.doc(), #[trigger] self.doc().pages[i]) is Some) ==> r is Ok,
    {
        proof {
            assert forall|i: int| 0 <= i < self.document@.pages.len()
                && crate::engine::rotation_read(self.doc(), self.doc().pages[i]) is Some
                implies crate::engine::rotation_read(self.document@, #[trigger] self.document@.pages[i]) is Some by {}
        }
        rotations_of(&self.document, deadline, clock)
    }
}

/// The slot an object not in an output leaves: an empty direct array, which nothing refers to.
pub open spec fn blank() -> ObjectV {
    ObjectV { direct: true, body: BodyV::Array(Seq::empty()) }
}

/// The pages at positions `[first, end)`, as a set of objects.
pub open spec fn run_set(d: DocumentV, first: int, end: int) -> Set<int> {
    Set::new(|x: int| exists|k: int| first <= k < end && d.pages[k] as int == x)
}

/// The entries of an output's root `/Pages` node.
pub open spec fn root_entries(kids: nat, count: int) -> Seq<(Seq<u8>, ValueV)> {
    seq![
        (spec_type_key(), ValueV::Name(spec_pages())),
        (spec_kids(), ValueV::Reference(kids)),
        (spec_count(), ValueV::Integer(count)),
    ]
}

/// `out` is the run `[first, first + count)` of `flat` split out: the run's pages, in order,
/// under a new root; every other object the run reaches, other than through `/Parent`,
/// where it was; and nothing else.
pub open spec fn split_of(flat: DocumentV, first: int, count: int, out: DocumentV) -> bool {
    let n = flat.objects.len();
    let end = first + count;
    let run = run_set(flat, first, end);
    &&& out.objects.len() == n + 2
    &&& out.root == n
    &&& out.pages == flat.pages.subrange(first, end)
    &&& forall|x: int| 0 <= x < n && !run.contains(x) ==> #[trigger] out.objects[x] == if reachable(flat, run, x) {
        flat.objects[x]
    } else {
        blank()
    }
    &&& forall|k: int| first <= k < end ==> same_kind(#[trigger] out.objects[flat.pages[k] as int], flat.objects[flat.pages[k] as int])
    &&& forall|k: int, key: Seq<u8>| first <= k < end && key != spec_parent() ==> #[trigger] key_of(out, flat.pages[k], key)
        == key_of(flat, flat.pages[k], key)
    &&& forall|k: int| first <= k < end ==> #[trigger] key_of(out, flat.pages[k], spec_parent()) == Some(ValueV::Reference(n))
    &&& out.objects[n as int] == ObjectV { direct: false, body: BodyV::Dictionary(root_entries((n + 1) as nat, count)) }
    &&& out.objects[n + 1int] == ObjectV { direct: true, body: BodyV::Array(out.pages.map_values(|p: nat| ValueV::Reference(p))) }
}

/// Whether the page at position `at` of a run shares its `/Annots` array with a page outside
/// the run.
pub open spec fn shared_outside(d: DocumentV, at: int, first: int, end: int) -> bool {
    exists|j: int| #[trigger] shares_annots(d, at, j) && (j < first || j >= end)
}

/// A split's output, and for each of its pages whether that page's `/Annots` array is
/// shared with a page the output does not hold: such an array carries another page's
/// annotations, and only those whose `/P` is the page itself may stay.
pub struct Extracted {
    /// The output.
    pub document: Document,
    /// By output page.
    pub ambiguous: Vec<bool>,
}

/// The new root has none of the inheritable attributes and no `/Parent`.
proof fn lemma_root_lacks(kids: nat, count: int, key: Seq<u8>)
    requires
        is_inheritable(key) || key == spec_parent(),
    ensures
        dict_get(root_entries(kids, count), key) is None,
{
    let e = root_entries(kids, count);
    let e1 = e.drop_first();
    let e2 = e1.drop_first();
    let e3 = e2.drop_first();
    assert(e3 =~= Seq::<(Seq<u8>, ValueV)>::empty());
    assert(e[0].0 == spec_type_key());
    assert(e1[0].0 == spec_kids());
    assert(e2[0].0 == spec_count());
    assert(key[0] != 84u8 && key[0] != 75u8 && (key[0] != 67u8 || key[1] != 111u8)) by {
        if key == spec_resources() {
            assert(key[0] == 82u8);
        } else if key == spec_rotate() {
            assert(key[0] == 82u8);
        } else if key == spec_media_box() {
            assert(key[0] == 77u8);
        } else if key == spec_crop_box() {
            assert(key[1] == 114u8);
        } else {
            assert(key[0] == 80u8);
        }
    }
    assert(spec_type_key()[0] == 84u8);
    assert(spec_kids()[0] == 75u8);
    assert(spec_count()[0] == 67u8 && spec_count()[1] == 111u8);
    assert(dict_get(e3, key) is None);
    assert(dict_get(e2, key) == dict_get(e3, key));
    assert(dict_get(e1, key) == dict_get(e2, key));
    assert(dict_get(e, key) == dict_get(e1, key));
}

/// A split output is well formed, and every page of it inherits what it did in the source,
/// where that could be read and was not a reference to nothing.
proof fn lemma_split_keeps(src: DocumentV, flat: DocumentV, first: int, count: int, out: DocumentV)
    requires
        wf(src),
        flattened(src, flat),
        0 <= first,
        0 < count,
        first + count <= src.pages.len(),
        split_of(flat, first, count, out),
    ensures
        wf(out),
        forall|k: int, key: Seq<u8>| #![trigger inherited(out, src.pages[k], key)]
            first <= k < first + count && is_inheritable(key) && !(inherited(src, src.pages[k], key) is Broken)
            && !dangling(src, src.pages[k], key)
            ==> inherited(out, src.pages[k], key) == inherited(src, src.pages[k], key),
{
    let n = flat.objects.len();
    let end = first + count;
    assert forall|i: int| 0 <= i < out.pages.len() implies #[trigger] out.pages[i] < out.objects.len()
        && is_dictionary(out.objects[out.pages[i] as int]) && out.pages[i] != out.root by {
        assert(out.pages[i] == flat.pages[first + i]);
        assert(same_kind(out.objects[flat.pages[first + i] as int], flat.objects[flat.pages[first + i] as int]));
    }
    assert forall|i: int, j: int| 0 <= i < out.pages.len() && 0 <= j < out.pages.len() && i != j
        implies #[trigger] out.pages[i] != #[trigger] out.pages[j] by {
        assert(out.pages[i] == flat.pages[first + i]);
        assert(out.pages[j] == flat.pages[first + j]);
    }
    assert(is_dictionary(out.objects[n as int]));
    assert(wf(out));
    assert forall|k: int, key: Seq<u8>| #![trigger inherited(out, src.pages[k], key)]
        first <= k < end && is_inheritable(key) && !(inherited(src, src.pages[k], key) is Broken)
        && !dangling(src, src.pages[k], key)
        implies inherited(out, src.pages[k], key) == inherited(src, src.pages[k], key) by {
        lemma_inheritable_is_not_parent(key);
        let p = src.pages[k];
        assert(flat.pages[k] == p);
        assert(src.pages.contains(p));
        assert(key_of(out, p, key) == key_of(flat, p, key));
        assert(key_of(out, p, spec_parent()) == Some(ValueV::Reference(out.root)));
        lemma_root_lacks((n + 1) as nat, count, key);
        lemma_root_lacks((n + 1) as nat, count, spec_parent());
        assert(key_of(out, out.root, key) is None);
        assert(key_of(out, out.root, spec_parent()) is None);
        lemma_inherited_found_is_not_null(src, p, key);
        match inherited(src, p, key) {
            Inherited::Found(v) => {
                assert(key_of(flat, p, key) == Some(v));
            },
            _ => {
                assert(key_of(flat, p, key) == key_of(src, p, key));
                lemma_inherits_nothing(out, p, key);
            },
        }
    }
}

/// The pages at positions `[first, end)`, by object.
fn run_of(d: &Document, first: usize, end: usize) -> (r: Vec<usize>)
    requires
        first <= end <= d@.pages.len(),
    ensures
        r@.len() == end - first,
        forall|k: int| 0 <= k < r@.len() ==> #[trigger] r@[k] as nat == d@.pages[first + k],
{
    let mut r: Vec<usize> = Vec::new();
    let mut k: usize = first;
    while k < end
        invariant
            first <= k <= end <= d@.pages.len(),
            r@.len() == k - first,
            forall|j: int| 0 <= j < r@.len() ==> #[trigger] r@[j] as nat == d@.pages[first + j],
        decreases end - k,
    {
        assert(d@.pages[k as int] == d.pages@[k as int] as nat);
        r.push(d.pages[k]);
        k += 1;
    }
    r
}

/// A page split out draws what it drew: its `/Contents` names the same stream, and the output
/// holds that stream with the same data.
pub proof fn lemma_split_pages_keep_their_content(
    doc: DocumentV,
    flat: DocumentV,
    first: int,
    count: int,
    out: DocumentV,
    k: int,
    x: nat,
)
    requires
        flattened(doc, flat),
        split_of(flat, first, count, out),
        0 <= first <= k < first + count <= doc.pages.len(),
        key_of(doc, doc.pages[k], crate::names::spec_contents()) == Some(ValueV::Reference(x)),
        x < doc.objects.len(),
        doc.objects[x as int].body is Stream,
    ensures
        key_of(out, doc.pages[k], crate::names::spec_contents()) == Some(ValueV::Reference(x)),
        out.objects[x as int].body is Stream,
        out.objects[x as int].body->Stream_1 == doc.objects[x as int].body->Stream_1,
{
    crate::flatten::lemma_contents_is_not_a_tree_attribute();
    let c = crate::names::spec_contents();
    let p = doc.pages[k];
    let run = run_set(flat, first, first + count);
    assert(flat.pages == doc.pages);
    assert(key_of(flat, p, c) == key_of(doc, p, c));
    assert(key_of(out, flat.pages[k], c) == key_of(flat, flat.pages[k], c));
    assert(crate::graph::kept_but_entries(flat.objects[x as int], doc.objects[x as int]));
    // `x` is a stream, so no page of the run.
    assert(!run.contains(x as int)) by {
        if run.contains(x as int) {
            let q = choose|q: int| first <= q < first + count && flat.pages[q] as int == x as int;
            assert(is_dictionary(flat.objects[flat.pages[q] as int]));
        }
    }
    // The page refers to `x` through `/Contents`, so the run reaches it.
    assert(is_dictionary(flat.objects[p as int]));
    let es = crate::graph::entries_of(flat.objects[p as int]);
    crate::graph::lemma_get_is_entry(es, c);
    let i = choose|i: int| 0 <= i < es.len() && #[trigger] es[i] == (c, ValueV::Reference(x));
    assert(entries_refer_to(es, x as int));
    assert(refers_to(flat.objects[p as int], x as int));
    assert(run.contains(p as int));
    assert forall|s: Set<int>| #[trigger] closed(flat, s) && run.subset_of(s) implies s.contains(x as int) by {
        assert(s.contains(p as int));
    }
    assert(reachable(flat, run, x as int));
    assert(out.objects[x as int] == flat.objects[x as int]);
}

impl QpdfSource {
    /// Copy the run of `count` pages from position `first` into a document of its own.
    ///
    /// # Errors
    ///
    /// - `InvalidArgument` when the run overflows, is empty, or is not inside the document.
    /// - `LimitExceeded` for `max_pages` at [`Stage::PageCount`], against the ceiling the
    ///   source was opened under: a caller cannot raise it after the fact.
    /// - `Internal` when the output would not fit in memory.
    pub fn extract(&self, first: u64, count: u64) -> (r: Result<Extracted>)
        requires
            self.wf(),
        ensures
            self.flat().pages == self.doc().pages,
            self.flat().objects.len() == self.doc().objects.len(),
            r is Ok ==> r->Ok_0.document@.pages == self.doc().pages.subrange(first as int, first + count),
            first + count > u64::MAX ==> r is Err && r->Err_0 is InvalidArgument,
            first + count <= u64::MAX && (count == 0 || first + count > self.doc().pages.len()) ==> r is Err
                && r->Err_0 is InvalidArgument,
            0 < count && first + count <= self.doc().pages.len() && count > self.limits().max_pages ==> r is Err
                && r->Err_0 == (Error::LimitExceeded {
                    limit: "max_pages",
                    stage: Stage::PageCount,
                    requested: count,
                    allowed: self.limits().max_pages,
                }),
            r is Ok <==> 0 < count && first + count <= self.doc().pages.len() && count <= self.limits().max_pages
                && self.doc().objects.len() + 2 <= usize::MAX && count <= i64::MAX,
            r is Ok ==> split_of(self.flat(), first as int, count as int, r->Ok_0.document@),
            r is Ok ==> wf(r->Ok_0.document@),
            r is Ok ==> forall|k: int, key: Seq<u8>| #![trigger inherited(r->Ok_0.document@, self.doc().pages[k], key)]
                first <= k < first + count && is_inheritable(key) && !(inherited(self.doc(), self.doc().pages[k], key) is Broken)
                && !dangling(self.doc(), self.doc().pages[k], key)
                ==> inherited(r->Ok_0.document@, self.doc().pages[k], key) == inherited(self.doc(), self.doc().pages[k], key),
            r is Ok ==> forall|k: int, key: Seq<u8>| #![trigger key_of(r->Ok_0.document@, self.doc().pages[k], key)]
                first <= k < first + count && !is_inheritable(key) && key != crate::names::spec_parent()
                ==> key_of(r->Ok_0.document@, self.doc().pages[k], key) == key_of(self.doc(), self.doc().pages[k], key),
            r is Ok ==> forall|k: int, x: nat| #![trigger key_of(self.doc(), self.doc().pages[k], crate::names::spec_contents()), self.doc().objects[x as int]]
                first <= k < first + count && x < self.doc().objects.len()
                && key_of(self.doc(), self.doc().pages[k], crate::names::spec_contents()) == Some(ValueV::Reference(x))
                && self.doc().objects[x as int].body is Stream
                ==> r->Ok_0.document@.objects[x as int].body is Stream
                    && r->Ok_0.document@.objects[x as int].body->Stream_1 == self.doc().objects[x as int].body->Stream_1,
            r is Ok ==> r->Ok_0.ambiguous@.len() == count,
            r is Ok ==> forall|at: int| 0 <= at < count ==> #[trigger] r->Ok_0.ambiguous@[at]
                == shared_outside(self.doc(), first + at, first as int, first + count),
    {
        if count > u64::MAX - first {
            return Err(invalid_argument("page run overflows"));
        }
        let end = first + count;
        let total = self.document.pages.len() as u64;
        if count == 0 || end > total {
            return Err(invalid_argument("page run is not inside the document"));
        }
        Limits::check(Stage::PageCount, "max_pages", count, self.limits.max_pages)?;
        let n = self.flat.objects.len();
        if n > usize::MAX - 2 || count > i64::MAX as u64 {
            return Err(internal("the output does not fit in memory"));
        }
        let ghost flat = self.flat@;
        let ghost src = self.document@;
        let first_at = first as usize;
        let end_at = end as usize;
        let run = run_of(&self.flat, first_at, end_at);
        let marked = reach(&self.flat, &run);
        proof {
            assert(index_set(run@) =~= run_set(flat, first as int, end as int)) by {
                assert forall|x: int| run_set(flat, first as int, end as int).contains(x) implies index_set(run@).contains(x) by {
                    let k = choose|k: int| first <= k < end && flat.pages[k] as int == x;
                    assert(run@[k - first] as nat == flat.pages[k]);
                }
            }
        }
        // Every object the run reaches, where it was; an empty slot for every other.
        let mut objects: Vec<Object> = Vec::new();
        let mut x: usize = 0;
        while x < n
            invariant
                n == flat.objects.len(),
                flat == self.flat@,
                marked@.len() == n,
                x <= n,
                objects@.len() == x,
                forall|y: int| 0 <= y < x ==> #[trigger] objects@[y]@ == if marked@[y] { flat.objects[y] } else { blank() },
            decreases n - x,
        {
            if marked[x] {
                objects.push(copy_object(&self.flat.objects[x]));
            } else {
                let empty: Vec<Value> = Vec::new();
                assert(values_view(empty@) =~= Seq::<ValueV>::empty());
                let o = Object { direct: true, body: Body::Array(empty) };
                objects.push(o);
            }
            x += 1;
        }
        let mut out = Document { objects, pages: run.clone(), root: n };
        let ghost start = out@;
        proof {
            assert(start.objects.len() == n);
            assert forall|y: int| 0 <= y < n implies #[trigger] start.objects[y] == if reachable(flat, run_set(flat, first as int, end as int), y) {
                flat.objects[y]
            } else {
                blank()
            } by {
                assert(start.objects[y] == objects@[y]@);
            }
        }
        // Every page of the run becomes a child of the new root.
        let pk = parent();
        let mut k: usize = 0;
        while k < run.len()
            invariant
                n == flat.objects.len(),
                flat == self.flat@,
                wf(flat),
                pk@ == spec_parent(),
                run@.len() == end - first,
                first + (end - first) <= flat.pages.len(),
                forall|j: int| 0 <= j < run@.len() ==> #[trigger] run@[j] as nat == flat.pages[first + j],
                k <= run@.len(),
                out@.objects.len() == n,
                out@.root == n,
                out@.pages == start.pages,
                forall|y: int| 0 <= y < n && !run_set(flat, first as int, end as int).contains(y) ==> #[trigger] out@.objects[y] == start.objects[y],
                forall|j: int| 0 <= j < run@.len() ==> same_kind(#[trigger] out@.objects[flat.pages[first + j] as int], start.objects[flat.pages[first + j] as int]),
                forall|j: int, key: Seq<u8>| 0 <= j < run@.len() && key != spec_parent() ==> #[trigger] key_of(out@, flat.pages[first + j], key)
                    == key_of(start, flat.pages[first + j], key),
                forall|j: int| 0 <= j < k ==> #[trigger] key_of(out@, flat.pages[first + j], spec_parent()) == Some(ValueV::Reference(n as nat)),
                forall|y: int| 0 <= y < n ==> #[trigger] start.objects[y] == if reachable(flat, run_set(flat, first as int, end as int), y) {
                    flat.objects[y]
                } else {
                    blank()
                },
                forall|j: int| 0 <= j < run@.len() ==> reachable(flat, run_set(flat, first as int, end as int), #[trigger] flat.pages[first + j] as int),
            decreases run.len() - k,
        {
            let p = run[k];
            let ghost mid = out@;
            proof {
                assert(p as nat == flat.pages[first + k]);
                assert(is_dictionary(flat.objects[p as int]));
                assert(same_kind(mid.objects[p as int], start.objects[p as int]));
                assert(reachable(flat, run_set(flat, first as int, end as int), p as int));
                assert(start.objects[p as int] == flat.objects[p as int]);
            }
            out.set_key(p, crate::graph::copy_name(&pk), Value::Reference(n));
            proof {
                assert forall|j: int| 0 <= j < k + 1 implies #[trigger] key_of(out@, flat.pages[first + j], spec_parent()) == Some(ValueV::Reference(n as nat)) by {
                    if j < k {
                        assert(flat.pages[first + j] != flat.pages[first + k]);
                    }
                }
                assert forall|j: int, key: Seq<u8>| 0 <= j < run@.len() && key != spec_parent() implies #[trigger] key_of(out@, flat.pages[first + j], key)
                    == key_of(start, flat.pages[first + j], key) by {
                    assert(key_of(out@, flat.pages[first + j], key) == key_of(mid, flat.pages[first + j], key));
                }
                assert forall|y: int| 0 <= y < n && !run_set(flat, first as int, end as int).contains(y) implies #[trigger] out@.objects[y] == start.objects[y] by {
                    assert(y != p as int) by {
                        assert(run_set(flat, first as int, end as int).contains(p as int)) by {
                            assert(flat.pages[first + k] as int == p as int);
                        }
                    }
                }
                assert forall|j: int| 0 <= j < run@.len() implies same_kind(#[trigger] out@.objects[flat.pages[first + j] as int], start.objects[flat.pages[first + j] as int]) by {
                    if flat.pages[first + j] != p as nat {
                        assert(out@.objects[flat.pages[first + j] as int] == mid.objects[flat.pages[first + j] as int]);
                    }
                }
            }
            k += 1;
        }
        let ghost linked = out@;
        // The new root, then its kids.
        let mut root_entries_v: Vec<Entry> = Vec::new();
        root_entries_v.push(Entry { key: type_key(), value: Value::Name(pages()) });
        root_entries_v.push(Entry { key: kids(), value: Value::Reference(n + 1) });
        root_entries_v.push(Entry { key: crate::names::count(), value: Value::Integer(count as i64) });
        let root_object = Object { direct: false, body: Body::Dictionary(root_entries_v) };
        assert(entries_view(root_entries_v@) =~= root_entries((n + 1) as nat, count as int));
        out.push_object(root_object);
        let mut kid_values: Vec<Value> = Vec::new();
        let mut j: usize = 0;
        while j < run.len()
            invariant
                j <= run@.len(),
                values_view(kid_values@) == run@.take(j as int).map_values(|p: usize| ValueV::Reference(p as nat)),
            decreases run.len() - j,
        {
            let ghost prev = kid_values@;
            let v = Value::Reference(run[j]);
            kid_values.push(v);
            assert(values_view(kid_values@) =~= values_view(prev).push(v@));
            assert(run@.take(j + 1) =~= run@.take(j as int).push(run@[j as int]));
            assert(values_view(kid_values@) =~= run@.take(j + 1).map_values(|p: usize| ValueV::Reference(p as nat)));
            j += 1;
        }
        assert(run@.take(run@.len() as int) =~= run@);
        let kids_object = Object { direct: true, body: Body::Array(kid_values) };
        out.push_object(kids_object);
        proof {
            let o = out@;
            assert(o.pages =~= flat.pages.subrange(first as int, end as int)) by {
                assert forall|i: int| 0 <= i < o.pages.len() implies o.pages[i] == flat.pages.subrange(first as int, end as int)[i] by {
                    assert(o.pages[i] == run@[i] as nat);
                }
            }
            assert(o.objects[n + 1int].body == BodyV::Array(o.pages.map_values(|p: nat| ValueV::Reference(p)))) by {
                assert(run@.map_values(|p: usize| ValueV::Reference(p as nat)) =~= o.pages.map_values(|p: nat| ValueV::Reference(p)));
            }
            assert forall|key: Seq<u8>, y: nat| y < n implies #[trigger] key_of(o, y, key) == key_of(linked, y, key) by {
                assert(o.objects[y as int] == linked.objects[y as int]);
            }
            assert forall|kk: int| first <= kk < end implies same_kind(#[trigger] o.objects[flat.pages[kk] as int], flat.objects[flat.pages[kk] as int]) by {
                let jj = kk - first;
                assert(same_kind(linked.objects[flat.pages[first + jj] as int], start.objects[flat.pages[first + jj] as int]));
                assert(reachable(flat, run_set(flat, first as int, end as int), flat.pages[first + jj] as int));
            }
            assert forall|kk: int, key: Seq<u8>| first <= kk < end && key != spec_parent() implies #[trigger] key_of(o, flat.pages[kk], key)
                == key_of(flat, flat.pages[kk], key) by {
                let jj = kk - first;
                assert(key_of(linked, flat.pages[first + jj], key) == key_of(start, flat.pages[first + jj], key));
                assert(reachable(flat, run_set(flat, first as int, end as int), flat.pages[first + jj] as int));
                assert(start.objects[flat.pages[kk] as int] == flat.objects[flat.pages[kk] as int]);
            }
            assert forall|kk: int| first <= kk < end implies #[trigger] key_of(o, flat.pages[kk], spec_parent()) == Some(ValueV::Reference(n as nat)) by {
                let jj = kk - first;
                assert(key_of(linked, flat.pages[first + jj], spec_parent()) == Some(ValueV::Reference(n as nat)));
            }
            assert forall|y: int| 0 <= y < n && !run_set(flat, first as int, end as int).contains(y) implies #[trigger] o.objects[y]
                == if reachable(flat, run_set(flat, first as int, end as int), y) { flat.objects[y] } else { blank() } by {
                assert(o.objects[y] == linked.objects[y]);
            }
            assert(split_of(flat, first as int, count as int, o));
            lemma_split_keeps(src, flat, first as int, count as int, o);
        }
        // Whether each output page's `/Annots` is shared with a page outside the run: the
        // source page's answer, since `at` is an output position and `first + at` the page
        // it came from.
        let mut ambiguous: Vec<bool> = Vec::new();
        let mut at: usize = 0;
        assert(src.pages.len() == self.document.pages@.len());
        assert(self.document.pages@.len() == self.document.pages.len());
        while at < run.len()
            invariant
                src == self.document@,
                src.pages.len() <= usize::MAX,
                sharing_recorded(src, self.annots_shared@),
                first + (end - first) <= src.pages.len(),
                first_at == first,
                end <= src.pages.len(),
                run@.len() == end - first,
                end == first + count,
                at <= run@.len(),
                ambiguous@.len() == at,
                forall|a: int| 0 <= a < at ==> #[trigger] ambiguous@[a] == shared_outside(src, first + a, first as int, end as int),
            decreases run.len() - at,
        {
            let sharers = &self.annots_shared[first_at + at];
            let i = first_at + at;
            let mut found = false;
            let mut q: usize = 0;
            while q < sharers.len()
                invariant
                    sharers@ == self.annots_shared@[i as int]@,
                    sharing_recorded(src, self.annots_shared@),
                    i < src.pages.len(),
                    q <= sharers@.len(),
                    found ==> shared_outside(src, i as int, first as int, end as int),
                    !found ==> forall|w: int| 0 <= w < q ==> !(sharers@[w] < first || sharers@[w] >= end),
                decreases sharers.len() - q,
            {
                let s = sharers[q];
                if s < first || s >= end {
                    proof {
                        assert(self.annots_shared@[i as int]@.contains(s));
                        assert(s < src.pages.len());
                        assert(self.annots_shared@[i as int]@.contains((s as int) as u64));
                        assert(shares_annots(src, i as int, s as int));
                    }
                    found = true;
                }
                q += 1;
            }
            proof {
                if !found && shared_outside(src, i as int, first as int, end as int) {
                    let w = choose|w: int| #[trigger] shares_annots(src, i as int, w) && (w < first || w >= end);
                    assert(0 <= w < src.pages.len());
                    assert((w as u64) as int == w);
                    assert(self.annots_shared@[i as int]@.contains(w as u64));
                    let qq = choose|qq: int| 0 <= qq < sharers@.len() && sharers@[qq] == w as u64;
                    assert(sharers@[qq] as int == w);
                }
            }
            ambiguous.push(found);
            at += 1;
        }
        proof {
            assert forall|k: int, key: Seq<u8>| #![trigger key_of(out@, src.pages[k], key)]
                first <= k < first + count && !is_inheritable(key) && key != crate::names::spec_parent()
                implies key_of(out@, src.pages[k], key) == key_of(src, src.pages[k], key) by {
                assert(key_of(out@, flat.pages[k], key) == key_of(flat, flat.pages[k], key));
            }
            assert forall|k: int, x: nat| #![trigger key_of(src, src.pages[k], crate::names::spec_contents()), src.objects[x as int]]
                first <= k < first + count && x < src.objects.len()
                && key_of(src, src.pages[k], crate::names::spec_contents()) == Some(ValueV::Reference(x))
                && src.objects[x as int].body is Stream
                implies out@.objects[x as int].body is Stream
                    && out@.objects[x as int].body->Stream_1 == src.objects[x as int].body->Stream_1 by {
                lemma_split_pages_keep_their_content(src, flat, first as int, count as int, out@, k, x);
            }
        }
        Ok(Extracted { document: out, ambiguous })
    }
}

} // verus!
