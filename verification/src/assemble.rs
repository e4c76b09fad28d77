//! Merging documents: pages are appended, in order, from each input after the first.

use vstd::prelude::*;

use crate::error::{internal, malformed, Error, Result, Stage};
use crate::flatten::{
    flatten, flattened, is_inheritable, lemma_found_is_not_null, lemma_inheritable_is_not_parent,
};
use crate::graph::{
    dict_get, entries_of, is_dictionary, key_of, reads_null, wf, Body, BodyV, Document, DocumentV,
    Entry, Object, ObjectV, Value, ValueV, entries_view, values_view,
};
use crate::inherit::{climb, inherited, Inherited};
use crate::limits::Limits;
use crate::names::{parent, spec_parent};

verus! {

/// A value of a document of `n` objects, renumbered `off` higher; a reference to no object
/// becomes `null`, which is what it read as.
pub open spec fn shift_value(v: ValueV, n: nat, off: nat) -> ValueV {
    match v {
        ValueV::Reference(i) => if i < n { ValueV::Reference(i + off) } else { ValueV::Null },
        _ => v,
    }
}

/// Entries, renumbered.
pub open spec fn shift_entries(es: Seq<(Seq<u8>, ValueV)>, n: nat, off: nat) -> Seq<(Seq<u8>, ValueV)> {
    es.map_values(|e: (Seq<u8>, ValueV)| (e.0, shift_value(e.1, n, off)))
}

/// An object, renumbered.
pub open spec fn shift_object(o: ObjectV, n: nat, off: nat) -> ObjectV {
    ObjectV {
        direct: o.direct,
        body: match o.body {
            BodyV::Dictionary(es) => BodyV::Dictionary(shift_entries(es, n, off)),
            BodyV::Array(vs) => BodyV::Array(vs.map_values(|v: ValueV| shift_value(v, n, off))),
            BodyV::Stream(es, data) => BodyV::Stream(shift_entries(es, n, off), data),
        },
    }
}

/// What an inherited lookup found, renumbered.
pub open spec fn shift_inherited(i: Inherited, n: nat, off: nat) -> Inherited {
    match i {
        Inherited::Found(v) => Inherited::Found(shift_value(v, n, off)),
        other => other,
    }
}

/// Whether page `p`'s own `key` is a reference to no object.
pub open spec fn dangling(d: DocumentV, p: nat, key: Seq<u8>) -> bool {
    match key_of(d, p, key) {
        Some(ValueV::Reference(i)) => i >= d.objects.len(),
        _ => false,
    }
}

/// Looking a key up in renumbered entries finds the renumbered value.
pub proof fn lemma_get_shifted(es: Seq<(Seq<u8>, ValueV)>, n: nat, off: nat, k: Seq<u8>)
    ensures
        dict_get(shift_entries(es, n, off), k) == match dict_get(es, k) {
            Some(v) => Some(shift_value(v, n, off)),
            None => None::<ValueV>,
        },
    decreases es.len(),
{
    if es.len() > 0 {
        assert(shift_entries(es, n, off).drop_first() =~= shift_entries(es.drop_first(), n, off));
        lemma_get_shifted(es.drop_first(), n, off, k);
    }
}

fn shifted_value(v: &Value, n: usize, off: usize) -> (r: Value)
    requires
        n + off <= usize::MAX,
    ensures
        r@ == shift_value(v@, n as nat, off as nat),
{
    match v {
        Value::Reference(i) => if *i < n { Value::Reference(*i + off) } else { Value::Null },
        other => crate::graph::copy_value(other),
    }
}

fn shifted_entries(es: &Vec<Entry>, n: usize, off: usize) -> (r: Vec<Entry>)
    requires
        n + off <= usize::MAX,
    ensures
        entries_view(r@) == shift_entries(entries_view(es@), n as nat, off as nat),
{
    let mut r: Vec<Entry> = Vec::new();
    let mut i: usize = 0;
    while i < es.len()
        invariant
            n + off <= usize::MAX,
            i <= es@.len(),
            entries_view(r@) == shift_entries(entries_view(es@), n as nat, off as nat).take(i as int),
        decreases es.len() - i,
    {
        let k = crate::graph::copy_name(&es[i].key);
        let v = shifted_value(&es[i].value, n, off);
        let ghost prev = r@;
        let e = Entry { key: k, value: v };
        assert(entries_view(es@)[i as int] == es@[i as int]@);
        assert(e@ == shift_entries(entries_view(es@), n as nat, off as nat)[i as int]);
        r.push(e);
        assert(entries_view(r@) =~= entries_view(prev).push(e@));
        i += 1;
        assert(entries_view(r@) =~= shift_entries(entries_view(es@), n as nat, off as nat).take(i as int));
    }
    assert(shift_entries(entries_view(es@), n as nat, off as nat).take(es@.len() as int)
        =~= shift_entries(entries_view(es@), n as nat, off as nat));
    r
}

fn shifted_values(vs: &Vec<Value>, n: usize, off: usize) -> (r: Vec<Value>)
    requires
        n + off <= usize::MAX,
    ensures
        values_view(r@) == values_view(vs@).map_values(|v: ValueV| shift_value(v, n as nat, off as nat)),
{
    let ghost target = values_view(vs@).map_values(|v: ValueV| shift_value(v, n as nat, off as nat));
    let mut r: Vec<Value> = Vec::new();
    let mut i: usize = 0;
    while i < vs.len()
        invariant
            n + off <= usize::MAX,
            i <= vs@.len(),
            target == values_view(vs@).map_values(|v: ValueV| shift_value(v, n as nat, off as nat)),
            values_view(r@) == target.take(i as int),
        decreases vs.len() - i,
    {
        let v = shifted_value(&vs[i], n, off);
        let ghost prev = r@;
        assert(values_view(vs@)[i as int] == vs@[i as int]@);
        assert(v@ == target[i as int]);
        r.push(v);
        assert(values_view(r@) =~= values_view(prev).push(v@));
        i += 1;
        assert(values_view(r@) =~= target.take(i as int));
    }
    assert(target.take(vs@.len() as int) =~= target);
    r
}

fn shifted_object(o: &Object, n: usize, off: usize) -> (r: Object)
    requires
        n + off <= usize::MAX,
    ensures
        r@ == shift_object(o@, n as nat, off as nat),
{
    let body = match &o.body {
        Body::Dictionary(es) => Body::Dictionary(shifted_entries(es, n, off)),
        Body::Array(vs) => Body::Array(shifted_values(vs, n, off)),
        Body::Stream(es, data) => {
            let copy = data.clone();
            assert(copy@ =~= data@);
            Body::Stream(shifted_entries(es, n, off), copy)
        },
    };
    Object { direct: o.direct, body }
}

/// An optional value, renumbered.
pub open spec fn shift_opt(v: Option<ValueV>, n: nat, off: nat) -> Option<ValueV> {
    match v {
        Some(x) => Some(shift_value(x, n, off)),
        None => None,
    }
}

/// In a table whose objects from `off` on are `d`'s renumbered, object `off + p` reads as
/// `d`'s object `p` renumbered.
proof fn lemma_key_of_shifted(d: DocumentV, grown: DocumentV, off: nat, p: nat, key: Seq<u8>)
    requires
        p < d.objects.len(),
        grown.objects.len() == off + d.objects.len(),
        grown.objects[(off + p) as int] == shift_object(d.objects[p as int], d.objects.len(), off),
    ensures
        key_of(grown, off + p, key) == shift_opt(key_of(d, p, key), d.objects.len(), off),
{
    let o = d.objects[p as int];
    let n = d.objects.len();
    match o.body {
        BodyV::Array(_) => {
            assert(shift_entries(Seq::empty(), n, off) =~= Seq::empty());
            assert(dict_get(Seq::<(Seq<u8>, ValueV)>::empty(), key) is None);
        },
        _ => {},
    }
    assert(entries_of(shift_object(o, n, off)) == shift_entries(entries_of(o), n, off));
    lemma_get_shifted(entries_of(o), n, off, key);
}

/// A page whose own value reads as `null` and whose `/Parent` is a root that carries neither
/// the key nor a `/Parent` inherits nothing.
pub proof fn lemma_inherits_nothing(d: DocumentV, page: nat, key: Seq<u8>)
    requires
        wf(d),
        reads_null(d, key_of(d, page, key)),
        key_of(d, page, spec_parent()) == Some(ValueV::Reference(d.root)),
        key_of(d, d.root, key) is None,
        key_of(d, d.root, spec_parent()) is None,
    ensures
        inherited(d, page, key) == Inherited::Absent,
{
    assert(climb(d, key_of(d, d.root, spec_parent()), key, 63) == Inherited::Absent);
}

/// What a lookup finds never reads as `null`.
pub proof fn lemma_inherited_found_is_not_null(d: DocumentV, page: nat, key: Seq<u8>)
    ensures
        inherited(d, page, key) matches Inherited::Found(v) ==> !reads_null(d, Some(v)),
{
    lemma_found_is_not_null(d, key_of(d, page, spec_parent()), key, 64);
}

/// The merged document after both loops of [`Assembly::append`]: `dest` and `next` were
/// flattened into `dflat` and `nflat`, `nflat`'s objects were renumbered and appended
/// (`grown`), and then its pages were appended and made children of the root.
proof fn lemma_appended(
    before: DocumentV,
    next0: DocumentV,
    dflat: DocumentV,
    nflat: DocumentV,
    grown: DocumentV,
    after: DocumentV,
)
    requires
        wf(before),
        wf(next0),
        flattened(before, dflat),
        flattened(next0, nflat),
        grown.objects.len() == dflat.objects.len() + nflat.objects.len(),
        forall|j: int| 0 <= j < nflat.objects.len() ==> #[trigger] grown.objects[dflat.objects.len() + j]
            == shift_object(nflat.objects[j], nflat.objects.len(), dflat.objects.len()),
        after.objects.len() == dflat.objects.len() + nflat.objects.len(),
        after.root == dflat.root,
        after.pages.len() == dflat.pages.len() + nflat.pages.len(),
        forall|j: int| 0 <= j < dflat.pages.len() ==> #[trigger] after.pages[j] == dflat.pages[j],
        forall|j: int| 0 <= j < nflat.pages.len() ==> #[trigger] after.pages[dflat.pages.len() + j]
            == nflat.pages[j] + dflat.objects.len(),
        forall|j: int| 0 <= j < dflat.objects.len() ==> #[trigger] after.objects[j] == dflat.objects[j],
        forall|j: int| 0 <= j < nflat.objects.len() ==> crate::graph::same_kind(
            #[trigger] after.objects[dflat.objects.len() + j],
            shift_object(nflat.objects[j], nflat.objects.len(), dflat.objects.len()),
        ),
        forall|j: int, key: Seq<u8>| 0 <= j < nflat.objects.len() && key != spec_parent()
            ==> #[trigger] key_of(after, (dflat.objects.len() + j) as nat, key)
                == key_of(grown, (dflat.objects.len() + j) as nat, key),
        forall|j: int| 0 <= j < nflat.pages.len() ==> #[trigger] key_of(after, nflat.pages[j] + dflat.objects.len(), spec_parent())
            == Some(ValueV::Reference(dflat.root)),
    ensures
        wf(after),
        appended(before, next0, after),
        forall|k: int, key: Seq<u8>| #![trigger inherited(after, next0.pages[k] + before.objects.len(), key)]
            0 <= k < next0.pages.len() && is_inheritable(key) && !(inherited(next0, next0.pages[k], key) is Broken)
            ==> inherited(after, next0.pages[k] + before.objects.len(), key)
                == shift_inherited(inherited(next0, next0.pages[k], key), next0.objects.len(), before.objects.len()),
        forall|p: nat, key: Seq<u8>| #![trigger inherited(after, p, key)]
            before.pages.contains(p) && is_inheritable(key)
            && !(inherited(before, p, key) is Broken) && !dangling(before, p, key)
            ==> inherited(after, p, key) == inherited(before, p, key),
{
    let off = dflat.objects.len();
    let n = nflat.objects.len();
    let dp = dflat.pages.len();
    // The root and everything below `off` are as `dflat` has them.
    assert forall|m: nat, key: Seq<u8>| m < off implies #[trigger] key_of(after, m, key) == key_of(dflat, m, key) by {
        assert(after.objects[m as int] == dflat.objects[m as int]);
    }
    // Well formed.
    assert forall|i: int| 0 <= i < after.pages.len() implies #[trigger] after.pages[i] < after.objects.len()
        && crate::graph::is_dictionary(after.objects[after.pages[i] as int])
        && after.pages[i] != after.root
        && (i < dp ==> after.pages[i] < off)
        && (i >= dp ==> after.pages[i] >= off) by {
        if i < dp {
            assert(dflat.pages[i] < off);
        } else {
            let j = i - dp;
            assert(after.pages[dp + j] == nflat.pages[j] + off);
            assert(nflat.pages[j] < n);
            assert(crate::graph::is_dictionary(nflat.objects[nflat.pages[j] as int]));
            assert(crate::graph::same_kind(after.objects[(off + nflat.pages[j]) as int],
                shift_object(nflat.objects[nflat.pages[j] as int], n, off)));
        }
    }
    assert forall|i: int, j: int| 0 <= i < after.pages.len() && 0 <= j < after.pages.len() && i != j
        implies #[trigger] after.pages[i] != #[trigger] after.pages[j] by {
        if i < dp && j < dp {
            assert(dflat.pages[i] != dflat.pages[j]);
        } else if i >= dp && j >= dp {
            assert(after.pages[dp + (i - dp)] == nflat.pages[i - dp] + off);
            assert(after.pages[dp + (j - dp)] == nflat.pages[j - dp] + off);
            assert(nflat.pages[i - dp] != nflat.pages[j - dp]);
        }
    }
    assert(wf(after));
    // Appended pages inherit what they inherited, renumbered.
    assert forall|k: int, key: Seq<u8>| #![trigger inherited(after, next0.pages[k] + before.objects.len(), key)]
        0 <= k < next0.pages.len() && is_inheritable(key) && !(inherited(next0, next0.pages[k], key) is Broken)
        implies inherited(after, next0.pages[k] + before.objects.len(), key)
            == shift_inherited(inherited(next0, next0.pages[k], key), n, off) by {
        lemma_inheritable_is_not_parent(key);
        let p = next0.pages[k];
        assert(nflat.pages[k] == p);
        assert(next0.pages.contains(p));
        assert(p < n);
        let q = (off + p) as nat;
        assert(grown.objects[(off + p) as int] == shift_object(nflat.objects[p as int], n, off));
        lemma_key_of_shifted(nflat, grown, off, p, key);
        assert(key_of(after, q, key) == key_of(grown, q, key));
        assert(key_of(after, q, key) == shift_opt(key_of(nflat, p, key), n, off));
        assert(after.pages[dp + k] == q);
        lemma_inherited_found_is_not_null(next0, p, key);
        match inherited(next0, p, key) {
            Inherited::Found(v) => {
                assert(key_of(nflat, p, key) == Some(v));
                assert(!reads_null(after, key_of(after, q, key)));
            },
            _ => {
                assert(key_of(nflat, p, key) == key_of(next0, p, key));
                assert(reads_null(after, key_of(after, q, key)));
                lemma_inherits_nothing(after, q, key);
            },
        }
    }
    // Pages already there inherit what they inherited.
    assert forall|p: nat, key: Seq<u8>| #![trigger inherited(after, p, key)]
        before.pages.contains(p) && is_inheritable(key)
        && !(inherited(before, p, key) is Broken) && !dangling(before, p, key)
        implies inherited(after, p, key) == inherited(before, p, key) by {
        lemma_inheritable_is_not_parent(key);
        let i = choose|i: int| 0 <= i < before.pages.len() && before.pages[i] == p;
        assert(dflat.pages[i] == p);
        assert(p < off);
        assert(key_of(after, p, key) == key_of(dflat, p, key));
        assert(key_of(after, p, spec_parent()) == Some(ValueV::Reference(after.root)));
        lemma_inherited_found_is_not_null(before, p, key);
        match inherited(before, p, key) {
            Inherited::Found(v) => {
                assert(key_of(dflat, p, key) == Some(v));
                assert(!reads_null(after, key_of(after, p, key)));
            },
            _ => {
                assert(key_of(dflat, p, key) == key_of(before, p, key));
                assert(reads_null(after, key_of(after, p, key)));
                lemma_inherits_nothing(after, p, key);
            },
        }
    }
}

/// A merge in progress: the first input, with every later input's pages appended to it.
pub struct Assembly {
    dest: Document,
    limits: Limits,
}

/// How `after` holds `before` with `next`'s pages appended: every object of `next` renumbered
/// to follow `before`'s, and its pages after `before`'s, in order.
pub open spec fn appended(before: DocumentV, next: DocumentV, after: DocumentV) -> bool {
    let off = before.objects.len();
    &&& after.objects.len() == off + next.objects.len()
    &&& after.root == before.root
    &&& after.pages.len() == before.pages.len() + next.pages.len()
    &&& forall|i: int| 0 <= i < before.pages.len() ==> #[trigger] after.pages[i] == before.pages[i]
    &&& forall|k: int| 0 <= k < next.pages.len() ==> #[trigger] after.pages[before.pages.len() + k] == next.pages[k] + off
}

/// The pages an appended document contributes: its own, in its order, each renumbered past
/// the objects already merged.
pub open spec fn shifted_pages(next: DocumentV, off: nat) -> Seq<nat> {
    next.pages.map_values(|p: nat| p + off)
}

/// An append never prepends or reorders: the pages already merged stay first and in place,
/// and the appended document's pages follow them in its own order, so the page count grows by
/// exactly the pages added.
pub proof fn lemma_append_keeps_page_order(before: DocumentV, next: DocumentV, after: DocumentV)
    requires
        appended(before, next, after),
    ensures
        after.pages.len() == before.pages.len() + next.pages.len(),
        after.pages == before.pages + shifted_pages(next, before.objects.len()),
{
    let q = before.pages + shifted_pages(next, before.objects.len());
    assert forall|i: int| 0 <= i < after.pages.len() implies #[trigger] after.pages[i] == q[i] by {
        if i >= before.pages.len() {
            let k = i - before.pages.len();
            assert(after.pages[before.pages.len() + k] == next.pages[k] + before.objects.len());
        }
    }
    assert(after.pages =~= q);
}

/// Two appends in turn lay the pages down as one would expect: the first document's, then
/// the second's, then the third's, each in its own order.
pub proof fn lemma_appends_compose(d0: DocumentV, n1: DocumentV, d1: DocumentV, n2: DocumentV, d2: DocumentV)
    requires
        appended(d0, n1, d1),
        appended(d1, n2, d2),
    ensures
        d2.pages.len() == d0.pages.len() + n1.pages.len() + n2.pages.len(),
        d2.pages == d0.pages + shifted_pages(n1, d0.objects.len()) + shifted_pages(n2, d0.objects.len() + n1.objects.len()),
{
    lemma_append_keeps_page_order(d0, n1, d1);
    lemma_append_keeps_page_order(d1, n2, d2);
}

/// `after` carries `before`'s objects where they were and `next`'s objects renumbered past
/// them, each changed in nothing but page-tree attributes: the same kind and `direct` flag,
/// the same stream data, and every key but `/Parent` and the inheritable ones reading as it
/// did, renumbered for `next`'s.
pub open spec fn objects_carried(before: DocumentV, next: DocumentV, after: DocumentV) -> bool {
    let off = before.objects.len();
    let n = next.objects.len();
    &&& after.objects.len() == off + n
    &&& forall|j: int| 0 <= j < off ==> crate::graph::kept_but_entries(#[trigger] after.objects[j], before.objects[j])
    &&& forall|j: nat, k: Seq<u8>| #![trigger key_of(after, j, k)] j < off && !is_inheritable(k) && k != spec_parent()
        ==> key_of(after, j, k) == key_of(before, j, k)
    &&& forall|j: int| 0 <= j < n ==> {
        &&& (#[trigger] after.objects[off + j]).direct == next.objects[j].direct
        &&& crate::graph::same_kind(after.objects[off + j], next.objects[j])
        &&& (next.objects[j].body is Stream ==> after.objects[off + j].body->Stream_1 == next.objects[j].body->Stream_1)
    }
    &&& forall|j: nat, k: Seq<u8>| #![trigger key_of(next, j, k)] j < n && !is_inheritable(k) && k != spec_parent()
        ==> key_of(after, off + j, k) == shift_opt(key_of(next, j, k), n, off)
}

/// An appended page draws what it drew: its `/Contents` names the copy of the stream it
/// named, and the copy holds the same data. A page already merged keeps its content too.
pub proof fn lemma_appended_pages_keep_their_content(before: DocumentV, next: DocumentV, after: DocumentV, k: int, x: nat)
    requires
        appended(before, next, after),
        objects_carried(before, next, after),
        0 <= k < next.pages.len(),
        next.pages[k] < next.objects.len(),
        key_of(next, next.pages[k], crate::names::spec_contents()) == Some(ValueV::Reference(x)),
        x < next.objects.len(),
        next.objects[x as int].body is Stream,
    ensures
        after.pages[before.pages.len() + k] == next.pages[k] + before.objects.len(),
        key_of(after, after.pages[before.pages.len() + k], crate::names::spec_contents())
            == Some(ValueV::Reference(x + before.objects.len())),
        after.objects[(x + before.objects.len()) as int].body is Stream,
        after.objects[(x + before.objects.len()) as int].body->Stream_1 == next.objects[x as int].body->Stream_1,
{
    crate::flatten::lemma_contents_is_not_a_tree_attribute();
    let off = before.objects.len();
    assert(key_of(after, off + next.pages[k], crate::names::spec_contents())
        == shift_opt(key_of(next, next.pages[k], crate::names::spec_contents()), next.objects.len(), off));
    assert(crate::graph::same_kind(after.objects[(off + x) as int], next.objects[x as int]));
}

/// The objects the append leaves are carried as [`objects_carried`] says.
proof fn lemma_carried(
    before: DocumentV,
    next0: DocumentV,
    dflat: DocumentV,
    nflat: DocumentV,
    grown: DocumentV,
    after: DocumentV,
)
    requires
        flattened(before, dflat),
        flattened(next0, nflat),
        grown.objects.len() == dflat.objects.len() + nflat.objects.len(),
        forall|j: int| 0 <= j < nflat.objects.len() ==> #[trigger] grown.objects[dflat.objects.len() + j]
            == shift_object(nflat.objects[j], nflat.objects.len(), dflat.objects.len()),
        forall|j: int| 0 <= j < dflat.objects.len() ==> #[trigger] after.objects[j] == dflat.objects[j],
        crate::graph::contents_kept(grown, after),
        forall|j: int, key: Seq<u8>| 0 <= j < nflat.objects.len() && key != spec_parent()
            ==> #[trigger] key_of(after, (dflat.objects.len() + j) as nat, key)
                == key_of(grown, (dflat.objects.len() + j) as nat, key),
    ensures
        objects_carried(before, next0, after),
{
    let off = dflat.objects.len();
    let n = nflat.objects.len();
    assert forall|j: int| 0 <= j < off implies crate::graph::kept_but_entries(#[trigger] after.objects[j], before.objects[j]) by {
        assert(crate::graph::kept_but_entries(dflat.objects[j], before.objects[j]));
    }
    assert forall|j: nat, k: Seq<u8>| #![trigger key_of(after, j, k)] j < off && !is_inheritable(k) && k != spec_parent()
        implies key_of(after, j, k) == key_of(before, j, k) by {
        assert(after.objects[j as int] == dflat.objects[j as int]);
        assert(key_of(dflat, j, k) == key_of(before, j, k));
    }
    assert forall|j: int| 0 <= j < n implies {
        &&& (#[trigger] after.objects[off + j]).direct == next0.objects[j].direct
        &&& crate::graph::same_kind(after.objects[off + j], next0.objects[j])
        &&& (next0.objects[j].body is Stream ==> after.objects[off + j].body->Stream_1 == next0.objects[j].body->Stream_1)
    } by {
        assert(crate::graph::kept_but_entries(after.objects[off + j], grown.objects[off + j]));
        assert(crate::graph::kept_but_entries(nflat.objects[j], next0.objects[j]));
    }
    assert forall|j: nat, k: Seq<u8>| #![trigger key_of(next0, j, k)] j < n && !is_inheritable(k) && k != spec_parent()
        implies key_of(after, off + j, k) == shift_opt(key_of(next0, j, k), n, off) by {
        assert(key_of(after, (off + j) as nat, k) == key_of(grown, (off + j) as nat, k));
        lemma_key_of_shifted(nflat, grown, off, j, k);
        assert(key_of(nflat, j, k) == key_of(next0, j, k));
    }
}

impl Assembly {
    /// Holds of every value [`Self::begin`] returns, and every operation keeps it.
    pub closed spec fn wf(self) -> bool {
        wf(self.dest@)
    }

    /// The merged document so far.
    pub closed spec fn doc(self) -> DocumentV {
        self.dest@
    }

    /// Begin a merge with `first`, whose encoded size was `input_len` bytes.
    ///
    /// # Errors
    ///
    /// - `LimitExceeded` for `max_input_bytes` at [`Stage::InputSize`], checked first.
    /// - `Malformed` when the document is not well formed or has no pages.
    /// - `LimitExceeded` for `max_pages` at [`Stage::PageCount`].
    pub fn begin(first: Document, input_len: u64, limits: Limits) -> (r: Result<Assembly>)
        ensures
            input_len > limits.max_input_bytes ==> r is Err && r->Err_0 == (Error::LimitExceeded {
                limit: "max_input_bytes",
                stage: Stage::InputSize,
                requested: input_len,
                allowed: limits.max_input_bytes,
            }),
            r is Ok <==> input_len <= limits.max_input_bytes && crate::engine::opens(first@, limits),
            r is Ok ==> r->Ok_0.doc() == first@ && r->Ok_0.wf(),
    {
        Limits::check(Stage::InputSize, "max_input_bytes", input_len, limits.max_input_bytes)?;
        crate::engine::open_document(&first, &limits)?;
        Ok(Assembly { dest: first, limits })
    }

    /// How many pages the merged document has so far.
    pub fn pages(&self) -> (n: u64)
        requires
            self.wf(),
        ensures
            n == self.doc().pages.len(),
    {
        self.dest.pages.len() as u64
    }

    /// Append every page of `next`, whose encoded size was `input_len` bytes, returning how
    /// many pages it added.
    ///
    /// The page ceiling is on the merged output, checked before anything is copied: a
    /// hundred inputs of a hundred pages each is ten thousand pages from a caller who set
    /// `max_pages` to a thousand.
    ///
    /// # Errors
    ///
    /// - `LimitExceeded` for `max_input_bytes` at [`Stage::InputSize`].
    /// - `Malformed` when `next` is not well formed.
    /// - `LimitExceeded` for `max_pages` at [`Stage::PageCount`], on the merged total.
    /// - `Internal` when the merged object table would not fit in memory.
    pub fn append(&mut self, next: Document, input_len: u64, limits: &Limits) -> (r: Result<u64>)
        requires
            old(self).wf(),
        ensures
            final(self).wf(),
            input_len > limits.max_input_bytes ==> r is Err && r->Err_0 == (Error::LimitExceeded {
                limit: "max_input_bytes",
                stage: Stage::InputSize,
                requested: input_len,
                allowed: limits.max_input_bytes,
            }),
            input_len <= limits.max_input_bytes && !wf(next@) ==> r is Err && r->Err_0 is Malformed,
            input_len <= limits.max_input_bytes && wf(next@)
                && old(self).doc().pages.len() + next@.pages.len() > u64::MAX ==> r is Err && r->Err_0 is Internal,
            input_len <= limits.max_input_bytes && wf(next@)
                && old(self).doc().pages.len() + next@.pages.len() <= u64::MAX
                && old(self).doc().pages.len() + next@.pages.len() > limits.max_pages ==> r is Err
                && r->Err_0 == (Error::LimitExceeded {
                    limit: "max_pages",
                    stage: Stage::PageCount,
                    requested: (old(self).doc().pages.len() + next@.pages.len()) as u64,
                    allowed: limits.max_pages,
                }),
            r is Err && r->Err_0 is Internal ==> old(self).doc().pages.len() + next@.pages.len() > u64::MAX
                || old(self).doc().objects.len() + next@.objects.len() > usize::MAX,
            input_len <= limits.max_input_bytes && wf(next@)
                && old(self).doc().pages.len() + next@.pages.len() <= limits.max_pages
                && old(self).doc().objects.len() + next@.objects.len() <= usize::MAX ==> r is Ok,
            r is Err ==> final(self).doc() == old(self).doc(),
            r is Ok ==> input_len <= limits.max_input_bytes && wf(next@)
                && old(self).doc().pages.len() + next@.pages.len() <= limits.max_pages,
            r is Ok ==> r->Ok_0 == next@.pages.len(),
            r is Ok ==> appended(old(self).doc(), next@, final(self).doc()),
            r is Ok ==> objects_carried(old(self).doc(), next@, final(self).doc()),
            r is Ok ==> forall|j: int| 0 <= j < next@.objects.len() && (#[trigger] next@.objects[j]).body is Stream
                ==> final(self).doc().objects[old(self).doc().objects.len() + j].body is Stream
                && final(self).doc().objects[old(self).doc().objects.len() + j].body->Stream_1 == next@.objects[j].body->Stream_1,
            r is Ok ==> forall|j: int| 0 <= j < old(self).doc().objects.len() && (#[trigger] old(self).doc().objects[j]).body is Stream
                ==> final(self).doc().objects[j].body is Stream
                && final(self).doc().objects[j].body->Stream_1 == old(self).doc().objects[j].body->Stream_1,
            r is Ok ==> forall|k: int, key: Seq<u8>| #![trigger inherited(final(self).doc(), next@.pages[k] + old(self).doc().objects.len(), key)]
                0 <= k < next@.pages.len() && is_inheritable(key) && !(inherited(next@, next@.pages[k], key) is Broken)
                ==> inherited(final(self).doc(), next@.pages[k] + old(self).doc().objects.len(), key)
                    == shift_inherited(inherited(next@, next@.pages[k], key), next@.objects.len(), old(self).doc().objects.len()),
            r is Ok ==> forall|p: nat, key: Seq<u8>| #![trigger inherited(final(self).doc(), p, key)]
                old(self).doc().pages.contains(p) && is_inheritable(key)
                && !(inherited(old(self).doc(), p, key) is Broken) && !dangling(old(self).doc(), p, key)
                ==> inherited(final(self).doc(), p, key) == inherited(old(self).doc(), p, key),
    {
        Limits::check(Stage::InputSize, "max_input_bytes", input_len, limits.max_input_bytes)?;
        if !next.is_well_formed() {
            return Err(malformed("an input's page tree is not well formed"));
        }
        let have = self.dest.pages.len() as u64;
        let count = next.pages.len() as u64;
        if count > u64::MAX - have {
            return Err(internal("the merged page count does not fit"));
        }
        let total = have + count;
        Limits::check(Stage::PageCount, "max_pages", total, limits.max_pages)?;
        let off = self.dest.objects.len();
        let n = next.objects.len();
        if n > usize::MAX - off {
            return Err(internal("the merged document does not fit in memory"));
        }
        let ghost before = self.dest@;
        let ghost next0 = next@;
        let mut next = next;
        flatten(&mut next);
        flatten(&mut self.dest);
        let ghost dflat = self.dest@;
        let ghost nflat = next@;
        let mut i: usize = 0;
        while i < n
            invariant
                n == nflat.objects.len(),
                next@ == nflat,
                off == dflat.objects.len(),
                n + off <= usize::MAX,
                i <= n,
                self.dest@.objects.len() == off + i,
                self.dest@.pages == dflat.pages,
                self.dest@.root == dflat.root,
                forall|j: int| 0 <= j < off ==> #[trigger] self.dest@.objects[j] == dflat.objects[j],
                forall|j: int| 0 <= j < i ==> #[trigger] self.dest@.objects[off + j] == shift_object(nflat.objects[j], n as nat, off as nat),
            decreases n - i,
        {
            let o = shifted_object(&next.objects[i], n, off);
            self.dest.push_object(o);
            i += 1;
        }
        let ghost grown = self.dest@;
        let root = self.dest.root;
        let pk = parent();
        let mut k: usize = 0;
        while k < next.pages.len()
            invariant
                next@ == nflat,
                n == nflat.objects.len(),
                off == dflat.objects.len(),
                n + off <= usize::MAX,
                wf(nflat),
                wf(dflat),
                root == dflat.root,
                pk@ == spec_parent(),
                k <= nflat.pages.len(),
                self.dest@.objects.len() == off + n,
                self.dest@.root == dflat.root,
                self.dest@.pages.len() == dflat.pages.len() + k,
                forall|j: int| 0 <= j < dflat.pages.len() ==> #[trigger] self.dest@.pages[j] == dflat.pages[j],
                forall|j: int| 0 <= j < k ==> #[trigger] self.dest@.pages[dflat.pages.len() + j] == nflat.pages[j] + off,
                forall|j: int| 0 <= j < off ==> #[trigger] self.dest@.objects[j] == dflat.objects[j],
                forall|j: int| 0 <= j < n ==> crate::graph::same_kind(#[trigger] self.dest@.objects[off + j], shift_object(nflat.objects[j], n as nat, off as nat)),
                forall|j: int, key: Seq<u8>| 0 <= j < n && key != spec_parent() ==> #[trigger] key_of(self.dest@, (off + j) as nat, key)
                    == key_of(grown, (off + j) as nat, key),
                forall|j: int| 0 <= j < k ==> #[trigger] key_of(self.dest@, (nflat.pages[j] + off) as nat, spec_parent())
                    == Some(ValueV::Reference(dflat.root)),
                grown.objects.len() == off + n,
                forall|j: int| 0 <= j < n ==> #[trigger] grown.objects[off + j] == shift_object(nflat.objects[j], n as nat, off as nat),
                crate::graph::contents_kept(grown, self.dest@),
            decreases next.pages.len() - k,
        {
            assert(nflat.pages[k as int] == next.pages@[k as int] as nat);
            assert(nflat.pages[k as int] < n);
            let q = next.pages[k] + off;
            let ghost mid = self.dest@;
            proof {
                let p = nflat.pages[k as int];
                assert(crate::graph::is_dictionary(nflat.objects[p as int]));
                assert(crate::graph::same_kind(mid.objects[off + p], shift_object(nflat.objects[p as int], n as nat, off as nat)));
                assert(!(mid.objects[q as int].body is Array));
            }
            self.dest.set_key(q, crate::graph::copy_name(&pk), Value::Reference(root));
            let ghost set = self.dest@;
            self.dest.push_page(q);
            proof {
                crate::graph::lemma_entries_change_keeps_contents(mid, set, q as nat);
                crate::graph::lemma_contents_kept_trans(grown, mid, set);
                assert(self.dest@.objects == set.objects);
                assert(crate::graph::contents_kept(grown, self.dest@)) by {
                    assert forall|x: int| 0 <= x < grown.objects.len() implies crate::graph::kept_but_entries(#[trigger] self.dest@.objects[x], grown.objects[x]) by {
                        assert(crate::graph::kept_but_entries(set.objects[x], grown.objects[x]));
                    }
                }
                assert forall|m: nat, key: Seq<u8>| #[trigger] key_of(self.dest@, m, key) == key_of(set, m, key) by {}
                assert(key_of(self.dest@, q as nat, spec_parent()) == Some(ValueV::Reference(dflat.root)));
                assert forall|j: int, key: Seq<u8>| 0 <= j < n && key != spec_parent() implies #[trigger] key_of(self.dest@, (off + j) as nat, key)
                    == key_of(grown, (off + j) as nat, key) by {
                    assert(key_of(set, (off + j) as nat, key) == key_of(mid, (off + j) as nat, key));
                }
                assert forall|j: int| 0 <= j < k + 1 implies #[trigger] key_of(self.dest@, (nflat.pages[j] + off) as nat, spec_parent())
                    == Some(ValueV::Reference(dflat.root)) by {
                    if j < k {
                        assert(nflat.pages[j] != nflat.pages[k as int]);
                        assert(key_of(set, (nflat.pages[j] + off) as nat, spec_parent()) == key_of(mid, (nflat.pages[j] + off) as nat, spec_parent()));
                    }
                }
                assert forall|j: int| 0 <= j < n implies crate::graph::same_kind(#[trigger] self.dest@.objects[off + j], shift_object(nflat.objects[j], n as nat, off as nat)) by {
                    assert(self.dest@.objects[off + j] == mid.objects[off + j] || (off + j) == q);
                }
            }
            k += 1;
        }
        proof {
            lemma_appended(before, next0, dflat, nflat, grown, self.dest@);
            lemma_carried(before, next0, dflat, nflat, grown, self.dest@);
            assert forall|j: int| 0 <= j < next0.objects.len() && (#[trigger] next0.objects[j]).body is Stream
                implies self.dest@.objects[before.objects.len() + j].body is Stream
                && self.dest@.objects[before.objects.len() + j].body->Stream_1 == next0.objects[j].body->Stream_1 by {
                assert(crate::graph::same_kind(self.dest@.objects[before.objects.len() + j], next0.objects[j]));
            }
            assert forall|j: int| 0 <= j < before.objects.len() && (#[trigger] before.objects[j]).body is Stream
                implies self.dest@.objects[j].body is Stream && self.dest@.objects[j].body->Stream_1 == before.objects[j].body->Stream_1 by {
                assert(crate::graph::kept_but_entries(self.dest@.objects[j], before.objects[j]));
            }
        }
        Ok(count)
    }

    /// The merged document.
    pub fn finish(self) -> (d: Document)
        requires
            self.wf(),
        ensures
            d@ == self.doc(),
            wf(d@),
    {
        self.dest
    }
}

} // verus!
