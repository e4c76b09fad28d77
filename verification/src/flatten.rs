//! Flattening the page tree: every inherited attribute is pushed down onto the pages that
//! inherit it, and every page becomes a child of the root.
//!
//! This is what moving a page does to a document. What each page displays is preserved: the
//! inherited `/Rotate`, `/Resources`, `/MediaBox` and `/CropBox` become explicit on every page
//! before the intermediate `/Pages` nodes are cut out of the tree.

use vstd::prelude::*;

use crate::graph::{
    contents_kept, copy_value, key_of, lemma_contents_kept_trans, lemma_entries_change_keeps_contents, reads_null, same_kind, wf,
    Document, DocumentV, Value, ValueV,
};
use crate::inherit::{changed_only, climb, inherited, inherited_value, Inherited, Lookup};
use crate::names::{
    crop_box, media_box, parent, resources, rotate, spec_crop_box, spec_media_box, spec_parent,
    spec_resources, spec_rotate,
};

verus! {

/// The attributes a page inherits from the page tree.
pub open spec fn is_inheritable(key: Seq<u8>) -> bool {
    key == spec_resources() || key == spec_media_box() || key == spec_crop_box() || key == spec_rotate()
}

/// The inheritable attributes are not `/Parent`.
pub proof fn lemma_inheritable_is_not_parent(key: Seq<u8>)
    requires
        is_inheritable(key),
    ensures
        key != spec_parent(),
{
    assert(spec_parent()[0] == 80u8);
    assert(spec_parent()[1] == 97u8);
    assert(spec_resources()[0] == 82u8);
    assert(spec_rotate()[0] == 82u8);
    assert(spec_media_box()[0] == 77u8);
    assert(spec_crop_box()[0] == 67u8);
}

/// What a walk finds never reads as `null`.
pub proof fn lemma_found_is_not_null(d: DocumentV, parent: Option<ValueV>, key: Seq<u8>, fuel: nat)
    ensures
        climb(d, parent, key, fuel) matches Inherited::Found(v) ==> !reads_null(d, Some(v)),
    decreases fuel,
{
    if fuel > 0 && !reads_null(d, parent) {
        match crate::graph::dictionary_target(d, parent) {
            None => {},
            Some(n) => {
                lemma_found_is_not_null(d, key_of(d, n, spec_parent()), key, (fuel - 1) as nat);
            },
        }
    }
}

/// What flattening writes onto page `page` under `key`: the inherited value, when the page
/// does not carry its own.
pub open spec fn pushed(d: DocumentV, page: nat, key: Seq<u8>) -> Option<ValueV> {
    if reads_null(d, key_of(d, page, key)) {
        match inherited(d, page, key) {
            Inherited::Found(v) => Some(v),
            _ => None,
        }
    } else {
        None
    }
}

/// For every page, what flattening writes under `key`.
fn collect(d: &Document, key: &[u8]) -> (r: Vec<Option<Value>>)
    ensures
        r@.len() == d@.pages.len(),
        forall|i: int| 0 <= i < d@.pages.len() ==> (match #[trigger] r@[i] {
            Some(v) => Some(v@),
            None => None::<ValueV>,
        }) == pushed(d@, d@.pages[i], key@),
{
    let mut r: Vec<Option<Value>> = Vec::new();
    let mut i: usize = 0;
    while i < d.pages.len()
        invariant
            i <= d@.pages.len(),
            r@.len() == i,
            forall|j: int| 0 <= j < i ==> (match #[trigger] r@[j] {
                Some(v) => Some(v@),
                None => None::<ValueV>,
            }) == pushed(d@, d@.pages[j], key@),
        decreases d.pages.len() - i,
    {
        let page = d.pages[i];
        assert(d@.pages[i as int] == page as nat);
        let own = d.get(page, key);
        if d.reads_null(own) {
            match inherited_value(d, page, key) {
                Lookup::Found(v) => r.push(Some(v)),
                _ => r.push(None),
            }
        } else {
            r.push(None);
        }
        i += 1;
    }
    r
}

/// Write `values[i]` under `key` on page `i`, where there is one.
fn apply(d: &mut Document, key: &[u8], values: Vec<Option<Value>>)
    requires
        wf(old(d)@),
        values@.len() == old(d)@.pages.len(),
    ensures
        wf(final(d)@),
        contents_kept(old(d)@, final(d)@),
        changed_only(old(d)@, final(d)@, Set::new(|n: nat| old(d)@.pages.contains(n))),
        final(d)@.pages == old(d)@.pages,
        final(d)@.root == old(d)@.root,
        forall|n: nat, k: Seq<u8>| k != key@ ==> #[trigger] key_of(final(d)@, n, k) == key_of(old(d)@, n, k),
        forall|i: int| 0 <= i < old(d)@.pages.len() ==> #[trigger] key_of(final(d)@, old(d)@.pages[i], key@) == match values@[i] {
            Some(v) => Some(v@),
            None => key_of(old(d)@, old(d)@.pages[i], key@),
        },
{
    let ghost before = d@;
    let ghost s = Set::new(|n: nat| before.pages.contains(n));
    let ghost vals = values@;
    let mut values = values;
    let n = d.pages.len();
    let mut i: usize = 0;
    while i < n
        invariant
            wf(before),
            n == before.pages.len(),
            i <= n,
            values@.len() == n - i,
            forall|j: int| 0 <= j < n - i ==> values@[j] == vals[j + i],
            vals.len() == n,
            s == Set::new(|m: nat| before.pages.contains(m)),
            wf(d@),
            contents_kept(before, d@),
            changed_only(before, d@, s),
            d@.pages == before.pages,
            d@.root == before.root,
            forall|m: nat, k: Seq<u8>| k != key@ ==> #[trigger] key_of(d@, m, k) == key_of(before, m, k),
            forall|j: int| 0 <= j < i ==> #[trigger] key_of(d@, before.pages[j], key@) == match vals[j] {
                Some(v) => Some(v@),
                None => key_of(before, before.pages[j], key@),
            },
            forall|j: int| i <= j < n ==> #[trigger] key_of(d@, before.pages[j], key@) == key_of(before, before.pages[j], key@),
        decreases n - i,
    {
        let page = d.pages[i];
        assert(before.pages[i as int] == page as nat);
        let next = values.remove(0);
        assert(next == vals[i as int]);
        let ghost mid = d@;
        match next {
            Some(v) => {
                let k = crate::graph::copy_name(key);
                d.set_key(page, k, v);
                proof {
                    lemma_entries_change_keeps_contents(mid, d@, page as nat);
                    lemma_contents_kept_trans(before, mid, d@);
                    assert forall|j: int| 0 <= j < i + 1 implies #[trigger] key_of(d@, before.pages[j], key@) == match vals[j] {
                        Some(v) => Some(v@),
                        None => key_of(before, before.pages[j], key@),
                    } by {
                        if j < i {
                            assert(before.pages[j] != before.pages[i as int]);
                        }
                    }
                    assert forall|j: int| i + 1 <= j < n implies #[trigger] key_of(d@, before.pages[j], key@) == key_of(before, before.pages[j], key@) by {
                        assert(before.pages[j] != before.pages[i as int]);
                    }
                    assert forall|m: nat, k2: Seq<u8>| !s.contains(m) implies #[trigger] key_of(d@, m, k2) == key_of(before, m, k2) by {
                        assert(m != page);
                    }
                    assert(s.contains(page as nat)) by {
                        assert(before.pages[i as int] == page as nat);
                    }
                }
            },
            None => {},
        }
        i += 1;
    }
}

/// Make every page a child of the root.
fn adopt(d: &mut Document)
    requires
        wf(old(d)@),
    ensures
        wf(final(d)@),
        contents_kept(old(d)@, final(d)@),
        changed_only(old(d)@, final(d)@, Set::new(|n: nat| old(d)@.pages.contains(n))),
        final(d)@.pages == old(d)@.pages,
        final(d)@.root == old(d)@.root,
        forall|n: nat, k: Seq<u8>| k != spec_parent() ==> #[trigger] key_of(final(d)@, n, k) == key_of(old(d)@, n, k),
        forall|i: int| 0 <= i < old(d)@.pages.len() ==> #[trigger] key_of(final(d)@, old(d)@.pages[i], spec_parent())
            == Some(ValueV::Reference(old(d)@.root)),
{
    let ghost before = d@;
    let ghost s = Set::new(|n: nat| before.pages.contains(n));
    let n = d.pages.len();
    let mut i: usize = 0;
    while i < n
        invariant
            wf(before),
            n == before.pages.len(),
            i <= n,
            s == Set::new(|m: nat| before.pages.contains(m)),
            wf(d@),
            contents_kept(before, d@),
            changed_only(before, d@, s),
            d@.pages == before.pages,
            d@.root == before.root,
            forall|m: nat, k: Seq<u8>| k != spec_parent() ==> #[trigger] key_of(d@, m, k) == key_of(before, m, k),
            forall|j: int| 0 <= j < i ==> #[trigger] key_of(d@, before.pages[j], spec_parent())
                == Some(ValueV::Reference(before.root)),
        decreases n - i,
    {
        let page = d.pages[i];
        assert(before.pages[i as int] == page as nat);
        let root = d.root;
        let ghost mid = d@;
        d.set_key(page, parent(), Value::Reference(root));
        proof {
            lemma_entries_change_keeps_contents(mid, d@, page as nat);
            lemma_contents_kept_trans(before, mid, d@);
            assert forall|j: int| 0 <= j < i + 1 implies #[trigger] key_of(d@, before.pages[j], spec_parent())
                == Some(ValueV::Reference(before.root)) by {
                if j < i {
                    assert(before.pages[j] != before.pages[i as int]);
                }
            }
            assert forall|m: nat, k2: Seq<u8>| !s.contains(m) implies #[trigger] key_of(d@, m, k2) == key_of(before, m, k2) by {
                assert(m != page);
            }
            assert(s.contains(page as nat));
        }
        i += 1;
    }
}

/// `after` is `before` with nothing changed but page-tree attributes: every object keeps its
/// kind, its stream data and its array items, and every key but `/Parent` and the inheritable
/// ones reads as it did.
pub open spec fn tree_attributes_only(before: DocumentV, after: DocumentV) -> bool {
    &&& contents_kept(before, after)
    &&& forall|n: nat, k: Seq<u8>| #![trigger key_of(after, n, k)] !is_inheritable(k) && k != spec_parent()
        ==> key_of(after, n, k) == key_of(before, n, k)
}

/// What flattening `before` gives `after`.
///
/// The pages, the root and the size of the object table are unchanged; every page's
/// `/Parent` is the root; the root carries none of the inheritable attributes and no
/// `/Parent` of its own; every inheritable attribute a page could read before it still
/// reads; a page that inherited a value now carries it, and a page that inherited nothing
/// carries what it carried.
pub open spec fn flattened(before: DocumentV, after: DocumentV) -> bool {
    &&& tree_attributes_only(before, after)
    &&& wf(after)
    &&& after.pages == before.pages
    &&& after.root == before.root
    &&& after.objects.len() == before.objects.len()
    &&& forall|i: int| 0 <= i < before.pages.len() ==> #[trigger] key_of(after, before.pages[i], spec_parent())
        == Some(ValueV::Reference(before.root))
    &&& forall|p: nat, key: Seq<u8>| #![trigger inherited(after, p, key)]
        before.pages.contains(p) && is_inheritable(key) && !(inherited(before, p, key) is Broken)
        ==> inherited(after, p, key) == inherited(before, p, key)
    &&& forall|key: Seq<u8>| is_inheritable(key) ==> #[trigger] key_of(after, before.root, key) is None
    &&& key_of(after, before.root, spec_parent()) is None
    &&& forall|p: nat, key: Seq<u8>| #![trigger key_of(after, p, key)]
        before.pages.contains(p) && is_inheritable(key) && (inherited(before, p, key) is Found)
        ==> key_of(after, p, key) == Some(inherited(before, p, key)->Found_0)
    &&& forall|p: nat, key: Seq<u8>| #![trigger key_of(after, p, key)]
        before.pages.contains(p) && is_inheritable(key) && !(inherited(before, p, key) is Found)
        ==> key_of(after, p, key) == key_of(before, p, key)
}

/// Flatten the page tree, keeping what every page inherits: see [`flattened`].
pub fn flatten(d: &mut Document)
    requires
        wf(old(d)@),
    ensures
        flattened(old(d)@, final(d)@),
{
    let ghost before = d@;
    let res_key = resources();
    let media_key = media_box();
    let crop_key = crop_box();
    let rot_key = rotate();
    let res_values = collect(d, &res_key);
    let media_values = collect(d, &media_key);
    let crop_values = collect(d, &crop_key);
    let rot_values = collect(d, &rot_key);
    let ghost rv = res_values@;
    let ghost mv = media_values@;
    let ghost cv = crop_values@;
    let ghost tv = rot_values@;
    apply(d, &res_key, res_values);
    let ghost d1 = d@;
    apply(d, &media_key, media_values);
    let ghost d2 = d@;
    apply(d, &crop_key, crop_values);
    let ghost d3 = d@;
    apply(d, &rot_key, rot_values);
    let ghost d4 = d@;
    adopt(d);
    let ghost d5 = d@;
    let root = d.root;
    d.remove_key(root, &res_key);
    let ghost e1 = d@;
    d.remove_key(root, &media_key);
    let ghost e2 = d@;
    d.remove_key(root, &crop_key);
    let ghost e3 = d@;
    d.remove_key(root, &rot_key);
    let ghost e4 = d@;
    d.remove_key(root, &parent());
    proof {
        lemma_contents_kept_trans(before, d1, d2);
        lemma_contents_kept_trans(before, d2, d3);
        lemma_contents_kept_trans(before, d3, d4);
        lemma_contents_kept_trans(before, d4, d5);
        lemma_entries_change_keeps_contents(d5, e1, root as nat);
        lemma_contents_kept_trans(before, d5, e1);
        lemma_entries_change_keeps_contents(e1, e2, root as nat);
        lemma_contents_kept_trans(before, e1, e2);
        lemma_entries_change_keeps_contents(e2, e3, root as nat);
        lemma_contents_kept_trans(before, e2, e3);
        lemma_entries_change_keeps_contents(e3, e4, root as nat);
        lemma_contents_kept_trans(before, e3, e4);
        lemma_entries_change_keeps_contents(e4, d@, root as nat);
        lemma_contents_kept_trans(before, e4, d@);
        assert forall|n: nat, k: Seq<u8>| #![trigger key_of(d@, n, k)] !is_inheritable(k) && k != spec_parent()
            implies key_of(d@, n, k) == key_of(before, n, k) by {
            assert(key_of(d1, n, k) == key_of(before, n, k));
            assert(key_of(d2, n, k) == key_of(d1, n, k));
            assert(key_of(d3, n, k) == key_of(d2, n, k));
            assert(key_of(d4, n, k) == key_of(d3, n, k));
            assert(key_of(d5, n, k) == key_of(d4, n, k));
            assert(key_of(e1, n, k) == key_of(d5, n, k));
            assert(key_of(e2, n, k) == key_of(e1, n, k));
            assert(key_of(e3, n, k) == key_of(e2, n, k));
            assert(key_of(e4, n, k) == key_of(e3, n, k));
        }
        assert(spec_resources() != spec_media_box()) by { assert(spec_resources()[0] != spec_media_box()[0]); }
        assert(spec_resources() != spec_crop_box()) by { assert(spec_resources()[0] != spec_crop_box()[0]); }
        assert(spec_resources() != spec_rotate()) by { assert(spec_resources()[1] != spec_rotate()[1]); }
        assert(spec_media_box() != spec_crop_box()) by { assert(spec_media_box()[0] != spec_crop_box()[0]); }
        assert(spec_media_box() != spec_rotate()) by { assert(spec_media_box()[0] != spec_rotate()[0]); }
        assert(spec_crop_box() != spec_rotate()) by { assert(spec_crop_box()[0] != spec_rotate()[0]); }
        assert forall|p: nat, key: Seq<u8>| #![trigger inherited(d@, p, key)]
            before.pages.contains(p) && is_inheritable(key) && !(inherited(before, p, key) is Broken)
            implies inherited(d@, p, key) == inherited(before, p, key) by {
            lemma_inheritable_is_not_parent(key);
            let i = choose|i: int| 0 <= i < before.pages.len() && before.pages[i] == p;
            assert(p != before.root);
            let vals = if key == spec_resources() { rv } else if key == spec_media_box() { mv } else if key == spec_crop_box() { cv } else { tv };
            assert(key_of(d@, p, key) == key_of(d5, p, key));
            assert(key_of(d5, p, key) == key_of(d4, p, key));
            assert(key_of(d4, p, key) == match vals[i] {
                Some(v) => Some(v@),
                None => key_of(before, p, key),
            });
            assert((match vals[i] {
                Some(v) => Some(v@),
                None => None::<ValueV>,
            }) == pushed(before, p, key));
            lemma_found_is_not_null(before, key_of(before, p, spec_parent()), key, 64);
            assert(key_of(d@, p, spec_parent()) == Some(ValueV::Reference(before.root)));
            assert(key_of(d@, before.root, key) is None);
            assert(key_of(d@, before.root, spec_parent()) is None);
            assert(d@.objects.len() == before.objects.len());
            assert(crate::graph::is_dictionary(d@.objects[before.root as int]));
            assert(climb(d@, key_of(d@, before.root, spec_parent()), key, 63) == Inherited::Absent);
        }
        assert forall|key: Seq<u8>| is_inheritable(key) implies #[trigger] key_of(d@, before.root, key) is None by {
            lemma_inheritable_is_not_parent(key);
        }
        assert forall|p: nat, key: Seq<u8>| #![trigger key_of(d@, p, key)]
            before.pages.contains(p) && is_inheritable(key) && (inherited(before, p, key) is Found)
            implies key_of(d@, p, key) == Some(inherited(before, p, key)->Found_0) by {
            lemma_inheritable_is_not_parent(key);
            let i = choose|i: int| 0 <= i < before.pages.len() && before.pages[i] == p;
            assert(p != before.root);
            let vals = if key == spec_resources() { rv } else if key == spec_media_box() { mv } else if key == spec_crop_box() { cv } else { tv };
            assert(key_of(d@, p, key) == key_of(d4, p, key));
            assert((match vals[i] {
                Some(v) => Some(v@),
                None => None::<ValueV>,
            }) == pushed(before, p, key));
        }
        assert forall|p: nat, key: Seq<u8>| #![trigger key_of(d@, p, key)]
            before.pages.contains(p) && is_inheritable(key) && !(inherited(before, p, key) is Found)
            implies key_of(d@, p, key) == key_of(before, p, key) by {
            lemma_inheritable_is_not_parent(key);
            let i = choose|i: int| 0 <= i < before.pages.len() && before.pages[i] == p;
            assert(p != before.root);
            let vals = if key == spec_resources() { rv } else if key == spec_media_box() { mv } else if key == spec_crop_box() { cv } else { tv };
            assert(key_of(d@, p, key) == key_of(d4, p, key));
            assert((match vals[i] {
                Some(v) => Some(v@),
                None => None::<ValueV>,
            }) == pushed(before, p, key));
        }
    }
}

/// A page's content survives a change of page-tree attributes alone: whatever stream its
/// `/Contents` names it still names, and that stream holds the same data.
pub proof fn lemma_pages_keep_their_content(before: DocumentV, after: DocumentV, p: nat, x: nat)
    requires
        tree_attributes_only(before, after),
        key_of(before, p, crate::names::spec_contents()) == Some(ValueV::Reference(x)),
        x < before.objects.len(),
        before.objects[x as int].body is Stream,
    ensures
        key_of(after, p, crate::names::spec_contents()) == Some(ValueV::Reference(x)),
        after.objects[x as int].body is Stream,
        after.objects[x as int].body->Stream_1 == before.objects[x as int].body->Stream_1,
{
    lemma_contents_is_not_a_tree_attribute();
    assert(crate::graph::kept_but_entries(after.objects[x as int], before.objects[x as int]));
}

/// `/Contents` is neither `/Parent` nor an inheritable attribute.
pub proof fn lemma_contents_is_not_a_tree_attribute()
    ensures
        !is_inheritable(crate::names::spec_contents()),
        crate::names::spec_contents() != spec_parent(),
{
    let c = crate::names::spec_contents();
    assert(c[0] != spec_resources()[0]);
    assert(c[0] != spec_media_box()[0]);
    assert(c[1] != spec_crop_box()[1]);
    assert(c[0] != spec_rotate()[0]);
    assert(c[0] != spec_parent()[0]);
}

} // verus!
