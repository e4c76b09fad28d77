//! Inheritable page attributes: a page that does not carry a key takes the nearest
//! ancestor's, following `/Parent` up the page tree.

use vstd::prelude::*;

use crate::graph::{
    copy_value, dictionary_target, opt_view, key_of, reads_null, same_kind, Document, DocumentV, Value,
    ValueV,
};
use crate::names::{parent, spec_parent};

verus! {

/// How far up the page tree a walk goes before refusing. A page tree this deep is either
/// absurd or a `/Parent` cycle.
pub const MAX_PAGE_TREE_DEPTH: u32 = 64u32;

/// What an inherited lookup found.
pub enum Inherited {
    /// The nearest value that does not read as `null`.
    Found(ValueV),
    /// No node up the tree carries the key.
    Absent,
    /// The walk met a `/Parent` that is not a page-tree node, or ran out of depth.
    Broken,
}

/// The walk above a page: `parent` is the `/Parent` value of the node below.
pub open spec fn climb(d: DocumentV, parent: Option<ValueV>, key: Seq<u8>, fuel: nat) -> Inherited
    decreases fuel,
{
    if fuel == 0 {
        Inherited::Broken
    } else if reads_null(d, parent) {
        Inherited::Absent
    } else {
        match dictionary_target(d, parent) {
            None => Inherited::Broken,
            Some(n) => {
                let v = key_of(d, n, key);
                if !reads_null(d, v) {
                    Inherited::Found(v.unwrap())
                } else {
                    climb(d, key_of(d, n, spec_parent()), key, (fuel - 1) as nat)
                }
            },
        }
    }
}

/// `key` as page `page` inherits it: its own value, else the nearest ancestor's.
pub open spec fn inherited(d: DocumentV, page: nat, key: Seq<u8>) -> Inherited {
    let own = key_of(d, page, key);
    if !reads_null(d, own) {
        Inherited::Found(own.unwrap())
    } else {
        climb(d, key_of(d, page, spec_parent()), key, MAX_PAGE_TREE_DEPTH as nat)
    }
}

/// Whether the walk above a page, to its full depth, never passes through a node in `s`.
pub open spec fn avoids(d: DocumentV, parent: Option<ValueV>, fuel: nat, s: Set<nat>) -> bool
    decreases fuel,
{
    if fuel == 0 || reads_null(d, parent) {
        true
    } else {
        match dictionary_target(d, parent) {
            None => true,
            Some(n) => !s.contains(n) && avoids(d, key_of(d, n, spec_parent()), (fuel - 1) as nat, s),
        }
    }
}

/// `after` differs from `before` only in the entries of the nodes in `s`.
pub open spec fn changed_only(before: DocumentV, after: DocumentV, s: Set<nat>) -> bool {
    &&& after.objects.len() == before.objects.len()
    &&& forall|n: int| 0 <= n < before.objects.len() ==> same_kind(#[trigger] after.objects[n], before.objects[n])
    &&& forall|n: nat, k: Seq<u8>| !s.contains(n) ==> #[trigger] key_of(after, n, k) == key_of(before, n, k)
}

/// A walk that passes through none of the changed nodes finds what it found before.
pub proof fn lemma_climb_frame(
    before: DocumentV,
    after: DocumentV,
    parent: Option<ValueV>,
    key: Seq<u8>,
    fuel: nat,
    s: Set<nat>,
)
    requires
        changed_only(before, after, s),
        avoids(before, parent, fuel, s),
    ensures
        climb(after, parent, key, fuel) == climb(before, parent, key, fuel),
        avoids(after, parent, fuel, s),
    decreases fuel,
{
    if fuel > 0 && !reads_null(before, parent) {
        match dictionary_target(before, parent) {
            None => {},
            Some(n) => {
                assert(same_kind(after.objects[n as int], before.objects[n as int]));
                assert(key_of(after, n, key) == key_of(before, n, key));
                assert(key_of(after, n, spec_parent()) == key_of(before, n, spec_parent()));
                lemma_climb_frame(before, after, key_of(before, n, spec_parent()), key, (fuel - 1) as nat, s);
            },
        }
    }
}

/// A walk reads only the object table.
pub proof fn lemma_climb_reads_objects(a: DocumentV, b: DocumentV, parent: Option<ValueV>, key: Seq<u8>, fuel: nat)
    requires
        a.objects == b.objects,
    ensures
        climb(a, parent, key, fuel) == climb(b, parent, key, fuel),
    decreases fuel,
{
    if fuel > 0 && !reads_null(a, parent) {
        match dictionary_target(a, parent) {
            None => {},
            Some(n) => {
                lemma_climb_reads_objects(a, b, key_of(a, n, spec_parent()), key, (fuel - 1) as nat);
            },
        }
    }
}

/// An inherited lookup reads only the object table: reordering the page list leaves what
/// every page inherits alone.
pub proof fn lemma_inherited_reads_objects(a: DocumentV, b: DocumentV, page: nat, key: Seq<u8>)
    requires
        a.objects == b.objects,
    ensures
        inherited(a, page, key) == inherited(b, page, key),
{
    lemma_climb_reads_objects(a, b, key_of(a, page, spec_parent()), key, MAX_PAGE_TREE_DEPTH as nat);
}

/// What an inherited lookup found, as an executable value.
pub enum Lookup {
    /// A copy of the nearest value that does not read as `null`.
    Found(Value),
    /// No node up the tree carries the key.
    Absent,
    /// The walk met a `/Parent` that is not a page-tree node, or ran out of depth.
    Broken,
}

/// The mathematical value of a lookup.
pub open spec fn lookup_view(l: Lookup) -> Inherited {
    match l {
        Lookup::Found(v) => Inherited::Found(v@),
        Lookup::Absent => Inherited::Absent,
        Lookup::Broken => Inherited::Broken,
    }
}

/// Look `key` up on page `page`, climbing `/Parent` when the page does not carry it.
pub fn inherited_value(d: &Document, page: usize, key: &[u8]) -> (r: Lookup)
    ensures
        lookup_view(r) == inherited(d@, page as nat, key@),
{
    let own = d.get(page, key);
    if !d.reads_null(own) {
        return Lookup::Found(copy_value(own.unwrap()));
    }
    let parent_key = parent();
    let mut current = d.get(page, &parent_key);
    let mut fuel: u32 = MAX_PAGE_TREE_DEPTH;
    let ghost goal = inherited(d@, page as nat, key@);
    while fuel > 0
        invariant
            fuel <= MAX_PAGE_TREE_DEPTH,
            parent_key@ == spec_parent(),
            climb(d@, opt_view(current), key@, fuel as nat) == goal,
            goal == inherited(d@, page as nat, key@),
        decreases fuel,
    {
        if d.reads_null(current) {
            return Lookup::Absent;
        }
        match d.dictionary_target(current) {
            None => {
                return Lookup::Broken;
            },
            Some(n) => {
                let v = d.get(n, key);
                if !d.reads_null(v) {
                    return Lookup::Found(copy_value(v.unwrap()));
                }
                current = d.get(n, &parent_key);
            },
        }
        fuel -= 1;
    }
    Lookup::Broken
}

} // verus!
