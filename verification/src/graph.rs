//! A PDF document held as plain values: a table of objects, the page list, and the root of
//! the page tree.
//!
//! Every dictionary, array and stream is an object in the table, reached by a
//! [`Value::Reference`] to its index. An object written inline in the file is still an object
//! here, marked `direct`: it has no identity of its own and cannot be shared.

use vstd::prelude::*;

verus! {

/// A scalar PDF value, or a reference to an object in the table.
#[derive(Debug, Clone)]
pub enum Value {
    /// `null`, and what an absent key or a dangling reference reads as.
    Null,
    /// `true` or `false`.
    Boolean(bool),
    /// An integer.
    Integer(i64),
    /// A name, without its leading `/`.
    Name(Vec<u8>),
    /// A string's bytes.
    Text(Vec<u8>),
    /// The object at this index in the document's table.
    Reference(usize),
}

/// One dictionary entry: a key, without its leading `/`, and its value.
#[derive(Debug, Clone)]
pub struct Entry {
    /// The key.
    pub key: Vec<u8>,
    /// The value.
    pub value: Value,
}

/// What an object is.
#[derive(Debug, Clone)]
pub enum Body {
    /// A dictionary.
    Dictionary(Vec<Entry>),
    /// An array.
    Array(Vec<Value>),
    /// A stream: its dictionary and its decoded data.
    Stream(Vec<Entry>, Vec<u8>),
}

/// One object in the table.
#[derive(Debug, Clone)]
pub struct Object {
    /// Written inline in the file rather than as an indirect object: it belongs to whatever
    /// holds it and cannot be shared.
    pub direct: bool,
    /// The object itself.
    pub body: Body,
}

/// A document: its objects, its pages in order, and the root of its page tree.
#[derive(Debug, Clone)]
pub struct Document {
    /// Every object, by index.
    pub objects: Vec<Object>,
    /// The page dictionaries, in page order, by index into `objects`.
    pub pages: Vec<usize>,
    /// The root `/Pages` node, by index into `objects`.
    pub root: usize,
}

/// The mathematical value of a [`Value`].
pub enum ValueV {
    Null,
    Boolean(bool),
    Integer(int),
    Name(Seq<u8>),
    Text(Seq<u8>),
    Reference(nat),
}

/// The mathematical value of a [`Body`].
pub enum BodyV {
    Dictionary(Seq<(Seq<u8>, ValueV)>),
    Array(Seq<ValueV>),
    Stream(Seq<(Seq<u8>, ValueV)>, Seq<u8>),
}

/// The mathematical value of an [`Object`].
pub struct ObjectV {
    pub direct: bool,
    pub body: BodyV,
}

/// The mathematical value of a [`Document`].
pub struct DocumentV {
    pub objects: Seq<ObjectV>,
    pub pages: Seq<nat>,
    pub root: nat,
}

impl View for Value {
    type V = ValueV;

    open spec fn view(&self) -> ValueV {
        match self {
            Value::Null => ValueV::Null,
            Value::Boolean(b) => ValueV::Boolean(*b),
            Value::Integer(n) => ValueV::Integer(*n as int),
            Value::Name(n) => ValueV::Name(n@),
            Value::Text(t) => ValueV::Text(t@),
            Value::Reference(i) => ValueV::Reference(*i as nat),
        }
    }
}

impl View for Entry {
    type V = (Seq<u8>, ValueV);

    open spec fn view(&self) -> (Seq<u8>, ValueV) {
        (self.key@, self.value@)
    }
}

/// The entries of a vector, as values.
pub open spec fn entries_view(entries: Seq<Entry>) -> Seq<(Seq<u8>, ValueV)> {
    entries.map_values(|e: Entry| e@)
}

/// The values of a vector, as values.
pub open spec fn values_view(values: Seq<Value>) -> Seq<ValueV> {
    values.map_values(|v: Value| v@)
}

impl View for Body {
    type V = BodyV;

    open spec fn view(&self) -> BodyV {
        match self {
            Body::Dictionary(e) => BodyV::Dictionary(entries_view(e@)),
            Body::Array(a) => BodyV::Array(values_view(a@)),
            Body::Stream(e, data) => BodyV::Stream(entries_view(e@), data@),
        }
    }
}

impl View for Object {
    type V = ObjectV;

    open spec fn view(&self) -> ObjectV {
        ObjectV { direct: self.direct, body: self.body@ }
    }
}

impl View for Document {
    type V = DocumentV;

    open spec fn view(&self) -> DocumentV {
        DocumentV {
            objects: self.objects@.map_values(|o: Object| o@),
            pages: self.pages@.map_values(|p: usize| p as nat),
            root: self.root as nat,
        }
    }
}

/// The value of the first entry whose key is `key`.
pub open spec fn dict_get(entries: Seq<(Seq<u8>, ValueV)>, key: Seq<u8>) -> Option<ValueV>
    decreases entries.len(),
{
    if entries.len() == 0 {
        None
    } else if entries[0].0 == key {
        Some(entries[0].1)
    } else {
        dict_get(entries.drop_first(), key)
    }
}

/// The entries with every one keyed `key` taken out, in order.
pub open spec fn without(entries: Seq<(Seq<u8>, ValueV)>, key: Seq<u8>) -> Seq<(Seq<u8>, ValueV)>
    decreases entries.len(),
{
    if entries.len() == 0 {
        entries
    } else if entries[0].0 == key {
        without(entries.drop_first(), key)
    } else {
        seq![entries[0]] + without(entries.drop_first(), key)
    }
}

/// A dictionary's or a stream dictionary's entries; nothing for an array.
pub open spec fn entries_of(o: ObjectV) -> Seq<(Seq<u8>, ValueV)> {
    match o.body {
        BodyV::Dictionary(e) => e,
        BodyV::Stream(e, _) => e,
        BodyV::Array(_) => Seq::empty(),
    }
}

/// Whether the object is a dictionary.
pub open spec fn is_dictionary(o: ObjectV) -> bool {
    o.body is Dictionary
}

/// The value `node`'s dictionary has under `key`, if it is an object with one.
pub open spec fn key_of(d: DocumentV, node: nat, key: Seq<u8>) -> Option<ValueV> {
    if node < d.objects.len() {
        dict_get(entries_of(d.objects[node as int]), key)
    } else {
        None
    }
}

/// Whether a value reads as `null`: absent, `null`, or a reference to nothing.
pub open spec fn reads_null(d: DocumentV, v: Option<ValueV>) -> bool {
    match v {
        None => true,
        Some(ValueV::Null) => true,
        Some(ValueV::Reference(i)) => i >= d.objects.len(),
        Some(_) => false,
    }
}

/// The object a value refers to, when it refers to one.
pub open spec fn target(d: DocumentV, v: Option<ValueV>) -> Option<nat> {
    match v {
        Some(ValueV::Reference(i)) => if i < d.objects.len() { Some(i) } else { None },
        _ => None,
    }
}

/// The dictionary a value refers to, when it refers to one.
pub open spec fn dictionary_target(d: DocumentV, v: Option<ValueV>) -> Option<nat> {
    match target(d, v) {
        Some(i) => if is_dictionary(d.objects[i as int]) { Some(i) } else { None },
        None => None,
    }
}

/// A well-formed document: the root and every page are dictionaries, no page is the root,
/// and no page appears twice.
pub open spec fn wf(d: DocumentV) -> bool {
    &&& d.root < d.objects.len()
    &&& is_dictionary(d.objects[d.root as int])
    &&& forall|i: int| 0 <= i < d.pages.len() ==> #[trigger] d.pages[i] < d.objects.len()
    &&& forall|i: int| 0 <= i < d.pages.len() ==> is_dictionary(d.objects[#[trigger] d.pages[i] as int])
    &&& forall|i: int| 0 <= i < d.pages.len() ==> #[trigger] d.pages[i] != d.root
    &&& forall|i: int, j: int|
        0 <= i < d.pages.len() && 0 <= j < d.pages.len() && i != j ==> #[trigger] d.pages[i]
            != #[trigger] d.pages[j]
}

/// One step of `dict_get` from position `i`.
pub proof fn lemma_get_step(s: Seq<(Seq<u8>, ValueV)>, i: int, key: Seq<u8>)
    requires
        0 <= i < s.len(),
    ensures
        dict_get(s.skip(i), key) == if s[i].0 == key { Some(s[i].1) } else { dict_get(s.skip(i + 1), key) },
{
    assert(s.skip(i).drop_first() =~= s.skip(i + 1));
}

/// Pushing an entry changes only an absent key.
pub proof fn lemma_get_push(s: Seq<(Seq<u8>, ValueV)>, e: (Seq<u8>, ValueV), key: Seq<u8>)
    ensures
        dict_get(s.push(e), key) == match dict_get(s, key) {
            Some(v) => Some(v),
            None => if e.0 == key { Some(e.1) } else { None },
        },
    decreases s.len(),
{
    assert(s.push(e).len() > 0);
    if s.len() == 0 {
        assert(s.push(e)[0] == e);
        assert(s.push(e).drop_first() =~= Seq::<(Seq<u8>, ValueV)>::empty());
        assert(dict_get(s.push(e).drop_first(), key) is None);
    } else {
        assert(s.push(e)[0] == s[0]);
        assert(s.push(e).drop_first() =~= s.drop_first().push(e));
        lemma_get_push(s.drop_first(), e, key);
    }
}

/// Replacing the entry at `i` by one with the same key changes only what that key reads as,
/// and only when `i` is where it is first found.
pub proof fn lemma_get_update(s: Seq<(Seq<u8>, ValueV)>, i: int, e: (Seq<u8>, ValueV), key: Seq<u8>)
    requires
        0 <= i < s.len(),
        s[i].0 == e.0,
        forall|j: int| 0 <= j < i ==> s[j].0 != e.0,
    ensures
        dict_get(s.update(i, e), key) == if key == e.0 { Some(e.1) } else { dict_get(s, key) },
    decreases s.len(),
{
    if i == 0 {
        assert(s.update(i, e).drop_first() =~= s.drop_first());
    } else {
        assert(s.update(i, e).drop_first() =~= s.drop_first().update(i - 1, e));
        lemma_get_update(s.drop_first(), i - 1, e, key);
    }
}

/// Taking out every entry keyed `key` makes it absent and leaves every other key alone.
pub proof fn lemma_get_without(s: Seq<(Seq<u8>, ValueV)>, key: Seq<u8>, other: Seq<u8>)
    ensures
        dict_get(without(s, key), other) == if other == key { None } else { dict_get(s, other) },
    decreases s.len(),
{
    if s.len() > 0 {
        lemma_get_without(s.drop_first(), key, other);
        if s[0].0 != key {
            let w = seq![s[0]] + without(s.drop_first(), key);
            assert(w.drop_first() =~= without(s.drop_first(), key));
        }
    }
}

/// `without` over a pushed entry.
pub proof fn lemma_without_push(s: Seq<(Seq<u8>, ValueV)>, e: (Seq<u8>, ValueV), key: Seq<u8>)
    ensures
        without(s.push(e), key) == if e.0 == key { without(s, key) } else { without(s, key).push(e) },
    decreases s.len(),
{
    if s.len() == 0 {
        assert(s.push(e).drop_first() =~= s);
        if e.0 != key {
            assert(seq![e] + without(s, key) =~= without(s, key).push(e));
        }
    } else {
        assert(s.push(e).drop_first() =~= s.drop_first().push(e));
        lemma_without_push(s.drop_first(), e, key);
        if s[0].0 != key && e.0 != key {
            assert(seq![s[0]] + without(s.drop_first(), key).push(e) =~= (seq![s[0]] + without(s.drop_first(), key)).push(e));
        }
    }
}

/// Whether two names are the same bytes.
pub fn same_name(a: &[u8], b: &[u8]) -> (r: bool)
    ensures
        r == (a@ == b@),
{
    if a.len() != b.len() {
        return false;
    }
    let mut i: usize = 0;
    while i < a.len()
        invariant
            a.len() == b.len(),
            i <= a.len(),
            forall|j: int| 0 <= j < i ==> a@[j] == b@[j],
        decreases a.len() - i,
    {
        if a[i] != b[i] {
            return false;
        }
        i += 1;
    }
    assert(a@ =~= b@);
    true
}

/// A copy of a value.
pub fn copy_value(v: &Value) -> (r: Value)
    ensures
        r@ == v@,
{
    match v {
        Value::Null => Value::Null,
        Value::Boolean(b) => Value::Boolean(*b),
        Value::Integer(n) => Value::Integer(*n),
        Value::Name(n) => {
            let c = n.clone();
            assert(c@ =~= n@);
            Value::Name(c)
        },
        Value::Text(t) => {
            let c = t.clone();
            assert(c@ =~= t@);
            Value::Text(c)
        },
        Value::Reference(i) => Value::Reference(*i),
    }
}

/// A copy of a name.
pub fn copy_name(n: &[u8]) -> (r: Vec<u8>)
    ensures
        r@ == n@,
{
    let mut r: Vec<u8> = Vec::new();
    let mut i: usize = 0;
    while i < n.len()
        invariant
            i <= n.len(),
            r@ == n@.take(i as int),
        decreases n.len() - i,
    {
        r.push(n[i]);
        i += 1;
        assert(r@ =~= n@.take(i as int));
    }
    assert(n@.take(n.len() as int) =~= n@);
    r
}

/// Where `key` is first found in `entries`.
pub fn find_entry(entries: &Vec<Entry>, key: &[u8]) -> (r: Option<usize>)
    ensures
        match r {
            Some(i) => i < entries@.len() && entries@[i as int].key@ == key@ && forall|j: int|
                0 <= j < i ==> entries@[j].key@ != key@,
            None => forall|j: int| 0 <= j < entries@.len() ==> entries@[j].key@ != key@,
        },
        dict_get(entries_view(entries@), key@) == match r {
            Some(i) => Some(entries@[i as int].value@),
            None => None::<ValueV>,
        },
{
    let ghost s = entries_view(entries@);
    let mut i: usize = 0;
    assert(s.skip(0) =~= s);
    while i < entries.len()
        invariant
            i <= entries@.len(),
            s == entries_view(entries@),
            forall|j: int| 0 <= j < i ==> entries@[j].key@ != key@,
            dict_get(s, key@) == dict_get(s.skip(i as int), key@),
        decreases entries.len() - i,
    {
        proof {
            lemma_get_step(s, i as int, key@);
        }
        if same_name(&entries[i].key, key) {
            return Some(i);
        }
        i += 1;
    }
    assert(s.skip(i as int).len() == 0);
    None
}

/// Set `key` to `value` in `entries`, replacing the first entry with that key or adding one.
pub fn set_entry(entries: &mut Vec<Entry>, key: Vec<u8>, value: Value)
    ensures
        forall|k: Seq<u8>| #[trigger] dict_get(entries_view(final(entries)@), k) == if k == key@ {
            Some(value@)
        } else {
            dict_get(entries_view(old(entries)@), k)
        },
{
    let ghost s = entries_view(entries@);
    let found = find_entry(entries, &key);
    let ghost e = (key@, value@);
    match found {
        Some(i) => {
            entries.set(i, Entry { key, value });
            proof {
                assert(entries_view(entries@) =~= s.update(i as int, e));
                assert forall|k: Seq<u8>| #[trigger] dict_get(entries_view(entries@), k) == if k == e.0 {
                    Some(e.1)
                } else {
                    dict_get(s, k)
                } by {
                    lemma_get_update(s, i as int, e, k);
                }
            }
        },
        None => {
            entries.push(Entry { key, value });
            proof {
                assert(entries_view(entries@) =~= s.push(e));
                assert forall|k: Seq<u8>| #[trigger] dict_get(entries_view(entries@), k) == if k == e.0 {
                    Some(e.1)
                } else {
                    dict_get(s, k)
                } by {
                    lemma_get_push(s, e, k);
                    if k == e.0 {
                        assert(dict_get(s, k) is None);
                    }
                }
            }
        },
    }
}

/// `entries` with every entry keyed `key` taken out.
pub fn entries_without(entries: &Vec<Entry>, key: &[u8]) -> (r: Vec<Entry>)
    ensures
        entries_view(r@) == without(entries_view(entries@), key@),
{
    let ghost s = entries_view(entries@);
    let mut r: Vec<Entry> = Vec::new();
    let mut i: usize = 0;
    while i < entries.len()
        invariant
            i <= entries@.len(),
            s == entries_view(entries@),
            entries_view(r@) == without(s.take(i as int), key@),
        decreases entries.len() - i,
    {
        proof {
            assert(s.take(i as int + 1) =~= s.take(i as int).push(s[i as int]));
            lemma_without_push(s.take(i as int), s[i as int], key@);
        }
        if !same_name(&entries[i].key, key) {
            let k = copy_name(&entries[i].key);
            let v = copy_value(&entries[i].value);
            r.push(Entry { key: k, value: v });
            assert(entries_view(r@) =~= without(s.take(i as int), key@).push(s[i as int]));
        }
        i += 1;
    }
    assert(s.take(entries@.len() as int) =~= s);
    r
}


/// An optional reference to a value, as a value.
pub open spec fn opt_view(v: Option<&Value>) -> Option<ValueV> {
    match v {
        Some(x) => Some(x@),
        None => None,
    }
}

/// Whether two objects are the same kind: dictionary, array or stream.
pub open spec fn same_kind(a: ObjectV, b: ObjectV) -> bool {
    &&& (a.body is Dictionary <==> b.body is Dictionary)
    &&& (a.body is Array <==> b.body is Array)
    &&& (a.body is Stream <==> b.body is Stream)
}

/// `after` is `before` with only object `node`'s entries changed, as `rel` says.
pub open spec fn only_entries_changed(before: DocumentV, after: DocumentV, node: nat) -> bool {
    &&& after.objects.len() == before.objects.len()
    &&& after.pages == before.pages
    &&& after.root == before.root
    &&& forall|n: int| 0 <= n < before.objects.len() && n != node ==> #[trigger] after.objects[n] == before.objects[n]
    &&& node < before.objects.len() ==> {
        &&& after.objects[node as int].direct == before.objects[node as int].direct
        &&& same_kind(after.objects[node as int], before.objects[node as int])
        &&& (before.objects[node as int].body is Array ==> after.objects[node as int] == before.objects[node as int])
        &&& (before.objects[node as int].body is Stream ==> after.objects[node as int].body->Stream_1
            == before.objects[node as int].body->Stream_1)
    }
}

/// Object `a` is object `b` but for its dictionary entries: the same kind, the same `direct`
/// flag, the same stream data, and the same array items.
pub open spec fn kept_but_entries(a: ObjectV, b: ObjectV) -> bool {
    &&& a.direct == b.direct
    &&& same_kind(a, b)
    &&& (b.body is Stream ==> a.body->Stream_1 == b.body->Stream_1)
    &&& (b.body is Array ==> a == b)
}

/// `after` has `before`'s objects, each changed in its dictionary entries at most.
pub open spec fn contents_kept(before: DocumentV, after: DocumentV) -> bool {
    &&& after.objects.len() == before.objects.len()
    &&& forall|n: int| 0 <= n < before.objects.len() ==> kept_but_entries(#[trigger] after.objects[n], before.objects[n])
}

/// Changing one object's entries keeps every object's contents.
pub proof fn lemma_entries_change_keeps_contents(before: DocumentV, after: DocumentV, node: nat)
    requires
        only_entries_changed(before, after, node),
    ensures
        contents_kept(before, after),
{
}

/// Keeping contents twice over keeps them.
pub proof fn lemma_contents_kept_trans(a: DocumentV, b: DocumentV, c: DocumentV)
    requires
        contents_kept(a, b),
        contents_kept(b, c),
    ensures
        contents_kept(a, c),
{
    assert forall|n: int| 0 <= n < a.objects.len() implies kept_but_entries(#[trigger] c.objects[n], a.objects[n]) by {
        assert(kept_but_entries(b.objects[n], a.objects[n]));
        assert(kept_but_entries(c.objects[n], b.objects[n]));
    }
}

/// What a key reads is an entry that carries it.
pub proof fn lemma_get_is_entry(es: Seq<(Seq<u8>, ValueV)>, key: Seq<u8>)
    requires
        dict_get(es, key) is Some,
    ensures
        exists|i: int| 0 <= i < es.len() && #[trigger] es[i] == (key, dict_get(es, key)->0),
    decreases es.len(),
{
    if es[0].0 != key {
        lemma_get_is_entry(es.drop_first(), key);
        let i = choose|i: int| 0 <= i < es.drop_first().len() && #[trigger] es.drop_first()[i] == (key, dict_get(es, key)->0);
        assert(es[i + 1] == es.drop_first()[i]);
    } else {
        assert(es[0] == (key, dict_get(es, key)->0));
    }
}

/// `d` with stream `node`'s data replaced by `data`, stored without a filter: its `/Filter`
/// and `/DecodeParms` are taken out. Any other object is left as it is.
pub open spec fn with_stream_data(d: DocumentV, node: nat, data: Seq<u8>) -> DocumentV {
    match d.objects[node as int].body {
        BodyV::Stream(e, _) => DocumentV {
            objects: d.objects.update(node as int, ObjectV {
                direct: d.objects[node as int].direct,
                body: BodyV::Stream(
                    without(without(e, crate::names::spec_filter()), crate::names::spec_decode_parms()),
                    data,
                ),
            }),
            pages: d.pages,
            root: d.root,
        },
        _ => d,
    }
}

/// The array a value refers to, when it refers to one.
pub open spec fn array_target(d: DocumentV, v: Option<ValueV>) -> Option<nat> {
    match target(d, v) {
        Some(i) => if d.objects[i as int].body is Array { Some(i) } else { None },
        None => None,
    }
}

/// The items of array `node`; nothing for any other object.
pub open spec fn array_items(d: DocumentV, node: nat) -> Seq<ValueV> {
    match d.objects[node as int].body {
        BodyV::Array(vs) => vs,
        _ => Seq::empty(),
    }
}

/// `d` with object `node` made the array `items`, keeping whether it was direct.
pub open spec fn with_array(d: DocumentV, node: nat, items: Seq<ValueV>) -> DocumentV {
    DocumentV {
        objects: d.objects.update(node as int, ObjectV { direct: d.objects[node as int].direct, body: BodyV::Array(items) }),
        pages: d.pages,
        root: d.root,
    }
}

/// A copy of a vector of values.
pub fn copy_values(vs: &Vec<Value>) -> (r: Vec<Value>)
    ensures
        values_view(r@) == values_view(vs@),
{
    let mut r: Vec<Value> = Vec::new();
    let mut i: usize = 0;
    while i < vs.len()
        invariant
            i <= vs@.len(),
            values_view(r@) == values_view(vs@).take(i as int),
        decreases vs.len() - i,
    {
        let ghost prev = r@;
        let v = copy_value(&vs[i]);
        r.push(v);
        assert(values_view(r@) =~= values_view(prev).push(v@));
        i += 1;
        assert(values_view(r@) =~= values_view(vs@).take(i as int));
    }
    assert(values_view(vs@).take(vs@.len() as int) =~= values_view(vs@));
    r
}

/// A copy of a vector of entries.
pub fn copy_entries(es: &Vec<Entry>) -> (r: Vec<Entry>)
    ensures
        entries_view(r@) == entries_view(es@),
{
    let mut r: Vec<Entry> = Vec::new();
    let mut i: usize = 0;
    while i < es.len()
        invariant
            i <= es@.len(),
            entries_view(r@) == entries_view(es@).take(i as int),
        decreases es.len() - i,
    {
        let ghost prev = r@;
        let e = Entry { key: copy_name(&es[i].key), value: copy_value(&es[i].value) };
        r.push(e);
        assert(entries_view(r@) =~= entries_view(prev).push(e@));
        i += 1;
        assert(entries_view(r@) =~= entries_view(es@).take(i as int));
    }
    assert(entries_view(es@).take(es@.len() as int) =~= entries_view(es@));
    r
}

/// A copy of an object.
pub fn copy_object(o: &Object) -> (r: Object)
    ensures
        r@ == o@,
{
    let body = match &o.body {
        Body::Dictionary(es) => Body::Dictionary(copy_entries(es)),
        Body::Array(vs) => Body::Array(copy_values(vs)),
        Body::Stream(es, data) => {
            let copy = data.clone();
            assert(copy@ =~= data@);
            Body::Stream(copy_entries(es), copy)
        },
    };
    Object { direct: o.direct, body }
}

impl Document {
    /// The value `node`'s dictionary has under `key`.
    pub fn get(&self, node: usize, key: &[u8]) -> (r: Option<&Value>)
        ensures
            opt_view(r) == key_of(self@, node as nat, key@),
    {
        if node >= self.objects.len() {
            return None;
        }
        let entries = match &self.objects[node].body {
            Body::Dictionary(e) => e,
            Body::Stream(e, _) => e,
            Body::Array(_) => {
                return None;
            },
        };
        assert(entries_view(entries@) == entries_of(self@.objects[node as int]));
        match find_entry(entries, key) {
            Some(i) => Some(&entries[i].value),
            None => None,
        }
    }

    /// Whether `v` reads as `null`.
    pub fn reads_null(&self, v: Option<&Value>) -> (r: bool)
        ensures
            r == reads_null(self@, opt_view(v)),
    {
        match v {
            None => true,
            Some(Value::Null) => true,
            Some(Value::Reference(i)) => *i >= self.objects.len(),
            Some(_) => false,
        }
    }

    /// The dictionary `v` refers to, when it refers to one.
    pub fn dictionary_target(&self, v: Option<&Value>) -> (r: Option<usize>)
        ensures
            r == match dictionary_target(self@, opt_view(v)) {
                Some(i) => Some(i as usize),
                None => None::<usize>,
            },
            r is Some ==> r->0 < self@.objects.len(),
    {
        match v {
            Some(Value::Reference(i)) => {
                if *i < self.objects.len() {
                    match &self.objects[*i].body {
                        Body::Dictionary(_) => Some(*i),
                        _ => None,
                    }
                } else {
                    None
                }
            },
            _ => None,
        }
    }

    /// The object `v` refers to, when it refers to one.
    pub fn target(&self, v: Option<&Value>) -> (r: Option<usize>)
        ensures
            r == match target(self@, opt_view(v)) {
                Some(i) => Some(i as usize),
                None => None::<usize>,
            },
    {
        match v {
            Some(Value::Reference(i)) => if *i < self.objects.len() { Some(*i) } else { None },
            _ => None,
        }
    }

    /// The array `v` refers to, when it refers to one.
    pub fn array_target(&self, v: Option<&Value>) -> (r: Option<usize>)
        ensures
            r == match array_target(self@, opt_view(v)) {
                Some(i) => Some(i as usize),
                None => None::<usize>,
            },
            r is Some ==> r->0 < self@.objects.len(),
    {
        match v {
            Some(Value::Reference(i)) => {
                if *i < self.objects.len() {
                    match &self.objects[*i].body {
                        Body::Array(_) => Some(*i),
                        _ => None,
                    }
                } else {
                    None
                }
            },
            _ => None,
        }
    }

    /// A copy of the items of array `node`.
    pub fn array_items(&self, node: usize) -> (r: Vec<Value>)
        requires
            node < self@.objects.len(),
        ensures
            values_view(r@) == array_items(self@, node as nat),
    {
        match &self.objects[node].body {
            Body::Array(vs) => copy_values(vs),
            _ => Vec::new(),
        }
    }

    /// Make object `node` the array `items`.
    pub fn set_array(&mut self, node: usize, items: Vec<Value>)
        requires
            node < old(self)@.objects.len(),
        ensures
            final(self)@ == with_array(old(self)@, node as nat, values_view(items@)),
    {
        let ghost before = self@;
        let obj = self.objects.remove(node);
        let direct = obj.direct;
        self.objects.insert(node, Object { direct, body: Body::Array(items) });
        proof {
            assert(self@.objects =~= with_array(before, node as nat, values_view(items@)).objects);
        }
    }

    /// Replace stream `node`'s data with `data`, stored without a filter.
    pub fn replace_stream_data(&mut self, node: usize, data: Vec<u8>)
        requires
            node < old(self)@.objects.len(),
        ensures
            final(self)@ == with_stream_data(old(self)@, node as nat, data@),
    {
        let ghost before = self@;
        let filter_key = crate::names::filter();
        let parms_key = crate::names::decode_parms();
        let obj = self.objects.remove(node);
        let Object { direct, body } = obj;
        let body = match body {
            Body::Stream(e, _) => Body::Stream(entries_without(&entries_without(&e, &filter_key), &parms_key), data),
            other => other,
        };
        self.objects.insert(node, Object { direct, body });
        proof {
            assert(self@.objects =~= with_stream_data(before, node as nat, data@).objects);
        }
    }

    /// Set `key` to `value` in object `node`'s dictionary; an array is left alone.
    pub fn set_key(&mut self, node: usize, key: Vec<u8>, value: Value)
        requires
            node < old(self)@.objects.len(),
        ensures
            only_entries_changed(old(self)@, final(self)@, node as nat),
            forall|k: Seq<u8>| #[trigger] key_of(final(self)@, node as nat, k) == if k == key@ && !(old(self)@.objects[node as int].body is Array) {
                Some(value@)
            } else {
                key_of(old(self)@, node as nat, k)
            },
            forall|n: nat, k: Seq<u8>| n != node ==> #[trigger] key_of(final(self)@, n, k) == key_of(old(self)@, n, k),
    {
        let ghost before = self@;
        let ghost kv = key@;
        let ghost vv = value@;
        let obj = self.objects.remove(node);
        let Object { direct, body } = obj;
        let body = match body {
            Body::Dictionary(mut e) => {
                set_entry(&mut e, key, value);
                Body::Dictionary(e)
            },
            Body::Stream(mut e, data) => {
                set_entry(&mut e, key, value);
                Body::Stream(e, data)
            },
            Body::Array(a) => Body::Array(a),
        };
        let ghost changed = Object { direct, body }@;
        self.objects.insert(node, Object { direct, body });
        proof {
            assert(self@.objects =~= before.objects.update(node as int, changed));
        }
    }

    /// Take every entry keyed `key` out of object `node`'s dictionary; an array is left alone.
    pub fn remove_key(&mut self, node: usize, key: &[u8])
        requires
            node < old(self)@.objects.len(),
        ensures
            only_entries_changed(old(self)@, final(self)@, node as nat),
            forall|k: Seq<u8>| #[trigger] key_of(final(self)@, node as nat, k) == if k == key@ {
                None
            } else {
                key_of(old(self)@, node as nat, k)
            },
            forall|n: nat, k: Seq<u8>| n != node ==> #[trigger] key_of(final(self)@, n, k) == key_of(old(self)@, n, k),
    {
        let ghost before = self@;
        let obj = self.objects.remove(node);
        let Object { direct, body } = obj;
        let ghost olde = entries_of(Object { direct, body }@);
        let body = match body {
            Body::Dictionary(e) => Body::Dictionary(entries_without(&e, key)),
            Body::Stream(e, data) => Body::Stream(entries_without(&e, key), data),
            Body::Array(a) => Body::Array(a),
        };
        let ghost changed = Object { direct, body }@;
        self.objects.insert(node, Object { direct, body });
        proof {
            assert(self@.objects =~= before.objects.update(node as int, changed));
            assert forall|k: Seq<u8>| #[trigger] key_of(self@, node as nat, k) == if k == key@ {
                None
            } else {
                key_of(before, node as nat, k)
            } by {
                lemma_get_without(olde, key@, k);
            }
        }
    }

    /// Add an object at the end of the table, returning its index.
    pub fn push_object(&mut self, object: Object) -> (i: usize)
        requires
            old(self)@.objects.len() < usize::MAX,
        ensures
            i == old(self)@.objects.len(),
            final(self)@.objects == old(self)@.objects.push(object@),
            final(self)@.pages == old(self)@.pages,
            final(self)@.root == old(self)@.root,
    {
        let i = self.objects.len();
        let ghost before = self@;
        self.objects.push(object);
        proof {
            assert(self@.objects =~= before.objects.push(object@));
        }
        i
    }

    /// Add a page at the end of the page list.
    pub fn push_page(&mut self, page: usize)
        ensures
            final(self)@.objects == old(self)@.objects,
            final(self)@.pages == old(self)@.pages.push(page as nat),
            final(self)@.root == old(self)@.root,
    {
        let ghost before = self@;
        self.pages.push(page);
        proof {
            assert(self@.pages =~= before.pages.push(page as nat));
        }
    }

    /// A copy of the document.
    pub fn duplicate(&self) -> (r: Document)
        ensures
            r@ == self@,
    {
        let mut objects: Vec<Object> = Vec::new();
        let mut i: usize = 0;
        while i < self.objects.len()
            invariant
                i <= self@.objects.len(),
                objects@.len() == i,
                forall|j: int| 0 <= j < i ==> #[trigger] objects@[j]@ == self@.objects[j],
            decreases self.objects.len() - i,
        {
            objects.push(copy_object(&self.objects[i]));
            i += 1;
        }
        let pages = self.pages.clone();
        let r = Document { objects, pages, root: self.root };
        assert(r@.objects =~= self@.objects);
        assert(r@.pages =~= self@.pages);
        r
    }

    /// Whether the document is well formed: see [`wf`].
    pub fn is_well_formed(&self) -> (r: bool)
        ensures
            r == wf(self@),
    {
        let n = self.objects.len();
        if self.root >= n {
            return false;
        }
        if !matches!(self.objects[self.root].body, Body::Dictionary(_)) {
            return false;
        }
        let mut seen: Vec<bool> = Vec::new();
        let mut k: usize = 0;
        while k < n
            invariant
                k <= n,
                seen@.len() == k,
                forall|j: int| 0 <= j < k ==> !seen@[j],
            decreases n - k,
        {
            seen.push(false);
            k += 1;
        }
        let ghost d = self@;
        let mut i: usize = 0;
        while i < self.pages.len()
            invariant
                d == self@,
                n == self.objects@.len(),
                seen@.len() == n,
                i <= self.pages@.len(),
                forall|a: int| 0 <= a < i ==> #[trigger] d.pages[a] < n,
                forall|a: int| 0 <= a < i ==> is_dictionary(d.objects[#[trigger] d.pages[a] as int]),
                forall|a: int| 0 <= a < i ==> #[trigger] d.pages[a] != d.root,
                forall|a: int, b: int| 0 <= a < i && 0 <= b < i && a != b ==> #[trigger] d.pages[a] != #[trigger] d.pages[b],
                forall|v: int| 0 <= v < n ==> (#[trigger] seen@[v] <==> exists|a: int| 0 <= a < i && d.pages[a] == v),
            decreases self.pages.len() - i,
        {
            let p = self.pages[i];
            assert(d.pages[i as int] == p);
            if p >= n || p == self.root {
                return false;
            }
            if !matches!(self.objects[p].body, Body::Dictionary(_)) {
                return false;
            }
            if seen[p] {
                proof {
                    let a = choose|a: int| 0 <= a < i && d.pages[a] == p;
                    assert(d.pages[a] == d.pages[i as int]);
                }
                return false;
            }
            seen.set(p, true);
            i += 1;
        }
        true
    }
}

} // verus!
