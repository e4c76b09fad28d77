//! Reordering, read back from the document the operation leaves.

use std::cell::Cell;

use burrow_engines::error::Error;
use burrow_engines::graph::{Body, Document, Entry, Object, Value};
use burrow_engines::limits::{Clock, Limits, ManualClock};
use burrow_engines::permutation::Permutation;
use burrow_engines::reorder::QpdfReorderable;

/// A clock that advances by `step` milliseconds every time it is read.
struct SteppingClock {
    now: Cell<u64>,
    step: u64,
}

impl SteppingClock {
    fn new(step: u64) -> Self {
        SteppingClock { now: Cell::new(0), step }
    }
}

impl Clock for SteppingClock {
    fn now_ms(&self) -> u64 {
        let t = self.now.get();
        self.now.set(t + self.step);
        t
    }
}

fn key(k: &str) -> Vec<u8> {
    k.as_bytes().to_vec()
}

fn entry(k: &str, value: Value) -> Entry {
    Entry { key: key(k), value }
}

fn dictionary(entries: Vec<Entry>) -> Object {
    Object { direct: false, body: Body::Dictionary(entries) }
}

fn array(values: Vec<Value>) -> Object {
    Object { direct: true, body: Body::Array(values) }
}

enum RotationPlacement {
    Absent,
    OnTheRoot(i64),
}

/// A root `/Pages` node over two branch nodes, the first half of the pages under the first
/// branch; page `n` (from one) is `100 + n` wide, so the widths tell the pages apart.
fn pdf_with_page_tree(pages: usize, rotation: RotationPlacement) -> Document {
    let mut objects: Vec<Object> = Vec::new();
    objects.push(dictionary(Vec::new()));
    objects.push(dictionary(Vec::new()));
    objects.push(dictionary(Vec::new()));
    let half = pages / 2;
    let mut page_list = Vec::new();
    let mut branch_kids = [Vec::new(), Vec::new()];
    for n in 0..pages {
        let branch = if n < half { 1 } else { 2 };
        let media = objects.len();
        objects.push(array(vec![
            Value::Integer(0),
            Value::Integer(0),
            Value::Integer(101 + n as i64),
            Value::Integer(792),
        ]));
        let page = objects.len();
        objects.push(dictionary(vec![
            entry("Type", Value::Name(key("Page"))),
            entry("Parent", Value::Reference(branch)),
            entry("MediaBox", Value::Reference(media)),
        ]));
        page_list.push(page);
        branch_kids[branch - 1].push(Value::Reference(page));
    }
    for (i, kids) in branch_kids.into_iter().enumerate() {
        let count = kids.len() as i64;
        let kids_at = objects.len();
        objects.push(array(kids));
        objects[i + 1] = dictionary(vec![
            entry("Type", Value::Name(key("Pages"))),
            entry("Parent", Value::Reference(0)),
            entry("Kids", Value::Reference(kids_at)),
            entry("Count", Value::Integer(count)),
        ]);
    }
    let kids_at = objects.len();
    objects.push(array(vec![Value::Reference(1), Value::Reference(2)]));
    let mut root = vec![
        entry("Type", Value::Name(key("Pages"))),
        entry("Kids", Value::Reference(kids_at)),
        entry("Count", Value::Integer(pages as i64)),
    ];
    if let RotationPlacement::OnTheRoot(degrees) = rotation {
        root.push(entry("Rotate", Value::Integer(degrees)));
    }
    objects[0] = dictionary(root);
    Document { objects, pages: page_list, root: 0 }
}

fn value_of<'a>(d: &'a Document, node: usize, k: &str) -> Option<&'a Value> {
    match &d.objects.get(node)?.body {
        Body::Dictionary(entries) | Body::Stream(entries, _) => {
            entries.iter().find(|e| e.key == k.as_bytes()).map(|e| &e.value)
        }
        Body::Array(_) => None,
    }
}

/// The pages, in order, by the number their width gives them.
fn order_of(d: &Document) -> Vec<i64> {
    d.pages
        .iter()
        .map(|&page| match value_of(d, page, "MediaBox") {
            Some(Value::Reference(at)) => match &d.objects[*at].body {
                Body::Array(values) => match values[2] {
                    Value::Integer(width) => width - 100,
                    _ => panic!("a width that is not an integer"),
                },
                _ => panic!("a MediaBox that is not an array"),
            },
            _ => panic!("a page with no MediaBox of its own"),
        })
        .collect()
}

fn reordered(d: Document, order: &[u64]) -> Result<Document, Error> {
    let mut source = QpdfReorderable::open(d, Limits::defaults())?;
    let permutation = Permutation::of(order.to_vec(), order.len() as u64)?;
    source.reorder(&permutation, &ManualClock::new(0))?;
    Ok(clone_document(source.document()))
}

fn clone_value(v: &Value) -> Value {
    match v {
        Value::Null => Value::Null,
        Value::Boolean(b) => Value::Boolean(*b),
        Value::Integer(n) => Value::Integer(*n),
        Value::Name(n) => Value::Name(n.clone()),
        Value::Text(t) => Value::Text(t.clone()),
        Value::Reference(i) => Value::Reference(*i),
    }
}

fn clone_entries(es: &[Entry]) -> Vec<Entry> {
    es.iter().map(|e| Entry { key: e.key.clone(), value: clone_value(&e.value) }).collect()
}

fn clone_document(d: &Document) -> Document {
    Document {
        objects: d
            .objects
            .iter()
            .map(|o| Object {
                direct: o.direct,
                body: match &o.body {
                    Body::Dictionary(es) => Body::Dictionary(clone_entries(es)),
                    Body::Array(vs) => Body::Array(vs.iter().map(clone_value).collect()),
                    Body::Stream(es, data) => Body::Stream(clone_entries(es), data.clone()),
                },
            })
            .collect(),
        pages: d.pages.clone(),
        root: d.root,
    }
}

/// The page-tree nodes a reader reaches: the root and every node on a page's `/Parent` chain.
fn reachable_nodes(d: &Document) -> Vec<usize> {
    let mut nodes = vec![d.root];
    for &page in &d.pages {
        let mut at = page;
        while let Some(Value::Reference(parent)) = value_of(d, at, "Parent") {
            if !nodes.contains(parent) {
                nodes.push(*parent);
            }
            at = *parent;
        }
    }
    nodes
}

#[test]
fn the_widths_distinguish_the_pages_in_the_first_place() {
    let fixture = pdf_with_page_tree(6, RotationPlacement::Absent);
    assert_eq!(order_of(&fixture), vec![1, 2, 3, 4, 5, 6]);
}

#[test]
fn a_reversal_comes_back_reversed() {
    let out = reordered(pdf_with_page_tree(6, RotationPlacement::Absent), &[5, 4, 3, 2, 1, 0]).unwrap();
    assert_eq!(order_of(&out), vec![6, 5, 4, 3, 2, 1]);
}

#[test]
fn a_single_page_moved_to_the_front_takes_only_itself() {
    let out = reordered(pdf_with_page_tree(6, RotationPlacement::Absent), &[3, 0, 1, 2, 4, 5]).unwrap();
    assert_eq!(order_of(&out), vec![4, 1, 2, 3, 5, 6]);
}

#[test]
fn a_swap_of_two_middle_pages_leaves_the_rest_alone() {
    let out = reordered(pdf_with_page_tree(6, RotationPlacement::Absent), &[0, 1, 3, 2, 4, 5]).unwrap();
    assert_eq!(order_of(&out), vec![1, 2, 4, 3, 5, 6]);
}

#[test]
fn the_identity_leaves_the_order_alone() {
    let out = reordered(pdf_with_page_tree(4, RotationPlacement::Absent), &[0, 1, 2, 3]).unwrap();
    assert_eq!(order_of(&out), vec![1, 2, 3, 4]);
}

#[test]
fn every_page_appears_exactly_once_however_it_is_permuted() {
    for order in [
        vec![0, 1, 2, 3, 4, 5],
        vec![5, 4, 3, 2, 1, 0],
        vec![2, 0, 4, 1, 5, 3],
        vec![1, 0, 2, 3, 4, 5],
    ] {
        let out = reordered(pdf_with_page_tree(6, RotationPlacement::Absent), &order).unwrap();
        let mut seen = order_of(&out);
        seen.sort_unstable();
        assert_eq!(seen, vec![1, 2, 3, 4, 5, 6], "order {order:?} lost a page");
    }
}

#[test]
fn reordering_twice_composes() {
    let once = reordered(pdf_with_page_tree(5, RotationPlacement::Absent), &[4, 3, 2, 1, 0]).unwrap();
    let twice = reordered(once, &[4, 3, 2, 1, 0]).unwrap();
    assert_eq!(order_of(&twice), vec![1, 2, 3, 4, 5]);
}

#[test]
fn an_inherited_rotation_survives_the_reordering() {
    let out = reordered(pdf_with_page_tree(6, RotationPlacement::OnTheRoot(90)), &[5, 4, 3, 2, 1, 0]).unwrap();
    let source = burrow_engines::rotate::QpdfRotatable::open(out, Limits::defaults()).unwrap();
    for page in 0..6 {
        assert_eq!(
            source.effective_rotation(page).unwrap().degrees(),
            90,
            "page {page} lost the rotation it inherited"
        );
    }
}

#[test]
fn the_page_tree_is_flattened_and_the_test_says_so() {
    let before = pdf_with_page_tree(6, RotationPlacement::OnTheRoot(90));
    let after = reordered(clone_document(&before), &[5, 4, 3, 2, 1, 0]).unwrap();

    let count_pages_nodes = |d: &Document| {
        reachable_nodes(d)
            .into_iter()
            .filter(|&n| matches!(value_of(d, n, "Type"), Some(Value::Name(t)) if t == b"Pages"))
            .count()
    };
    let count_rotate_90 = |d: &Document| {
        let mut nodes = reachable_nodes(d);
        nodes.extend(d.pages.iter().copied());
        nodes
            .into_iter()
            .filter(|&n| matches!(value_of(d, n, "Rotate"), Some(Value::Integer(90))))
            .count()
    };
    assert_eq!(count_pages_nodes(&before), 3, "the fixture is two levels");
    assert_eq!(count_pages_nodes(&after), 1, "the page tree was not flattened");
    assert_eq!(count_rotate_90(&before), 1);
    assert_eq!(count_rotate_90(&after), 6);
}

#[test]
fn a_permutation_for_a_different_document_is_refused() {
    let mut source = QpdfReorderable::open(pdf_with_page_tree(4, RotationPlacement::Absent), Limits::defaults()).unwrap();
    // Valid on its own terms -- three pages, each named once -- and not for this document.
    let wrong = Permutation::of(vec![2, 0, 1], 3).unwrap();
    match source.reorder(&wrong, &ManualClock::new(0)) {
        Err(Error::InvalidArgument(message)) => {
            assert!(message.contains('3') && message.contains('4'), "{message}");
        },
        other => panic!("expected a refusal naming both sizes, got {other:?}"),
    }
}

#[test]
fn reorder_tests_a_document_over_the_page_ceiling_is_refused_at_open() {
    let mut limits = Limits::defaults();
    limits.max_pages = 5;
    let refused = QpdfReorderable::open(pdf_with_page_tree(6, RotationPlacement::Absent), limits);
    assert!(matches!(refused, Err(Error::LimitExceeded { .. })));
}

#[test]
fn reorder_tests_the_deadline_is_checked_between_pages() {
    let mut limits = Limits::defaults();
    limits.max_duration_ms = 5_000;
    let mut source = QpdfReorderable::open(pdf_with_page_tree(40, RotationPlacement::Absent), limits).unwrap();
    let order: Vec<u64> = (0..40).rev().collect();
    let permutation = Permutation::of(order, 40).unwrap();
    match source.reorder(&permutation, &SteppingClock::new(1_000)) {
        Err(Error::LimitExceeded { limit, .. }) => assert_eq!(limit, "max_duration_ms"),
        other => panic!("expected a deadline refusal, got {other:?}"),
    }
}

#[test]
fn a_deadline_refusal_part_way_through_poisons_the_document() {
    let clock = SteppingClock::new(400);
    let mut limits = Limits::defaults();
    limits.max_duration_ms = 1_000;
    let mut source = QpdfReorderable::open(pdf_with_page_tree(6, RotationPlacement::Absent), limits)
        .expect("the document opens");
    let permutation = Permutation::of(vec![5, 4, 3, 2, 1, 0], 6).expect("a valid permutation");

    let first = source.reorder(&permutation, &clock);
    assert!(
        matches!(first, Err(Error::LimitExceeded { .. })),
        "the stepping clock must blow the deadline partway through, got {first:?}"
    );
    let again = source.reorder(&permutation, &clock);
    assert!(
        matches!(again, Err(Error::Internal(_))),
        "a source left part-way through a failed reordering must refuse to be written, got {again:?}"
    );
}
