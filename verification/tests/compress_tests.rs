//! Compression, read back from the document it leaves.

use std::cell::Cell;

use burrow_engines::compress::QpdfCompressible;
use burrow_engines::error::Error;
use burrow_engines::graph::{Body, Document, Entry, Object, Value};
use burrow_engines::limits::{Clock, Deadline, Limits, ManualClock};

struct SteppingClock {
    now: Cell<u64>,
    step: u64,
}

impl SteppingClock {
    fn new(step: u64) -> Self {
        SteppingClock { now: Cell::new(0), step }
    }
}

impl Clock for SteppingClock {
    fn now_ms(&self) -> u64 {
        let t = self.now.get();
        self.now.set(t + self.step);
        t
    }
}

fn key(k: &str) -> Vec<u8> {
    k.as_bytes().to_vec()
}

fn entry(k: &str, value: Value) -> Entry {
    Entry { key: key(k), value }
}

fn dictionary(entries: Vec<Entry>) -> Object {
    Object { direct: false, body: Body::Dictionary(entries) }
}

fn array(values: Vec<Value>) -> Object {
    Object { direct: true, body: Body::Array(values) }
}

/// Where the fixture writes `/Rotate`.
#[derive(Clone, Copy)]
enum RotationPlacement {
    Absent,
    OnTheRoot(i64),
    OnTheSecondBranch(i64),
    OnEveryPage(i64),
    OnTheRootAndTheFirstPage { root: i64, first_page: i64 },
    /// A `/Rotate` on the root that is a name rather than a number.
    ANameOnTheRoot,
}

/// The shape of the page tree above the pages.
#[derive(Clone, Copy)]
enum TreeShape {
    /// A root over two branches.
    TwoBranches,
    /// As two branches, with the first branch's `/Parent` pointing at a page beneath it.
    ParentCycle,
    /// Every page under a chain of this many `/Pages` nodes below the root.
    DeepChain(usize),
}

fn rotate_entry(degrees: i64) -> Entry {
    entry("Rotate", Value::Integer(degrees))
}

/// A root `/Pages` node over two branch nodes (or a chain), page `n` (from one) `100 + n`
/// wide.
fn pdf_with_page_tree_shaped(pages: usize, rotation: RotationPlacement, shape: TreeShape) -> Document {
    let mut objects: Vec<Object> = vec![dictionary(Vec::new())];
    let mut page_list = Vec::new();
    let parents: Vec<usize> = match shape {
        TreeShape::TwoBranches | TreeShape::ParentCycle => {
            objects.push(dictionary(Vec::new()));
            objects.push(dictionary(Vec::new()));
            vec![1, 2]
        }
        TreeShape::DeepChain(links) => {
            let mut above = 0;
            for _ in 0..links {
                let at = objects.len();
                objects.push(dictionary(vec![
                    entry("Type", Value::Name(key("Pages"))),
                    entry("Parent", Value::Reference(above)),
                ]));
                above = at;
            }
            vec![above]
        }
    };
    let half = pages / 2;
    let mut kids_of: Vec<Vec<Value>> = vec![Vec::new(); parents.len()];
    for n in 0..pages {
        let slot = if parents.len() == 2 && n >= half { 1 } else { 0 };
        let media = objects.len();
        objects.push(array(vec![
            Value::Integer(0),
            Value::Integer(0),
            Value::Integer(101 + n as i64),
            Value::Integer(792),
        ]));
        let page = objects.len();
        let mut entries = vec![
            entry("Type", Value::Name(key("Page"))),
            entry("Parent", Value::Reference(parents[slot])),
            entry("MediaBox", Value::Reference(media)),
        ];
        match rotation {
            RotationPlacement::OnEveryPage(d) => entries.push(rotate_entry(d)),
            RotationPlacement::OnTheRootAndTheFirstPage { first_page, .. } if n == 0 => {
                entries.push(rotate_entry(first_page))
            }
            _ => {}
        }
        objects.push(dictionary(entries));
        page_list.push(page);
        kids_of[slot].push(Value::Reference(page));
    }
    if parents.len() == 2 {
        for (i, kids) in kids_of.iter().enumerate() {
            let kids_at = objects.len();
            objects.push(array(kids.clone()));
            let parent = if i == 0 && matches!(shape, TreeShape::ParentCycle) { page_list[0] } else { 0 };
            let mut entries = vec![
                entry("Type", Value::Name(key("Pages"))),
                entry("Parent", Value::Reference(parent)),
                entry("Kids", Value::Reference(kids_at)),
                entry("Count", Value::Integer(kids.len() as i64)),
            ];
            if i == 1 {
                if let RotationPlacement::OnTheSecondBranch(d) = rotation {
                    entries.push(rotate_entry(d));
                }
            }
            objects[i + 1] = dictionary(entries);
        }
    }
    let kids_at = objects.len();
    let top: Vec<Value> = match shape {
        TreeShape::DeepChain(_) => vec![Value::Reference(1)],
        _ => vec![Value::Reference(1), Value::Reference(2)],
    };
    objects.push(array(top));
    let mut root = vec![
        entry("Type", Value::Name(key("Pages"))),
        entry("Kids", Value::Reference(kids_at)),
        entry("Count", Value::Integer(pages as i64)),
    ];
    match rotation {
        RotationPlacement::OnTheRoot(d) => root.push(rotate_entry(d)),
        RotationPlacement::OnTheRootAndTheFirstPage { root: d, .. } => root.push(rotate_entry(d)),
        RotationPlacement::ANameOnTheRoot => root.push(entry("Rotate", Value::Name(key("X")))),
        _ => {}
    }
    objects[0] = dictionary(root);
    Document { objects, pages: page_list, root: 0 }
}

fn pdf_with_page_tree(pages: usize, rotation: RotationPlacement) -> Document {
    pdf_with_page_tree_shaped(pages, rotation, TreeShape::TwoBranches)
}

fn open(d: Document) -> Result<QpdfCompressible, Error> {
    QpdfCompressible::open(d, Limits::defaults())
}

fn with_limits(f: impl FnOnce(&mut Limits)) -> Limits {
    let mut limits = Limits::defaults();
    f(&mut limits);
    limits
}

fn packable() -> Document {
    pdf_with_page_tree(40, RotationPlacement::Absent)
}

fn sweep(source: &QpdfCompressible) -> Vec<i64> {
    source.rotations(&Deadline::starting_at(0, &Limits::defaults()), &ManualClock::new(0)).unwrap()
}

#[test]
fn the_page_count_survives_a_round_trip_through_the_compressed_container() {
    let source = open(packable()).unwrap();
    let out = source.compress(&ManualClock::new(0)).expect("a well-formed document compresses");
    let reopened = open(out).expect("the compressed output reopens");
    assert_eq!(reopened.pages(), 40);
}

#[test]
fn an_inherited_rotation_survives_compression() {
    let source = open(pdf_with_page_tree(6, RotationPlacement::OnTheSecondBranch(90))).expect("opens");
    let before = sweep(&source);
    assert!(before.iter().any(|r| *r != 0), "the fixture must actually carry a rotation");
    let out = source.compress(&ManualClock::new(0)).expect("compresses");
    let reopened = open(out).expect("the compressed output reopens");
    assert_eq!(sweep(&reopened), before, "compression changed what a page displays at");
}

#[test]
fn the_rotation_vector_is_the_witness_adr_0022_asks_for() {
    let source = open(pdf_with_page_tree(6, RotationPlacement::OnEveryPage(270))).expect("opens");
    let before = sweep(&source);
    let out = source.compress(&ManualClock::new(0)).unwrap();
    let reopened = open(out).expect("the compressed output reopens");
    assert_eq!(sweep(&reopened), before);
}

#[test]
fn an_unreadable_document_is_refused_rather_than_compressed() {
    let not_a_document = Document { objects: Vec::new(), pages: Vec::new(), root: 0 };
    assert!(matches!(open(not_a_document), Err(Error::Malformed(_))));
}

#[test]
fn compress_tests_a_document_over_the_page_ceiling_is_refused_at_open() {
    let refused = QpdfCompressible::open(pdf_with_page_tree(6, RotationPlacement::Absent), with_limits(|l| l.max_pages = 5));
    assert!(matches!(refused, Err(Error::LimitExceeded { .. })));
}

#[test]
fn the_rotation_sweep_is_checkpointed_per_page_rather_than_around_the_loop() {
    let clock = SteppingClock::new(10);
    let limits = with_limits(|l| l.max_duration_ms = 25);
    let source = open(pdf_with_page_tree(40, RotationPlacement::Absent)).expect("opens");
    let deadline = Deadline::start(&clock, &limits);
    let swept = source.rotations(&deadline, &clock);
    assert!(matches!(swept, Err(Error::LimitExceeded { .. })), "returned {swept:?}");
}

#[test]
fn compress_tests_the_rotation_sweep_refuses_against_an_already_spent_deadline() {
    let source = open(pdf_with_page_tree(6, RotationPlacement::OnTheRoot(90))).expect("opens");
    let limits = with_limits(|l| l.max_duration_ms = 10);
    let deadline = Deadline::starting_at(0, &limits);
    let err = source.rotations(&deadline, &ManualClock::new(11)).expect_err("a spent budget must refuse the sweep");
    assert!(matches!(err, Error::LimitExceeded { limit, .. } if limit == "max_duration_ms"), "got {err:?}");
    let deadline = Deadline::starting_at(0, &limits);
    let rotations = source.rotations(&deadline, &ManualClock::new(0)).expect("a budget with room must not refuse");
    assert_eq!(rotations, vec![90; 6]);
}

#[test]
fn the_write_itself_is_refused_when_the_budget_is_already_spent() {
    let limits = with_limits(|l| l.max_duration_ms = 5);
    let source = QpdfCompressible::open(packable(), limits).expect("opens");
    let refused = source.compress(&SteppingClock::new(10));
    assert!(
        matches!(refused, Err(Error::LimitExceeded { limit, .. }) if limit == "max_duration_ms"),
        "returned {refused:?}"
    );
}

#[test]
fn a_budget_with_room_does_not_refuse_the_write() {
    let source = open(packable()).expect("opens");
    let out = source.compress(&ManualClock::new(0)).expect("a stopped clock must not refuse the write");
    assert_eq!(out.pages, packable().pages);
    assert_eq!(out.objects.len(), packable().objects.len());
}
