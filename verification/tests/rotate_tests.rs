//! Rotation, read back from the document the operation leaves.

use std::cell::Cell;

use burrow_engines::error::Error;
use burrow_engines::graph::{Body, Document, Entry, Object, Value};
use burrow_engines::limits::{Clock, Deadline, Limits, ManualClock};
use burrow_engines::rotate::QpdfRotatable;
use burrow_engines::rotation::Rotation;

struct SteppingClock {
    now: Cell<u64>,
    step: u64,
}

impl SteppingClock {
    fn new(step: u64) -> Self {
        SteppingClock { now: Cell::new(0), step }
    }
}

impl Clock for SteppingClock {
    fn now_ms(&self) -> u64 {
        let t = self.now.get();
        self.now.set(t + self.step);
        t
    }
}

fn key(k: &str) -> Vec<u8> {
    k.as_bytes().to_vec()
}

fn entry(k: &str, value: Value) -> Entry {
    Entry { key: key(k), value }
}

fn dictionary(entries: Vec<Entry>) -> Object {
    Object { direct: false, body: Body::Dictionary(entries) }
}

fn array(values: Vec<Value>) -> Object {
    Object { direct: true, body: Body::Array(values) }
}

/// Where the fixture writes `/Rotate`.
#[derive(Clone, Copy)]
enum RotationPlacement {
    Absent,
    OnTheRoot(i64),
    OnTheSecondBranch(i64),
    OnEveryPage(i64),
    OnTheRootAndTheFirstPage { root: i64, first_page: i64 },
    /// A `/Rotate` on the root that is a name rather than a number.
    ANameOnTheRoot,
}

/// The shape of the page tree above the pages.
#[derive(Clone, Copy)]
enum TreeShape {
    /// A root over two branches.
    TwoBranches,
    /// As two branches, with the first branch's `/Parent` pointing at a page beneath it.
    ParentCycle,
    /// Every page under a chain of this many `/Pages` nodes below the root.
    DeepChain(usize),
}

fn rotate_entry(degrees: i64) -> Entry {
    entry("Rotate", Value::Integer(degrees))
}

/// A root `/Pages` node over two branch nodes (or a chain), page `n` (from one) `100 + n`
/// wide.
fn pdf_with_page_tree_shaped(pages: usize, rotation: RotationPlacement, shape: TreeShape) -> Document {
    let mut objects: Vec<Object> = vec![dictionary(Vec::new())];
    let mut page_list = Vec::new();
    let parents: Vec<usize> = match shape {
        TreeShape::TwoBranches | TreeShape::ParentCycle => {
            objects.push(dictionary(Vec::new()));
            objects.push(dictionary(Vec::new()));
            vec![1, 2]
        }
        TreeShape::DeepChain(links) => {
            let mut above = 0;
            for _ in 0..links {
                let at = objects.len();
                objects.push(dictionary(vec![
                    entry("Type", Value::Name(key("Pages"))),
                    entry("Parent", Value::Reference(above)),
                ]));
                above = at;
            }
            vec![above]
        }
    };
    let half = pages / 2;
    let mut kids_of: Vec<Vec<Value>> = vec![Vec::new(); parents.len()];
    for n in 0..pages {
        let slot = if parents.len() == 2 && n >= half { 1 } else { 0 };
        let media = objects.len();
        objects.push(array(vec![
            Value::Integer(0),
            Value::Integer(0),
            Value::Integer(101 + n as i64),
            Value::Integer(792),
        ]));
        let page = objects.len();
        let mut entries = vec![
            entry("Type", Value::Name(key("Page"))),
            entry("Parent", Value::Reference(parents[slot])),
            entry("MediaBox", Value::Reference(media)),
        ];
        match rotation {
            RotationPlacement::OnEveryPage(d) => entries.push(rotate_entry(d)),
            RotationPlacement::OnTheRootAndTheFirstPage { first_page, .. } if n == 0 => {
                entries.push(rotate_entry(first_page))
            }
            _ => {}
        }
        objects.push(dictionary(entries));
        page_list.push(page);
        kids_of[slot].push(Value::Reference(page));
    }
    if parents.len() == 2 {
        for (i, kids) in kids_of.iter().enumerate() {
            let kids_at = objects.len();
            objects.push(array(kids.clone()));
            let parent = if i == 0 && matches!(shape, TreeShape::ParentCycle) { page_list[0] } else { 0 };
            let mut entries = vec![
                entry("Type", Value::Name(key("Pages"))),
                entry("Parent", Value::Reference(parent)),
                entry("Kids", Value::Reference(kids_at)),
                entry("Count", Value::Integer(kids.len() as i64)),
            ];
            if i == 1 {
                if let RotationPlacement::OnTheSecondBranch(d) = rotation {
                    entries.push(rotate_entry(d));
                }
            }
            objects[i + 1] = dictionary(entries);
        }
    }
    let kids_at = objects.len();
    let top: Vec<Value> = match shape {
        TreeShape::DeepChain(_) => vec![Value::Reference(1)],
        _ => vec![Value::Reference(1), Value::Reference(2)],
    };
    objects.push(array(top));
    let mut root = vec![
        entry("Type", Value::Name(key("Pages"))),
        entry("Kids", Value::Reference(kids_at)),
        entry("Count", Value::Integer(pages as i64)),
    ];
    match rotation {
        RotationPlacement::OnTheRoot(d) => root.push(rotate_entry(d)),
        RotationPlacement::OnTheRootAndTheFirstPage { root: d, .. } => root.push(rotate_entry(d)),
        RotationPlacement::ANameOnTheRoot => root.push(entry("Rotate", Value::Name(key("X")))),
        _ => {}
    }
    objects[0] = dictionary(root);
    Document { objects, pages: page_list, root: 0 }
}

fn pdf_with_page_tree(pages: usize, rotation: RotationPlacement) -> Document {
    pdf_with_page_tree_shaped(pages, rotation, TreeShape::TwoBranches)
}

fn open(d: Document) -> Result<QpdfRotatable, Error> {
    QpdfRotatable::open(d, Limits::defaults())
}

fn with_max_pages(max: u64) -> Limits {
    let mut limits = Limits::defaults();
    limits.max_pages = max;
    limits
}

fn with_max_duration(ms: u64) -> Limits {
    let mut limits = Limits::defaults();
    limits.max_duration_ms = ms;
    limits
}

/// Rotate, and hand back what the operation left.
fn rotated(d: Document, pages: &[u64], rotation: Rotation) -> Result<QpdfRotatable, Error> {
    let mut source = open(d)?;
    source.rotate(pages, rotation, &ManualClock::new(0))?;
    Ok(source)
}

#[test]
fn a_document_with_no_rotate_anywhere_reads_as_zero() {
    let source = open(pdf_with_page_tree(4, RotationPlacement::Absent)).unwrap();
    for page in 0..4 {
        assert_eq!(source.effective_rotation(page).unwrap(), Rotation::Upright);
    }
}

#[test]
fn a_rotate_on_the_root_is_inherited_by_every_page() {
    let source = open(pdf_with_page_tree(4, RotationPlacement::OnTheRoot(90))).unwrap();
    for page in 0..4 {
        assert_eq!(
            source.effective_rotation(page).unwrap(),
            Rotation::Clockwise90,
            "page {page} inherits the root's rotation"
        );
    }
}

#[test]
fn a_rotate_on_a_branch_reaches_only_that_branch() {
    let source = open(pdf_with_page_tree(4, RotationPlacement::OnTheSecondBranch(180))).unwrap();
    let rotations: Vec<_> = (0..4).map(|page| source.effective_rotation(page).unwrap()).collect();
    assert_eq!(
        rotations,
        vec![Rotation::Upright, Rotation::Upright, Rotation::Clockwise180, Rotation::Clockwise180]
    );
}

#[test]
fn rotating_is_relative_to_the_inherited_value() {
    let out = rotated(pdf_with_page_tree(4, RotationPlacement::OnTheRoot(90)), &[0], Rotation::Clockwise90).unwrap();
    assert_eq!(out.effective_rotation(0).unwrap(), Rotation::Clockwise180);
}

#[test]
fn rotating_one_page_leaves_every_other_page_alone_including_ones_that_inherit() {
    let out = rotated(pdf_with_page_tree(4, RotationPlacement::OnTheRoot(90)), &[0], Rotation::Clockwise90).unwrap();
    assert_eq!(out.effective_rotation(0).unwrap(), Rotation::Clockwise180, "the page that was asked for");
    for page in 1..4 {
        assert_eq!(
            out.effective_rotation(page).unwrap(),
            Rotation::Clockwise90,
            "page {page} inherits, and was not asked for"
        );
    }
}

#[test]
fn rotating_a_page_that_carries_its_own_value_leaves_the_others_alone_too() {
    let out = rotated(pdf_with_page_tree(4, RotationPlacement::OnEveryPage(270)), &[2], Rotation::Clockwise90).unwrap();
    let rotations: Vec<_> = (0..4).map(|page| out.effective_rotation(page).unwrap()).collect();
    assert_eq!(
        rotations,
        vec![Rotation::Clockwise270, Rotation::Clockwise270, Rotation::Upright, Rotation::Clockwise270]
    );
}

#[test]
fn a_rotate_that_is_not_an_integer_is_malformed_rather_than_zero() {
    let source = open(pdf_with_page_tree(4, RotationPlacement::ANameOnTheRoot)).unwrap();
    assert!(matches!(source.effective_rotation(0), Err(Error::Malformed(_))));
}

#[test]
fn a_rotate_that_is_not_a_multiple_of_ninety_is_malformed_rather_than_rounded() {
    let source = open(pdf_with_page_tree(4, RotationPlacement::OnTheRoot(45))).unwrap();
    assert!(matches!(source.effective_rotation(0), Err(Error::Malformed(_))));
}

#[test]
fn a_page_past_the_end_is_an_invalid_argument() {
    let mut source = open(pdf_with_page_tree(4, RotationPlacement::Absent)).unwrap();
    assert!(matches!(source.effective_rotation(4), Err(Error::InvalidArgument(_))));
    assert!(matches!(
        source.rotate(&[4], Rotation::Clockwise90, &ManualClock::new(0)),
        Err(Error::InvalidArgument(_))
    ));
}

#[test]
fn naming_no_pages_or_the_same_page_twice_is_refused() {
    let mut source = open(pdf_with_page_tree(4, RotationPlacement::Absent)).unwrap();
    assert!(matches!(source.rotate(&[], Rotation::Clockwise90, &ManualClock::new(0)), Err(Error::InvalidArgument(_))));
    assert!(matches!(
        source.rotate(&[1, 1], Rotation::Clockwise90, &ManualClock::new(0)),
        Err(Error::InvalidArgument(_))
    ));
}

#[test]
fn rotate_tests_a_document_over_the_page_ceiling_is_refused_at_open() {
    let refused = QpdfRotatable::open(pdf_with_page_tree(4, RotationPlacement::Absent), with_max_pages(3));
    assert!(matches!(refused, Err(Error::LimitExceeded { .. })));

    let mut source = QpdfRotatable::open(pdf_with_page_tree(2, RotationPlacement::Absent), with_max_pages(2)).unwrap();
    let allowed = source.rotate(&[0, 1], Rotation::Clockwise90, &ManualClock::new(0));
    assert!(allowed.is_ok(), "two pages is exactly the ceiling");
}

#[test]
fn a_parent_cycle_is_refused_rather_than_walked_forever() {
    let source =
        open(pdf_with_page_tree_shaped(4, RotationPlacement::Absent, TreeShape::ParentCycle)).unwrap();
    assert!(
        matches!(source.effective_rotation(0), Err(Error::Malformed(_))),
        "a page under the cyclic branch must be refused"
    );
    assert_eq!(source.effective_rotation(3).unwrap(), Rotation::Upright);
}

#[test]
fn a_page_tree_deeper_than_the_walk_is_refused() {
    let source =
        open(pdf_with_page_tree_shaped(2, RotationPlacement::Absent, TreeShape::DeepChain(70))).unwrap();
    assert!(matches!(source.effective_rotation(0), Err(Error::Malformed(_))));

    let shallow =
        open(pdf_with_page_tree_shaped(2, RotationPlacement::Absent, TreeShape::DeepChain(8))).unwrap();
    assert_eq!(shallow.effective_rotation(0).unwrap(), Rotation::Upright);
}

#[test]
fn a_selection_over_the_page_ceiling_is_refused() {
    let mut source = QpdfRotatable::open(pdf_with_page_tree(2, RotationPlacement::Absent), with_max_pages(2)).unwrap();
    match source.rotate(&[0, 0, 0], Rotation::Clockwise90, &ManualClock::new(0)) {
        Err(Error::LimitExceeded { limit, .. }) => assert_eq!(limit, "max_pages"),
        other => panic!("expected a page-count refusal, got {other:?}"),
    }
}

#[test]
fn rotate_tests_the_deadline_is_checked_between_pages() {
    let mut source = QpdfRotatable::open(pdf_with_page_tree(40, RotationPlacement::Absent), with_max_duration(5_000)).unwrap();
    let pages: Vec<u64> = (0..40).collect();
    match source.rotate(&pages, Rotation::Clockwise90, &SteppingClock::new(1_000)) {
        Err(Error::LimitExceeded { limit, .. }) => assert_eq!(limit, "max_duration_ms"),
        other => panic!("expected a deadline refusal, got {other:?}"),
    }
}

#[test]
fn rotate_tests_the_rotation_sweep_refuses_against_an_already_spent_deadline() {
    let source = open(pdf_with_page_tree(6, RotationPlacement::OnTheRoot(90))).expect("open");
    let limits = with_max_duration(10);
    let deadline = Deadline::starting_at(0, &limits);
    let err = source.rotations(&deadline, &ManualClock::new(11)).expect_err("a spent budget must refuse the sweep");
    assert!(matches!(err, Error::LimitExceeded { limit, .. } if limit == "max_duration_ms"), "got {err:?}");

    let deadline = Deadline::starting_at(0, &limits);
    let rotations = source.rotations(&deadline, &ManualClock::new(0)).expect("a budget with room must not refuse");
    assert_eq!(rotations, vec![90; 6]);
}

#[test]
fn the_rotation_sweep_records_a_value_that_is_not_a_multiple_of_ninety() {
    let source = open(pdf_with_page_tree(
        4,
        RotationPlacement::OnTheRootAndTheFirstPage { root: 0, first_page: 45 },
    ))
    .expect("open");
    let deadline = Deadline::starting_at(0, &Limits::defaults());
    let rotations = source
        .rotations(&deadline, &ManualClock::new(0))
        .expect("an out-of-spec value is recorded, not refused");
    assert_eq!(rotations, vec![45, 0, 0, 0]);
    let err = source.effective_rotation(0).expect_err("the judging read must still refuse");
    assert!(matches!(err, Error::Malformed(_)), "got {err:?}");
}

#[test]
fn a_sweep_over_a_stepping_clock_runs_out_of_time_part_way() {
    let source = open(pdf_with_page_tree(6, RotationPlacement::Absent)).expect("open");
    let clock = SteppingClock::new(4);
    let limits = with_max_duration(10);
    let deadline = Deadline::start(&clock, &limits);
    let err = source.rotations(&deadline, &clock).expect_err("the stepping clock must run the sweep out of time");
    assert!(matches!(err, Error::LimitExceeded { limit, .. } if limit == "max_duration_ms"), "got {err:?}");
}

#[test]
fn degrees_normalise_and_compose() {
    assert_eq!(Rotation::from_degrees(-90).unwrap(), Rotation::Clockwise270);
    assert_eq!(Rotation::from_degrees(450).unwrap(), Rotation::Clockwise90);
    assert!(matches!(Rotation::from_degrees(45), Err(Error::InvalidArgument(_))));
    assert_eq!(Rotation::Clockwise270.after(Rotation::Clockwise180), Rotation::Clockwise90);
    assert_eq!(Rotation::Clockwise90.degrees(), 90);
}

/// Two pages where the second's `/Parent` is the first, which carries `/Rotate 90`.
fn a_page_under_a_page() -> Document {
    let root = dictionary(vec![
        entry("Type", Value::Name(key("Pages"))),
        entry("Kids", Value::Reference(3)),
        entry("Count", Value::Integer(2)),
    ]);
    let first = dictionary(vec![entry("Type", Value::Name(key("Page"))), entry("Parent", Value::Reference(0)), rotate_entry(90)]);
    let second = dictionary(vec![entry("Type", Value::Name(key("Page"))), entry("Parent", Value::Reference(1))]);
    let kids = array(vec![Value::Reference(1), Value::Reference(2)]);
    Document { objects: vec![root, first, second, kids], pages: vec![1, 2], root: 0 }
}

#[test]
fn pages_are_turned_in_selection_order_each_reading_what_the_earlier_turns_wrote() {
    let source = rotated(a_page_under_a_page(), &[0, 1], Rotation::Clockwise90).unwrap();
    assert_eq!(source.effective_rotation(0).unwrap(), Rotation::Clockwise180);
    assert_eq!(source.effective_rotation(1).unwrap(), Rotation::Clockwise270);

    let source = rotated(a_page_under_a_page(), &[1, 0], Rotation::Clockwise90).unwrap();
    assert_eq!(source.effective_rotation(0).unwrap(), Rotation::Clockwise180);
    assert_eq!(source.effective_rotation(1).unwrap(), Rotation::Clockwise180);
}
