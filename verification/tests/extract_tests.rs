//! Splitting a run of pages out of a source.

use std::collections::BTreeSet;

use burrow_engines::error::Error;
use burrow_engines::extract::QpdfSource;
use burrow_engines::graph::{Body, Document, Entry, Object, Value};
use burrow_engines::limits::Limits;
use burrow_engines::rotate::QpdfRotatable;
use burrow_engines::rotation::Rotation;

fn key(k: &str) -> Vec<u8> {
    k.as_bytes().to_vec()
}

fn entry(k: &str, value: Value) -> Entry {
    Entry { key: key(k), value }
}

fn dictionary(entries: Vec<Entry>) -> Object {
    Object { direct: false, body: Body::Dictionary(entries) }
}

fn array(values: Vec<Value>) -> Object {
    Object { direct: true, body: Body::Array(values) }
}

enum RotationPlacement {
    Absent,
    OnTheRoot(i64),
}

/// A root `/Pages` node over two branch nodes, the first half of the pages under the first
/// branch; page `n` (from one) is `100 + n` wide, so the widths tell the pages apart.
fn pdf_with_page_tree(pages: usize, rotation: RotationPlacement) -> Document {
    let mut objects: Vec<Object> = Vec::new();
    objects.push(dictionary(Vec::new()));
    objects.push(dictionary(Vec::new()));
    objects.push(dictionary(Vec::new()));
    let half = pages / 2;
    let mut page_list = Vec::new();
    let mut branch_kids = [Vec::new(), Vec::new()];
    for n in 0..pages {
        let branch = if n < half { 1 } else { 2 };
        let media = objects.len();
        objects.push(array(vec![
            Value::Integer(0),
            Value::Integer(0),
            Value::Integer(101 + n as i64),
            Value::Integer(792),
        ]));
        let page = objects.len();
        objects.push(dictionary(vec![
            entry("Type", Value::Name(key("Page"))),
            entry("Parent", Value::Reference(branch)),
            entry("MediaBox", Value::Reference(media)),
        ]));
        page_list.push(page);
        branch_kids[branch - 1].push(Value::Reference(page));
    }
    for (i, kids) in branch_kids.into_iter().enumerate() {
        let count = kids.len() as i64;
        let kids_at = objects.len();
        objects.push(array(kids));
        objects[i + 1] = dictionary(vec![
            entry("Type", Value::Name(key("Pages"))),
            entry("Parent", Value::Reference(0)),
            entry("Kids", Value::Reference(kids_at)),
            entry("Count", Value::Integer(count)),
        ]);
    }
    let kids_at = objects.len();
    objects.push(array(vec![Value::Reference(1), Value::Reference(2)]));
    let mut root = vec![
        entry("Type", Value::Name(key("Pages"))),
        entry("Kids", Value::Reference(kids_at)),
        entry("Count", Value::Integer(pages as i64)),
    ];
    if let RotationPlacement::OnTheRoot(degrees) = rotation {
        root.push(entry("Rotate", Value::Integer(degrees)));
    }
    objects[0] = dictionary(root);
    Document { objects, pages: page_list, root: 0 }
}

fn value_of<'a>(d: &'a Document, node: usize, k: &str) -> Option<&'a Value> {
    match &d.objects.get(node)?.body {
        Body::Dictionary(entries) | Body::Stream(entries, _) => {
            entries.iter().find(|e| e.key == k.as_bytes()).map(|e| &e.value)
        }
        Body::Array(_) => None,
    }
}

/// The pages, in order, by the number their width gives them.
fn order_of(d: &Document) -> Vec<i64> {
    d.pages
        .iter()
        .map(|&page| match value_of(d, page, "MediaBox") {
            Some(Value::Reference(at)) => match &d.objects[*at].body {
                Body::Array(values) => match values[2] {
                    Value::Integer(width) => width - 100,
                    _ => panic!("a width that is not an integer"),
                },
                _ => panic!("a MediaBox that is not an array"),
            },
            _ => panic!("a page with no MediaBox of its own"),
        })
        .collect()
}

fn open(d: Document) -> QpdfSource {
    QpdfSource::open(d, Limits::defaults()).expect("the source opens")
}

fn is_blank(o: &Object) -> bool {
    o.direct && matches!(&o.body, Body::Array(v) if v.is_empty())
}

#[test]
fn a_run_comes_out_in_order_under_a_root_of_its_own() {
    let source = open(pdf_with_page_tree(6, RotationPlacement::Absent));
    let out = source.extract(1, 2).expect("pages 2 and 3 split out").document;
    assert_eq!(order_of(&out), vec![2, 3]);
    assert_eq!(out.root, out.objects.len() - 2);
    for &page in &out.pages {
        assert!(matches!(value_of(&out, page, "Parent"), Some(Value::Reference(r)) if *r == out.root));
    }
    assert!(matches!(value_of(&out, out.root, "Count"), Some(Value::Integer(2))));
}

#[test]
fn nothing_an_excluded_page_alone_reaches_is_in_the_output() {
    let source_doc = pdf_with_page_tree(6, RotationPlacement::Absent);
    let excluded_media = match value_of(&source_doc, source_doc.pages[5], "MediaBox") {
        Some(Value::Reference(at)) => *at,
        _ => panic!("the fixture gives every page a MediaBox"),
    };
    let excluded_page = source_doc.pages[5];
    let old_root = source_doc.root;
    let out = open(source_doc).extract(0, 2).unwrap().document;
    assert!(is_blank(&out.objects[excluded_media]), "an excluded page's MediaBox came along");
    assert!(is_blank(&out.objects[excluded_page]), "an excluded page came along");
    assert!(is_blank(&out.objects[old_root]), "the source's page tree came along");
}

#[test]
fn an_inherited_rotation_survives_the_split() {
    let source = open(pdf_with_page_tree(6, RotationPlacement::OnTheRoot(90)));
    let out = source.extract(2, 3).unwrap().document;
    let read = QpdfRotatable::open(out, Limits::defaults()).unwrap();
    for page in 0..3 {
        assert_eq!(read.effective_rotation(page).unwrap(), Rotation::Clockwise90);
    }
}

#[test]
fn a_run_outside_the_document_is_refused() {
    let source = open(pdf_with_page_tree(4, RotationPlacement::Absent));
    assert!(matches!(source.extract(0, 0), Err(Error::InvalidArgument(_))));
    assert!(matches!(source.extract(3, 2), Err(Error::InvalidArgument(_))));
    assert!(matches!(source.extract(u64::MAX, 2), Err(Error::InvalidArgument(_))));
}

#[test]
fn the_ceiling_is_the_one_the_source_was_opened_under() {
    let mut limits = Limits::defaults();
    limits.max_pages = 4;
    let source = QpdfSource::open(pdf_with_page_tree(4, RotationPlacement::Absent), limits).unwrap();
    assert!(source.extract(0, 4).is_ok());
    let mut tighter = limits;
    tighter.max_pages = 3;
    let source = QpdfSource::open(pdf_with_page_tree(3, RotationPlacement::Absent), tighter).unwrap();
    assert!(source.extract(0, 3).is_ok());
    let mut limits = Limits::defaults();
    limits.max_pages = 2;
    assert!(matches!(
        QpdfSource::open(pdf_with_page_tree(4, RotationPlacement::Absent), limits),
        Err(Error::LimitExceeded { .. })
    ));
}

/// Pages 0 and 2 share one `/Annots` array; page 1 has its own.
fn shared_annotations() -> Document {
    let mut d = pdf_with_page_tree(4, RotationPlacement::Absent);
    let shared = d.objects.len();
    d.objects.push(array(Vec::new()));
    let own = d.objects.len();
    d.objects.push(array(Vec::new()));
    for (page, annots) in [(0, shared), (2, shared), (1, own)] {
        let at = d.pages[page];
        if let Body::Dictionary(entries) = &mut d.objects[at].body {
            entries.push(entry("Annots", Value::Reference(annots)));
        }
    }
    d
}

#[test]
fn an_annotation_array_shared_with_an_excluded_page_is_ambiguous() {
    let source = open(shared_annotations());
    assert_eq!(source.extract(0, 2).unwrap().ambiguous, vec![true, false]);
    assert_eq!(source.extract(0, 3).unwrap().ambiguous, vec![false, false, false]);
    assert_eq!(source.extract(2, 2).unwrap().ambiguous, vec![true, false]);
}

#[test]
fn a_shared_annotation_array_is_copied_once() {
    let source = open(shared_annotations());
    let out = source.extract(0, 3).unwrap().document;
    let first = value_of(&out, out.pages[0], "Annots");
    let third = value_of(&out, out.pages[2], "Annots");
    assert!(matches!((first, third), (Some(Value::Reference(a)), Some(Value::Reference(b))) if a == b));
    let _ = BTreeSet::<usize>::new();
}
