//! The engine as a whole: its name, the ceilings opening applies, and page lookups.

use burrow_engines::engine::{open_document, page_object, Qpdf};
use burrow_engines::error::Error;
use burrow_engines::graph::{Body, Document, Entry, Object, Value};
use burrow_engines::limits::Limits;

fn entry(k: &str, value: Value) -> Entry {
    Entry { key: k.as_bytes().to_vec(), value }
}

/// A document of `n` pages directly under the root.
fn pages(n: usize) -> Document {
    let mut objects = vec![Object { direct: false, body: Body::Dictionary(Vec::new()) }];
    let mut pages = Vec::new();
    for _ in 0..n {
        objects.push(Object {
            direct: false,
            body: Body::Dictionary(vec![entry("Type", Value::Name(b"Page".to_vec())), entry("Parent", Value::Reference(0))]),
        });
        pages.push(objects.len() - 1);
    }
    let kids: Vec<Value> = pages.iter().map(|&p| Value::Reference(p)).collect();
    objects.push(Object { direct: true, body: Body::Array(kids) });
    let kids_at = objects.len() - 1;
    objects[0].body = Body::Dictionary(vec![
        entry("Type", Value::Name(b"Pages".to_vec())),
        entry("Kids", Value::Reference(kids_at)),
        entry("Count", Value::Integer(n as i64)),
    ]);
    Document { objects, pages, root: 0 }
}

#[test]
fn the_engine_names_itself() {
    assert_eq!(Qpdf::new().name(), "qpdf");
}

#[test]
fn too_many_pages_is_a_limit_error() {
    let mut limits = Limits::defaults();
    limits.max_pages = 2;
    match open_document(&pages(5), &limits) {
        Err(Error::LimitExceeded { limit, requested, .. }) => {
            assert_eq!(limit, "max_pages");
            assert_eq!(requested, 5);
        },
        other => panic!("expected LimitExceeded, got {other:?}"),
    }
    assert_eq!(open_document(&pages(2), &limits).expect("at the ceiling"), 2);
}

#[test]
fn a_page_past_the_end_is_refused_by_the_lookup_itself() {
    let d = pages(3);
    for past in [3u64, 4, usize::MAX as u64] {
        let refused = page_object(&d, past);
        assert!(matches!(refused, Err(Error::InvalidArgument(_))), "page {past} of 3 was not refused: {refused:?}");
    }
    assert_eq!(page_object(&d, 2).expect("page 2 of 3 exists"), d.pages[2]);
}
