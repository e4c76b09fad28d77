//! Font surgery on `/Differences` and `/Widths`.

use std::collections::BTreeSet;

use burrow_engines::error::Error;
use burrow_engines::graph::{Body, Document, Entry, Object, Value};
use burrow_engines::limits::{Deadline, Limits, ManualClock};
use burrow_engines::narrow::{
    differences_by_font, differences_codes, mapped_differences, narrow_differences_items, narrow_font,
    narrow_widths_items,
};

fn name(n: &str) -> Value {
    Value::Name(n.as_bytes().to_vec())
}

fn keeps(codes: &[u32]) -> BTreeSet<u32> {
    codes.iter().copied().collect()
}

fn describe(values: &[Value]) -> Vec<String> {
    values
        .iter()
        .map(|v| match v {
            Value::Integer(n) => n.to_string(),
            Value::Name(n) => format!("/{}", String::from_utf8_lossy(n)),
            other => format!("{other:?}"),
        })
        .collect()
}

#[test]
fn a_removed_name_becomes_the_next_code_and_the_run_stays_anchored() {
    let items = vec![Value::Integer(1), name("a"), name("b"), name("c")];
    let out = narrow_differences_items(&items, &keeps(&[1, 3])).unwrap();
    assert_eq!(describe(&out), vec!["1", "/a", "3", "/c"]);
}

#[test]
fn only_the_last_name_at_a_code_survives() {
    let items = vec![
        Value::Integer(0),
        name("S"),
        Value::Integer(0),
        name("e"),
        Value::Integer(0),
        name("c"),
        Value::Integer(0),
        name("r"),
    ];
    let out = narrow_differences_items(&items, &keeps(&[0])).unwrap();
    assert_eq!(describe(&out), vec!["0", "1", "0", "1", "0", "1", "0", "/r"]);
}

#[test]
fn nothing_kept_leaves_no_name() {
    let items = vec![Value::Integer(65), name("S"), name("e"), name("c")];
    let out = narrow_differences_items(&items, &keeps(&[])).unwrap();
    assert_eq!(describe(&out), vec!["65", "66", "67", "68"]);
}

#[test]
fn an_anchor_outside_the_codes_is_malformed_rather_than_folded_onto_zero() {
    let items = vec![Value::Integer(-1), name("S"), name("e")];
    assert!(matches!(narrow_differences_items(&items, &keeps(&[0])), Err(Error::Malformed(_))));
    let items = vec![Value::Integer(1 << 32), name("S")];
    assert!(matches!(narrow_differences_items(&items, &keeps(&[0])), Err(Error::Malformed(_))));
}

#[test]
fn a_differences_array_past_the_ceiling_is_refused() {
    let items = vec![Value::Integer(0); 65_537];
    assert!(matches!(narrow_differences_items(&items, &keeps(&[0])), Err(Error::Unsupported(_))));
}

#[test]
fn a_width_not_kept_is_zeroed_in_place() {
    let items = vec![Value::Integer(500), Value::Integer(600), Value::Integer(700)];
    let out = narrow_widths_items(&items, 65, &keeps(&[66])).unwrap();
    assert_eq!(describe(&out), vec!["0", "600", "0"]);
}

fn entry(k: &str, value: Value) -> Entry {
    Entry { key: k.as_bytes().to_vec(), value }
}

/// A font whose `/Encoding` dictionary has `/Differences [65 /S /e /c]` and whose `/Widths`
/// starts at `first_char`.
fn font(first_char: Value) -> Document {
    let objects = vec![
        Object { direct: false, body: Body::Dictionary(vec![entry("Type", name("Pages"))]) },
        Object {
            direct: false,
            body: Body::Dictionary(vec![
                entry("Type", name("Font")),
                entry("Encoding", Value::Reference(2)),
                entry("Widths", Value::Reference(4)),
                entry("FirstChar", first_char),
            ]),
        },
        Object { direct: false, body: Body::Dictionary(vec![entry("Differences", Value::Reference(3))]) },
        Object { direct: true, body: Body::Array(vec![Value::Integer(65), name("S"), name("e"), name("c")]) },
        Object {
            direct: true,
            body: Body::Array(vec![Value::Integer(10), Value::Integer(20), Value::Integer(30)]),
        },
    ];
    Document { objects, pages: Vec::new(), root: 0 }
}

fn items(d: &Document, at: usize) -> Vec<String> {
    match &d.objects[at].body {
        Body::Array(vs) => describe(vs),
        _ => panic!("not an array"),
    }
}

#[test]
fn a_font_is_narrowed_through_its_encoding_and_its_widths() {
    let mut d = font(Value::Integer(65));
    narrow_font(&mut d, 1, &keeps(&[66])).unwrap();
    assert_eq!(items(&d, 3), vec!["65", "66", "/e", "68"]);
    assert_eq!(items(&d, 4), vec!["0", "20", "0"]);
}

#[test]
fn a_first_char_that_is_not_a_code_is_malformed() {
    let mut d = font(Value::Integer(-5));
    assert!(matches!(narrow_font(&mut d, 1, &keeps(&[66])), Err(Error::Malformed(_))));
}

#[test]
fn the_read_back_finds_each_named_code() {
    let items = vec![Value::Integer(65), name("A"), name("B"), Value::Integer(70), name("C")];
    assert_eq!(differences_codes(&items), keeps(&[65, 66, 70]));
}

#[test]
fn the_read_back_passes_over_an_anchor_that_is_not_a_code() {
    let items = vec![Value::Integer(-1), name("A"), Value::Integer(4_294_967_296), name("B")];
    assert_eq!(differences_codes(&items), keeps(&[0, 1]), "skipped rather than folded onto zero");
    let saturated = vec![Value::Integer(4_294_967_295), name("A"), name("B")];
    assert_eq!(differences_codes(&saturated), keeps(&[4_294_967_295]));
}

#[test]
fn after_narrowing_the_read_back_finds_only_kept_codes() {
    let items = vec![Value::Integer(1), name("a"), name("b"), name("c"), Value::Integer(1), name("z")];
    let kept = keeps(&[1, 3]);
    let out = narrow_differences_items(&items, &kept).unwrap();
    let before = differences_codes(&items);
    assert_eq!(before, keeps(&[1, 2, 3]));
    assert_eq!(differences_codes(&out), before.intersection(&kept).copied().collect::<BTreeSet<u32>>());
}

#[test]
fn a_fonts_mapped_codes_come_through_its_encoding() {
    let d = font(Value::Integer(65));
    assert_eq!(mapped_differences(&d, 1), keeps(&[65, 66, 67]));
    assert_eq!(mapped_differences(&d, 2), keeps(&[]), "a dictionary with no /Encoding maps nothing");
}

/// The `font` document with a page, object 5, whose resources name font 1 twice, a font
/// with no `/Encoding` (object 6), and a name that is not a font dictionary.
fn page_with_fonts() -> Document {
    let mut d = font(Value::Integer(65));
    d.objects.push(Object {
        direct: false,
        body: Body::Dictionary(vec![
            entry("Type", name("Page")),
            entry("Parent", Value::Reference(0)),
            entry("Resources", Value::Reference(7)),
        ]),
    });
    d.objects.push(Object { direct: false, body: Body::Dictionary(vec![entry("Type", name("Font"))]) });
    d.objects.push(Object { direct: false, body: Body::Dictionary(vec![entry("Font", Value::Reference(8))]) });
    d.objects.push(Object {
        direct: false,
        body: Body::Dictionary(vec![
            entry("F1", Value::Reference(1)),
            entry("F2", Value::Reference(6)),
            entry("F3", Value::Reference(1)),
            entry("F4", Value::Integer(7)),
        ]),
    });
    d.pages.push(5);
    d
}

#[test]
fn each_font_a_page_draws_against_maps_its_differences() {
    let d = page_with_fonts();
    let deadline = Deadline::starting_at(0, &Limits::defaults());
    let by_font = differences_by_font(&d, 5, &deadline, &ManualClock::new(0)).unwrap();
    assert_eq!(by_font.keys().copied().collect::<Vec<usize>>(), vec![1, 6], "one entry per font object, not per name");
    assert_eq!(by_font[&1], keeps(&[65, 66, 67]));
    assert_eq!(by_font[&6], keeps(&[]), "a font with no /Differences maps nothing through them");
}

#[test]
fn a_page_with_no_fonts_maps_nothing() {
    let d = font(Value::Integer(65));
    let deadline = Deadline::starting_at(0, &Limits::defaults());
    assert!(differences_by_font(&d, 1, &deadline, &ManualClock::new(0)).unwrap().is_empty());
}

#[test]
fn the_font_loop_is_held_to_the_deadline() {
    let d = page_with_fonts();
    let mut limits = Limits::defaults();
    limits.max_duration_ms = 10;
    let deadline = Deadline::starting_at(0, &limits);
    assert!(matches!(
        differences_by_font(&d, 5, &deadline, &ManualClock::new(11)),
        Err(Error::LimitExceeded { limit: "max_duration_ms", .. })
    ));
}
