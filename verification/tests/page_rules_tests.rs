//! The shared-contents refusal, resource scoping, object identities and decimal counts.

use burrow_engines::contents_rule::{check_contents_sharing, streams_reached, CutGlyph};
use burrow_engines::redact::StreamId;
use burrow_engines::decimal::decimal;
use burrow_engines::error::{Error, Result};
use burrow_engines::graph::{Body, Document, Entry, Object, Value};
use burrow_engines::limits::{Deadline, Limits, ManualClock};
use burrow_engines::redact::pack;
use burrow_engines::scope::{base_encoding, find_form, font_in_scope, form_handle, names, resources_of, within, BaseEncoding, ScopedFont};
use burrow_engines::sharing::{count_form_uses, FormUseCounts};
use burrow_engines::surgery::cut_fonts;
use burrow_engines::page_content::{annotations_to_examine, page_contents, page_stream_for_rewrite, pages_in_scope, write_back_contents, write_back_form};
use std::collections::BTreeSet;

/// A document under construction: object 0 is the root `/Pages` node.
struct Builder {
    objects: Vec<Object>,
    pages: Vec<usize>,
}

fn name(n: &str) -> Value {
    Value::Name(n.as_bytes().to_vec())
}

fn r(i: usize) -> Value {
    Value::Reference(i)
}

fn entries(pairs: Vec<(&str, Value)>) -> Vec<Entry> {
    pairs.into_iter().map(|(k, value)| Entry { key: k.as_bytes().to_vec(), value }).collect()
}

impl Builder {
    fn new() -> Self {
        Builder { objects: vec![Object { direct: false, body: Body::Dictionary(entries(vec![("Type", name("Pages"))])) }], pages: Vec::new() }
    }

    fn add(&mut self, body: Body) -> usize {
        self.objects.push(Object { direct: false, body });
        self.objects.len() - 1
    }

    fn dict(&mut self, pairs: Vec<(&str, Value)>) -> usize {
        self.add(Body::Dictionary(entries(pairs)))
    }

    fn array(&mut self, values: Vec<Value>) -> usize {
        self.add(Body::Array(values))
    }

    fn stream(&mut self, pairs: Vec<(&str, Value)>) -> usize {
        self.add(Body::Stream(entries(pairs), b"BT (x) Tj ET\n".to_vec()))
    }

    fn page(&mut self, extra: Vec<(&str, Value)>) -> usize {
        let mut pairs = vec![("Type", name("Page")), ("Parent", r(0))];
        pairs.extend(extra);
        let p = self.dict(pairs);
        self.pages.push(p);
        p
    }

    fn build(mut self, root_extra: Vec<(&str, Value)>) -> Document {
        let kids = self.array(self.pages.iter().map(|&p| r(p)).collect());
        let mut pairs = vec![("Type", name("Pages")), ("Kids", r(kids)), ("Count", Value::Integer(self.pages.len() as i64))];
        pairs.extend(root_extra);
        self.objects[0] = Object { direct: false, body: Body::Dictionary(entries(pairs)) };
        Document { objects: self.objects, pages: self.pages, root: 0 }
    }
}

fn count(d: &Document) -> FormUseCounts {
    count_form_uses(d, &Deadline::starting_at(0, &Limits::defaults()), &ManualClock::new(0)).expect("walks")
}

fn on_page(element: usize) -> CutGlyph {
    CutGlyph { form: None, element: Some(element) }
}

fn message(result: Result<()>) -> (String, bool) {
    match result {
        Err(Error::Malformed(m)) => (m, true),
        Err(Error::Internal(m)) => (m, false),
        other => panic!("expected a refusal, got {other:?}"),
    }
}

/// Two pages: the first draws `[letterhead, body]`, the second draws the letterhead too.
fn letterhead() -> (Document, usize, usize) {
    let mut b = Builder::new();
    let shared = b.stream(vec![]);
    let own = b.stream(vec![]);
    let contents = b.array(vec![r(shared), r(own)]);
    b.page(vec![("Contents", r(contents))]);
    b.page(vec![("Contents", r(shared))]);
    (b.build(vec![]), shared, own)
}

#[test]
fn a_cut_in_an_element_nothing_else_references_is_served() {
    let (d, shared, own) = letterhead();
    let counts = count(&d);
    check_contents_sharing(&[on_page(1)], &[shared, own], &counts, 0).expect("the body is this page's alone");
}

#[test]
fn a_cut_in_a_shared_element_is_refused_with_its_counts() {
    let (d, shared, own) = letterhead();
    let counts = count(&d);
    let (m, malformed) = message(check_contents_sharing(&[on_page(1), on_page(0)], &[shared, own], &counts, 0));
    assert!(malformed);
    assert_eq!(
        m,
        "pdf redaction [shared-contents]: the region reaches a content stream this document references 2 times, \
         across 1 other page(s); editing it would remove text from a page that was not selected"
    );
}

#[test]
fn a_stream_drawn_twice_by_one_page_is_shared() {
    let mut b = Builder::new();
    let content = b.stream(vec![]);
    let contents = b.array(vec![r(content), r(content)]);
    b.page(vec![("Contents", r(contents))]);
    let d = b.build(vec![]);
    let counts = count(&d);
    let (m, malformed) = message(check_contents_sharing(&[on_page(0)], &[content, content], &counts, 0));
    assert!(malformed);
    assert!(m.contains("references 2 times, across 0 other page(s)"), "{m}");
}

#[test]
fn a_glyph_a_form_drew_is_left_to_the_form_rule() {
    let (d, shared, own) = letterhead();
    let counts = count(&d);
    let drawn_by_form = CutGlyph { form: Some(9), element: None };
    check_contents_sharing(&[drawn_by_form], &[shared, own], &counts, 0).expect("not this rule's question");
    check_contents_sharing(&[], &[shared, own], &counts, 0).expect("nothing cut");
}

#[test]
fn a_glyph_in_no_element_is_an_internal_error() {
    let (d, shared, own) = letterhead();
    let counts = count(&d);
    let unplaced = CutGlyph { form: None, element: None };
    let (m, malformed) = message(check_contents_sharing(&[unplaced], &[shared, own], &counts, 0));
    assert!(!malformed);
    assert_eq!(m, "pdf redaction [contents-offset]: a glyph whose operation is not inside any /Contents element");
}

#[test]
fn the_first_obstacle_decides_the_refusal() {
    let (d, shared, own) = letterhead();
    let counts = count(&d);
    let (m, malformed) = message(check_contents_sharing(&[on_page(1), on_page(7), on_page(0)], &[shared, own], &counts, 0));
    assert!(!malformed, "an element index the page does not have comes first");
    assert_eq!(m, "pdf redaction [contents-offset]: an element index the page does not have");
}

fn font_with_encoding(b: &mut Builder, encoding: Option<Value>) -> usize {
    let mut pairs = vec![("Type", name("Font")), ("Subtype", name("Type1"))];
    if let Some(e) = encoding {
        pairs.push(("Encoding", e));
    }
    b.dict(pairs)
}

#[test]
fn a_font_names_its_base_encoding_directly_or_through_its_dictionary() {
    let mut b = Builder::new();
    let win = font_with_encoding(&mut b, Some(name("WinAnsiEncoding")));
    let mac = font_with_encoding(&mut b, Some(name("MacRomanEncoding")));
    let base = b.dict(vec![("BaseEncoding", name("WinAnsiEncoding"))]);
    let through = font_with_encoding(&mut b, Some(r(base)));
    let differences = b.array(vec![Value::Integer(65), name("A")]);
    let only_differences = b.dict(vec![("Differences", r(differences))]);
    let plain = font_with_encoding(&mut b, Some(r(only_differences)));
    let none = font_with_encoding(&mut b, None);
    b.page(vec![]);
    let d = b.build(vec![]);
    assert_eq!(base_encoding(&d, win), BaseEncoding::WinAnsi);
    assert_eq!(base_encoding(&d, mac), BaseEncoding::Standard);
    assert_eq!(base_encoding(&d, through), BaseEncoding::WinAnsi);
    assert_eq!(base_encoding(&d, plain), BaseEncoding::Standard);
    assert_eq!(base_encoding(&d, none), BaseEncoding::Standard);
}

#[test]
fn a_value_names_only_the_name_it_is() {
    assert!(names(Some(&name("Type3")), b"Type3"));
    assert!(!names(Some(&name("Type1")), b"Type3"));
    assert!(!names(Some(&Value::Text(b"Type3".to_vec())), b"Type3"));
    assert!(!names(None, b"Type3"));
}

#[test]
fn resources_are_the_pages_own_else_the_nearest_ancestors() {
    let mut b = Builder::new();
    let own = b.dict(vec![]);
    let inherited = b.dict(vec![]);
    let with_own = b.page(vec![("Resources", r(own))]);
    let without = b.page(vec![]);
    let d = b.build(vec![("Resources", r(inherited))]);
    assert_eq!(resources_of(&d, with_own), Some(own));
    assert_eq!(resources_of(&d, without), Some(inherited));
}

#[test]
fn a_page_tree_that_never_ends_gives_no_resources_rather_than_an_error() {
    let mut b = Builder::new();
    let page = b.page(vec![]);
    let mut d = b.build(vec![]);
    // The root's parent is the root: the climb runs out without finding resources.
    if let Body::Dictionary(e) = &mut d.objects[0].body {
        e.push(Entry { key: b"Parent".to_vec(), value: r(0) });
    }
    assert_eq!(resources_of(&d, page), None);
    let mut b = Builder::new();
    let lone = b.page(vec![]);
    let d = b.build(vec![]);
    assert_eq!(resources_of(&d, lone), None, "no ancestor declares any");
}

#[test]
fn a_form_with_its_own_resources_is_drawn_within_them() {
    let mut b = Builder::new();
    let own = b.dict(vec![]);
    let form = b.stream(vec![("Subtype", name("Form")), ("Resources", r(own))]);
    let bare = b.stream(vec![("Subtype", name("Form"))]);
    let not_a_stream = b.dict(vec![]);
    let xobjects = b.dict(vec![("Fm0", r(form)), ("Fm1", r(bare)), ("Odd", r(not_a_stream))]);
    let resources = b.dict(vec![("XObject", r(xobjects))]);
    b.page(vec![("Resources", r(resources))]);
    let d = b.build(vec![]);
    assert_eq!(within(&d, resources, b"Fm0"), Some(own));
    assert_eq!(within(&d, resources, b"Fm1"), None, "declares none, so it inherits");
    assert_eq!(within(&d, resources, b"Odd"), None);
    assert_eq!(within(&d, resources, b"Missing"), None);
}

/// A page whose `/F1` is one font, drawing a form whose own `/F1` is another.
struct Scopes {
    d: Document,
    resources: usize,
    page_font: usize,
    form_font: usize,
    form: usize,
    unlisted: usize,
}

fn two_scopes() -> Scopes {
    let mut b = Builder::new();
    let page_font = b.dict(vec![("Type", name("Font"))]);
    let form_font = b.dict(vec![("Type", name("Font"))]);
    let form_fonts = b.dict(vec![("F1", r(form_font))]);
    let form_resources = b.dict(vec![("Font", r(form_fonts))]);
    let form = b.stream(vec![("Subtype", name("Form")), ("Resources", r(form_resources))]);
    let unlisted = b.stream(vec![("Subtype", name("Form")), ("Resources", r(form_resources))]);
    let page_fonts = b.dict(vec![("F1", r(page_font)), ("F2", r(page_font))]);
    let xobjects = b.dict(vec![("Fm0", r(form))]);
    let resources = b.dict(vec![("Font", r(page_fonts)), ("XObject", r(xobjects))]);
    b.page(vec![("Resources", r(resources))]);
    Scopes { d: b.build(vec![]), resources, page_font, form_font, form, unlisted }
}

#[test]
fn a_font_resolves_in_the_stream_that_named_it() {
    let s = two_scopes();
    let in_form = ScopedFont { name: b"F1".to_vec(), drawn_in: Some(s.form) };
    assert_eq!(font_in_scope(&s.d, s.resources, &in_form).expect("resolves"), s.form_font);
    let on_page = ScopedFont { name: b"F1".to_vec(), drawn_in: None };
    assert_eq!(font_in_scope(&s.d, s.resources, &on_page).expect("resolves"), s.page_font);
    let outward = ScopedFont { name: b"F2".to_vec(), drawn_in: Some(s.form) };
    assert_eq!(font_in_scope(&s.d, s.resources, &outward).expect("resolves"), s.page_font, "the form's own lack it");
    let not_listed = ScopedFont { name: b"F1".to_vec(), drawn_in: Some(s.unlisted) };
    assert_eq!(font_in_scope(&s.d, s.resources, &not_listed).expect("resolves"), s.page_font, "a form the page does not list");
}

#[test]
fn a_font_in_neither_scope_is_an_internal_error() {
    let s = two_scopes();
    let missing = ScopedFont { name: b"F9".to_vec(), drawn_in: Some(s.form) };
    match font_in_scope(&s.d, s.resources, &missing) {
        Err(Error::Internal(m)) => assert!(m.starts_with("pdf resources:"), "{m}"),
        other => panic!("expected an internal error, got {other:?}"),
    }
}

#[test]
fn an_identity_packs_its_number_above_its_generation() {
    assert_eq!(pack((0, 0)), 0);
    assert_eq!(pack((12, 0)), 786_432);
    assert_eq!(pack((12, 3)), 786_435);
    assert_eq!(pack((-5, 70_000)), 5 * 65_536 + 4_464);
    assert_eq!(pack((i32::MIN, -1)), 2_147_483_648 * 65_536 + 1);
}

#[test]
fn counts_are_written_in_decimal() {
    assert_eq!(decimal(0), "0");
    assert_eq!(decimal(7), "7");
    assert_eq!(decimal(10), "10");
    assert_eq!(decimal(1_234_567_890), "1234567890");
    assert_eq!(decimal(u64::MAX), "18446744073709551615");
}

/// Page 0 draws fonts `only` and `shared`; page 1 draws `shared` too.
struct Fonts {
    d: Document,
    only: usize,
    shared: usize,
    only_widths: usize,
    only_differences: usize,
    shared_widths: usize,
}

fn fonts(first_char: i64) -> Fonts {
    let mut b = Builder::new();
    let only_widths = b.array(vec![Value::Integer(500), Value::Integer(600)]);
    let only_differences = b.array(vec![Value::Integer(97), name("a"), name("b")]);
    let encoding = b.dict(vec![("Differences", r(only_differences))]);
    let only = b.dict(vec![
        ("Type", name("Font")),
        ("FirstChar", Value::Integer(first_char)),
        ("Widths", r(only_widths)),
        ("Encoding", r(encoding)),
    ]);
    let shared_widths = b.array(vec![Value::Integer(700)]);
    let shared = b.dict(vec![("Type", name("Font")), ("FirstChar", Value::Integer(97)), ("Widths", r(shared_widths))]);
    let first_fonts = b.dict(vec![("F1", r(only)), ("F2", r(shared)), ("Odd", Value::Integer(3))]);
    let first_resources = b.dict(vec![("Font", r(first_fonts))]);
    let second_fonts = b.dict(vec![("F2", r(shared))]);
    let second_resources = b.dict(vec![("Font", r(second_fonts))]);
    let content = b.stream(vec![]);
    b.page(vec![("Resources", r(first_resources)), ("Contents", r(content))]);
    b.page(vec![("Resources", r(second_resources)), ("Contents", r(content))]);
    Fonts { d: b.build(vec![]), only, shared, only_widths, only_differences, shared_widths }
}

fn items(d: &Document, at: usize) -> Vec<Value> {
    match &d.objects[at].body {
        Body::Array(values) => values.clone(),
        other => panic!("not an array: {other:?}"),
    }
}

fn integers(values: &[Value]) -> Vec<Option<i64>> {
    values.iter().map(|v| if let Value::Integer(n) = v { Some(*n) } else { None }).collect()
}

#[test]
fn a_font_only_the_operation_draws_is_cut_and_a_shared_one_disclosed() {
    let mut f = fonts(97);
    let counts = count(&f.d);
    let page = f.d.pages[0];
    let redacted: BTreeSet<usize> = [0].into_iter().collect();
    let still = vec![(f.only as u64, vec![97u32])];
    let deadline = Deadline::starting_at(0, &Limits::defaults());
    let outcomes = cut_fonts(&mut f.d, page, &counts, &still, &redacted, &deadline, &ManualClock::new(0)).expect("cuts");
    assert_eq!(outcomes.len(), 2, "one outcome per font the page lists, and nothing for a name that is not a font");
    assert_eq!((outcomes[0].font, outcomes[0].cut, outcomes[0].also_used_by), (f.only as u64, true, 0));
    assert_eq!((outcomes[1].font, outcomes[1].cut, outcomes[1].also_used_by), (f.shared as u64, false, 1));
    assert_eq!(integers(&items(&f.d, f.only_widths)), vec![Some(500), Some(0)], "the width of the removed code is zeroed");
    let differences = items(&f.d, f.only_differences);
    assert_eq!(integers(&differences), vec![Some(97), None, Some(99)], "the removed name re-anchors the run");
    assert_eq!(integers(&items(&f.d, f.shared_widths)), vec![Some(700)], "the shared font is untouched");
}

#[test]
fn every_page_in_the_operation_lets_a_shared_font_be_cut() {
    let mut f = fonts(97);
    let counts = count(&f.d);
    let page = f.d.pages[0];
    let redacted: BTreeSet<usize> = [0, 1].into_iter().collect();
    let deadline = Deadline::starting_at(0, &Limits::defaults());
    let outcomes = cut_fonts(&mut f.d, page, &counts, &[], &redacted, &deadline, &ManualClock::new(0)).expect("cuts");
    assert!(outcomes.iter().all(|o| o.cut && o.also_used_by == 0));
    assert_eq!(integers(&items(&f.d, f.shared_widths)), vec![Some(0)], "nothing draws with it any more");
}

#[test]
fn a_font_that_cannot_be_narrowed_refuses_the_cut() {
    let mut f = fonts(-1);
    let counts = count(&f.d);
    let page = f.d.pages[0];
    let redacted: BTreeSet<usize> = [0].into_iter().collect();
    let deadline = Deadline::starting_at(0, &Limits::defaults());
    match cut_fonts(&mut f.d, page, &counts, &[], &redacted, &deadline, &ManualClock::new(0)) {
        Err(Error::Malformed(m)) => assert!(m.contains("[first-char]"), "{m}"),
        other => panic!("expected a refusal, got {other:?}"),
    }
}

#[test]
fn a_cut_past_its_deadline_changes_nothing() {
    let mut f = fonts(97);
    let counts = count(&f.d);
    let page = f.d.pages[0];
    let before = items(&f.d, f.only_widths);
    let redacted: BTreeSet<usize> = [0].into_iter().collect();
    let deadline = Deadline::starting_at(0, &Limits::defaults());
    let late = ManualClock::new(Limits::defaults().max_duration_ms + 1);
    match cut_fonts(&mut f.d, page, &counts, &[], &redacted, &deadline, &late) {
        Err(Error::LimitExceeded { limit, .. }) => assert_eq!(limit, "max_duration_ms"),
        other => panic!("expected the deadline, got {other:?}"),
    }
    assert_eq!(integers(&items(&f.d, f.only_widths)), integers(&before));
}

fn read(d: &Document, page: usize, limits: &Limits) -> Result<Option<(Vec<Vec<u8>>, Vec<usize>)>> {
    page_contents(d, page, limits, &Deadline::starting_at(0, limits), &ManualClock::new(0))
}

fn with_data(b: &mut Builder, data: &[u8]) -> usize {
    b.add(Body::Stream(Vec::new(), data.to_vec()))
}

#[test]
fn a_page_with_no_contents_is_blank_rather_than_malformed() {
    let mut b = Builder::new();
    let page = b.page(vec![]);
    let nulled = b.page(vec![("Contents", Value::Null)]);
    let d = b.build(vec![]);
    assert!(read(&d, page, &Limits::defaults()).expect("blank").is_none());
    assert!(read(&d, nulled, &Limits::defaults()).expect("blank").is_none());
}

#[test]
fn contents_come_back_element_by_element_with_their_objects() {
    let mut b = Builder::new();
    let one = with_data(&mut b, b"BT (a) Tj ET");
    let two = with_data(&mut b, b"BT (b) Tj ET");
    let contents = b.array(vec![r(one), r(two), r(one)]);
    let array_page = b.page(vec![("Contents", r(contents))]);
    let stream_page = b.page(vec![("Contents", r(two))]);
    let d = b.build(vec![]);
    let (bodies, elements) = read(&d, array_page, &Limits::defaults()).expect("reads").expect("has contents");
    assert_eq!(elements, vec![one, two, one], "a repeat is an element of its own");
    assert_eq!(bodies, vec![b"BT (a) Tj ET".to_vec(), b"BT (b) Tj ET".to_vec(), b"BT (a) Tj ET".to_vec()]);
    let (bodies, elements) = read(&d, stream_page, &Limits::defaults()).expect("reads").expect("has contents");
    assert_eq!((bodies, elements), (vec![b"BT (b) Tj ET".to_vec()], vec![two]));
}

#[test]
fn contents_that_are_not_streams_are_refused_not_skipped() {
    let mut b = Builder::new();
    let one = with_data(&mut b, b"q Q");
    let mixed = b.array(vec![r(one), Value::Integer(4)]);
    let dictionary = b.dict(vec![]);
    let mixed_page = b.page(vec![("Contents", r(mixed))]);
    let dictionary_page = b.page(vec![("Contents", r(dictionary))]);
    let name_page = b.page(vec![("Contents", name("Nothing"))]);
    let d = b.build(vec![]);
    for page in [mixed_page, dictionary_page, name_page] {
        match read(&d, page, &Limits::defaults()) {
            Err(Error::Malformed(m)) => assert!(m.contains("[contents-not-a-stream]"), "{m}"),
            other => panic!("expected a refusal, got {other:?}"),
        }
    }
}

#[test]
fn contents_decoding_past_the_memory_ceiling_are_refused() {
    let mut b = Builder::new();
    let one = with_data(&mut b, b"0123456");
    let contents = b.array(vec![r(one), r(one)]);
    let page = b.page(vec![("Contents", r(contents))]);
    let d = b.build(vec![]);
    let mut limits = Limits::defaults();
    limits.max_memory_bytes = 14;
    read(&d, page, &limits).expect("fourteen bytes is at the ceiling, not past it");
    limits.max_memory_bytes = 13;
    match read(&d, page, &limits) {
        Err(Error::Unsupported(m)) => assert_eq!(
            m,
            "pdf redaction [contents-too-large]: a page whose /Contents decodes to more than the 13 bytes this operation will hold"
        ),
        other => panic!("expected a refusal, got {other:?}"),
    }
}

#[test]
fn reading_contents_past_the_deadline_is_refused() {
    let mut b = Builder::new();
    let one = with_data(&mut b, b"q Q");
    let page = b.page(vec![("Contents", r(one))]);
    let d = b.build(vec![]);
    let limits = Limits::defaults();
    let late = ManualClock::new(limits.max_duration_ms + 1);
    match page_contents(&d, page, &limits, &Deadline::starting_at(0, &limits), &late) {
        Err(Error::LimitExceeded { limit, .. }) => assert_eq!(limit, "max_duration_ms"),
        other => panic!("expected the deadline, got {other:?}"),
    }
}

#[test]
fn a_form_is_found_by_identity_among_the_pages_forms() {
    let s = two_scopes();
    assert_eq!(form_handle(&s.d, s.resources, s.form).expect("listed"), s.form);
    assert_eq!(find_form(&s.d, s.resources, s.form).expect("listed"), b"BT (x) Tj ET\n".to_vec());
    for missing in [s.unlisted, s.page_font, 999] {
        match find_form(&s.d, s.resources, missing) {
            Err(Error::Malformed(m)) => {
                assert_eq!(m, "pdf redaction [form-vanished]: a form the walk found is not in the page's resources")
            },
            other => panic!("expected a refusal, got {other:?}"),
        }
    }
}

fn data(d: &Document, at: usize) -> (Vec<Vec<u8>>, Vec<u8>) {
    match &d.objects[at].body {
        Body::Stream(entries, bytes) => (entries.iter().map(|e| e.key.clone()).collect(), bytes.clone()),
        other => panic!("not a stream: {other:?}"),
    }
}

#[test]
fn a_cut_is_written_back_element_by_element_without_a_filter() {
    let mut b = Builder::new();
    let one = b.add(Body::Stream(
        entries(vec![("Filter", name("FlateDecode")), ("DecodeParms", Value::Null), ("Length", Value::Integer(9))]),
        b"BT (ab) Tj ET".to_vec(),
    ));
    let two = with_data(&mut b, b"BT (cd) Tj ET");
    let contents = b.array(vec![r(one), r(two)]);
    let page = b.page(vec![("Contents", r(contents))]);
    let mut d = b.build(vec![]);
    write_back_contents(&mut d, &[one, two], vec![b"BT (a) Tj ET".to_vec(), b"BT () Tj ET".to_vec()]).expect("writes");
    assert_eq!(data(&d, one), (vec![b"Length".to_vec()], b"BT (a) Tj ET".to_vec()), "stored without its filter");
    assert_eq!(data(&d, two).1, b"BT () Tj ET".to_vec());
    match &d.objects[contents].body {
        Body::Array(values) => assert_eq!(values.len(), 2, "the array is not collapsed"),
        other => panic!("not an array: {other:?}"),
    }
    let (bodies, elements) = read(&d, page, &Limits::defaults()).expect("reads").expect("has contents");
    assert_eq!(elements, vec![one, two]);
    assert_eq!(bodies[0], b"BT (a) Tj ET".to_vec());
}

#[test]
fn a_cut_in_the_wrong_number_of_parts_writes_nothing() {
    let mut b = Builder::new();
    let one = with_data(&mut b, b"q Q");
    b.page(vec![("Contents", r(one))]);
    let mut d = b.build(vec![]);
    match write_back_contents(&mut d, &[one], vec![b"a".to_vec(), b"b".to_vec()]) {
        Err(Error::Internal(m)) => {
            assert_eq!(m, "pdf redaction: the splice returned a different number of streams than the page has elements")
        },
        other => panic!("expected an internal error, got {other:?}"),
    }
    assert_eq!(data(&d, one).1, b"q Q".to_vec());
}

#[test]
fn a_cut_form_is_written_back_only_when_the_page_lists_it() {
    let mut s = two_scopes();
    write_back_form(&mut s.d, s.resources, s.form, b"q Q".to_vec()).expect("listed");
    assert_eq!(data(&s.d, s.form).1, b"q Q".to_vec());
    match write_back_form(&mut s.d, s.resources, s.unlisted, b"q Q".to_vec()) {
        Err(Error::Malformed(m)) => assert!(m.contains("[form-vanished]"), "{m}"),
        other => panic!("expected a refusal, got {other:?}"),
    }
    assert_eq!(data(&s.d, s.unlisted).1, b"BT (x) Tj ET\n".to_vec());
}

#[test]
fn each_stream_the_region_reaches_is_rewritten_once_page_first() {
    let glyphs = [
        CutGlyph { form: Some(40), element: None },
        CutGlyph { form: None, element: Some(0) },
        CutGlyph { form: Some(7), element: None },
        CutGlyph { form: Some(40), element: None },
        CutGlyph { form: None, element: Some(1) },
    ];
    assert_eq!(streams_reached(&glyphs), vec![StreamId::Page, StreamId::Object(7), StreamId::Object(40)]);
    assert_eq!(streams_reached(&[]), Vec::<StreamId>::new());
    assert_eq!(streams_reached(&glyphs[2..3]), vec![StreamId::Object(7)]);
}

#[test]
fn the_page_stream_of_a_page_with_no_contents_cannot_be_rewritten() {
    let mut b = Builder::new();
    let page = b.page(vec![]);
    let d = b.build(vec![]);
    let limits = Limits::defaults();
    match page_stream_for_rewrite(&d, page, &limits, &Deadline::starting_at(0, &limits), &ManualClock::new(0)) {
        Err(Error::Internal(m)) => assert_eq!(m, "pdf redaction: a page stream to rewrite on a page with no /Contents"),
        other => panic!("expected an internal refusal, got {other:?}"),
    }
}

#[test]
fn the_page_stream_of_a_page_with_contents_is_read_for_rewriting() {
    let mut b = Builder::new();
    let content = with_data(&mut b, b"BT ET");
    let page = b.page(vec![("Contents", r(content))]);
    let d = b.build(vec![]);
    let limits = Limits::defaults();
    let (bodies, elements) =
        page_stream_for_rewrite(&d, page, &limits, &Deadline::starting_at(0, &limits), &ManualClock::new(0)).unwrap();
    assert_eq!(elements, vec![content]);
    assert_eq!(bodies, vec![b"BT ET".to_vec()]);
}

#[test]
fn the_edited_page_is_always_in_scope_and_the_scope_is_in_order() {
    let mut b = Builder::new();
    for _ in 0..4 {
        b.page(vec![]);
    }
    let d = b.build(vec![]);
    let redacted: BTreeSet<usize> = [3, 0].into_iter().collect();
    assert_eq!(pages_in_scope(&d, 2, &redacted).unwrap(), vec![0, 2, 3]);
    assert_eq!(pages_in_scope(&d, 3, &redacted).unwrap(), vec![0, 3]);
    assert_eq!(pages_in_scope(&d, 1, &BTreeSet::new()).unwrap(), vec![1]);
}

#[test]
fn a_scope_past_the_last_page_is_refused() {
    let mut b = Builder::new();
    b.page(vec![]);
    b.page(vec![]);
    let d = b.build(vec![]);
    let out_of_range = "pdf redaction [page-out-of-range]: the operation covers a page the document does not have";
    let redacted: BTreeSet<usize> = [1, 2].into_iter().collect();
    match pages_in_scope(&d, 0, &redacted) {
        Err(Error::InvalidArgument(m)) => assert_eq!(m, out_of_range),
        other => panic!("expected an out-of-range refusal, got {other:?}"),
    }
    match pages_in_scope(&d, 2, &BTreeSet::new()) {
        Err(Error::InvalidArgument(m)) => assert_eq!(m, out_of_range),
        other => panic!("expected an out-of-range refusal, got {other:?}"),
    }
}

#[test]
fn annotations_are_examined_last_first_passing_over_what_is_not_a_dictionary() {
    let mut b = Builder::new();
    let first = b.dict(vec![("Subtype", name("Link"))]);
    let appearance = b.stream(vec![]);
    let second = b.dict(vec![("Subtype", name("Text"))]);
    let annots = b.array(vec![r(first), Value::Null, r(appearance), r(second), Value::Integer(3)]);
    let page = b.page(vec![("Annots", r(annots))]);
    let bare = b.page(vec![]);
    let d = b.build(vec![]);
    assert_eq!(annotations_to_examine(&d, page).unwrap(), vec![3, 0]);
    assert_eq!(annotations_to_examine(&d, bare).unwrap(), Vec::<usize>::new());
}

#[test]
fn an_annots_array_past_the_ceiling_is_refused() {
    let mut b = Builder::new();
    let annots = b.array(vec![Value::Null; 65_537]);
    let page = b.page(vec![("Annots", r(annots))]);
    let d = b.build(vec![]);
    match annotations_to_examine(&d, page) {
        Err(Error::Unsupported(m)) => assert_eq!(m, "pdf redaction [annots-too-long]: an /Annots array longer than burrow will examine"),
        other => panic!("expected an annots-too-long refusal, got {other:?}"),
    }
    let mut b = Builder::new();
    let annots = b.array(vec![Value::Null; 65_536]);
    let page = b.page(vec![("Annots", r(annots))]);
    let d = b.build(vec![]);
    assert_eq!(annotations_to_examine(&d, page).unwrap(), Vec::<usize>::new());
}
