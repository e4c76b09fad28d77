//! The resource-graph walk behind the sharing refusal.

use std::collections::BTreeSet;

use burrow_engines::error::{Error, Result};
use burrow_engines::graph::{Body, Document, Entry, Object, Value};
use burrow_engines::limits::{Deadline, Limits, ManualClock};
use burrow_engines::sharing::{count_form_uses, FormUseCounts, MAX_CONTENTS_ELEMENTS, MAX_RESOURCE_DEPTH};

/// A document under construction: object 0 is the root `/Pages` node.
struct Builder {
    objects: Vec<Object>,
    pages: Vec<usize>,
}

fn name(n: &str) -> Value {
    Value::Name(n.as_bytes().to_vec())
}

fn r(i: usize) -> Value {
    Value::Reference(i)
}

fn entries(pairs: Vec<(&str, Value)>) -> Vec<Entry> {
    pairs.into_iter().map(|(k, value)| Entry { key: k.as_bytes().to_vec(), value }).collect()
}

impl Builder {
    fn new() -> Self {
        Builder { objects: vec![Object { direct: false, body: Body::Dictionary(entries(vec![("Type", name("Pages"))])) }], pages: Vec::new() }
    }

    fn add(&mut self, body: Body) -> usize {
        self.objects.push(Object { direct: false, body });
        self.objects.len() - 1
    }

    fn dict(&mut self, pairs: Vec<(&str, Value)>) -> usize {
        self.add(Body::Dictionary(entries(pairs)))
    }

    fn array(&mut self, values: Vec<Value>) -> usize {
        self.add(Body::Array(values))
    }

    fn stream(&mut self, pairs: Vec<(&str, Value)>) -> usize {
        self.add(Body::Stream(entries(pairs), b"q Q\n".to_vec()))
    }

    fn form(&mut self) -> usize {
        self.stream(vec![("Type", name("XObject")), ("Subtype", name("Form"))])
    }

    /// A form whose own resources name `inner` under `as_name`.
    fn form_drawing(&mut self, as_name: &str, inner: usize) -> usize {
        let xo = self.dict(vec![(as_name, r(inner))]);
        let res = self.dict(vec![("XObject", r(xo))]);
        self.stream(vec![("Type", name("XObject")), ("Subtype", name("Form")), ("Resources", r(res))])
    }

    /// Resources naming forms under `XObject`.
    fn xobjects(&mut self, forms: Vec<(&str, usize)>) -> usize {
        let xo = self.dict(forms.into_iter().map(|(n, f)| (n, r(f))).collect());
        self.dict(vec![("XObject", r(xo))])
    }

    /// Resources naming fonts under `Font`.
    fn fonts(&mut self, fonts: Vec<(&str, usize)>) -> usize {
        let f = self.dict(fonts.into_iter().map(|(n, f)| (n, r(f))).collect());
        self.dict(vec![("Font", r(f))])
    }

    fn simple_font(&mut self) -> usize {
        let widths = self.array(vec![Value::Integer(500), Value::Integer(500)]);
        self.dict(vec![
            ("Type", name("Font")),
            ("Subtype", name("Type1")),
            ("FirstChar", Value::Integer(97)),
            ("Widths", r(widths)),
        ])
    }

    /// A page under the root, with these extra entries.
    fn page(&mut self, extra: Vec<(&str, Value)>) -> usize {
        let mut pairs = vec![("Type", name("Page")), ("Parent", r(0))];
        pairs.extend(extra);
        let p = self.dict(pairs);
        self.pages.push(p);
        p
    }

    fn build(mut self, root_extra: Vec<(&str, Value)>) -> Document {
        let kids = self.array(self.pages.iter().map(|&p| r(p)).collect());
        let mut pairs = vec![("Type", name("Pages")), ("Kids", r(kids)), ("Count", Value::Integer(self.pages.len() as i64))];
        pairs.extend(root_extra);
        self.objects[0] = Object { direct: false, body: Body::Dictionary(entries(pairs)) };
        Document { objects: self.objects, pages: self.pages, root: 0 }
    }
}

fn count(d: &Document) -> Result<FormUseCounts> {
    count_form_uses(d, &Deadline::starting_at(0, &Limits::defaults()), &ManualClock::new(0))
}

fn assert_named(error: &Error, rule: &str) {
    let message = match error {
        Error::Unsupported(message) | Error::Malformed(message) => message,
        other => panic!("expected a refusal naming `{rule}`, got {other:?}"),
    };
    assert!(message.contains(&format!("[{rule}]")), "refused, but by a different rule: wanted `{rule}`, got `{message}`");
}

fn pages_set(pages: &[usize]) -> BTreeSet<usize> {
    pages.iter().copied().collect()
}

#[test]
fn a_form_reached_only_through_inherited_resources_is_counted_per_page() {
    let mut b = Builder::new();
    let content = b.stream(vec![]);
    let form = b.form();
    let resources = b.xobjects(vec![("Fm0", form)]);
    b.page(vec![("Contents", r(content))]);
    b.page(vec![("Contents", r(content))]);
    let d = b.build(vec![("Resources", r(resources))]);
    let counts = count(&d).expect("walks");
    assert_eq!(counts.uses(form), 2, "the form is drawn by both pages through the inherited dictionary");
}

#[test]
fn a_page_with_its_own_resources_does_not_also_inherit() {
    let mut b = Builder::new();
    let content = b.stream(vec![]);
    let inherited = b.form();
    let own = b.form();
    let inherited_resources = b.xobjects(vec![("Fm0", inherited)]);
    let own_resources = b.xobjects(vec![("FmOwn", own)]);
    b.page(vec![("Resources", r(own_resources)), ("Contents", r(content))]);
    let d = b.build(vec![("Resources", r(inherited_resources))]);
    let counts = count(&d).expect("walks");
    assert_eq!(counts.uses(own), 1, "the page's own form");
    assert_eq!(counts.uses(inherited), 0, "the ancestor's form is shadowed, not additionally counted");
}

#[test]
fn an_annotation_appearance_is_counted_as_a_use() {
    let mut b = Builder::new();
    let content = b.stream(vec![]);
    let form = b.form();
    let resources = b.xobjects(vec![("Fm0", form)]);
    let appearances = b.dict(vec![("N", r(form))]);
    let annotation = b.dict(vec![("Type", name("Annot")), ("Subtype", name("Widget")), ("AP", r(appearances))]);
    let annots = b.array(vec![r(annotation)]);
    b.page(vec![("Resources", r(resources)), ("Contents", r(content)), ("Annots", r(annots))]);
    let d = b.build(vec![]);
    let counts = count(&d).expect("walks");
    assert_eq!(counts.uses(form), 2, "the page draws it and the annotation's appearance is it");
}

#[test]
fn a_form_reached_only_through_a_type_three_font_is_counted() {
    let mut b = Builder::new();
    let content = b.stream(vec![]);
    let form = b.form();
    let procedure = b.stream(vec![]);
    let procs = b.dict(vec![("a", r(procedure))]);
    let font_resources = b.xobjects(vec![("Fm0", form)]);
    let type_three = b.dict(vec![
        ("Type", name("Font")),
        ("Subtype", name("Type3")),
        ("CharProcs", r(procs)),
        ("Resources", r(font_resources)),
    ]);
    let xo = b.dict(vec![("Fm0", r(form))]);
    let fonts = b.dict(vec![("T3", r(type_three))]);
    let resources = b.dict(vec![("XObject", r(xo)), ("Font", r(fonts))]);
    b.page(vec![("Resources", r(resources)), ("Contents", r(content))]);
    let d = b.build(vec![]);
    let counts = count(&d).expect("walks");
    assert_eq!(counts.uses(form), 2, "once from the page and once from the Type 3 font's resources");
}

#[test]
fn a_form_nested_inside_a_shared_form_is_counted_as_shared() {
    let mut b = Builder::new();
    let content = b.stream(vec![]);
    let inner = b.form();
    let outer = b.form_drawing("FmB", inner);
    let resources = b.xobjects(vec![("FmA", outer)]);
    b.page(vec![("Resources", r(resources)), ("Contents", r(content))]);
    b.page(vec![("Resources", r(resources)), ("Contents", r(content))]);
    let d = b.build(vec![]);
    let counts = count(&d).expect("walks");
    assert_eq!(counts.uses(outer), 2, "the outer form is drawn by both pages");
    assert_eq!(counts.uses(inner), 2, "and the inner form is reached through it from both");
}

#[test]
fn a_form_nested_inside_an_unshared_form_stays_unshared() {
    let mut b = Builder::new();
    let content = b.stream(vec![]);
    let inner = b.form();
    let outer = b.form_drawing("FmB", inner);
    let resources = b.xobjects(vec![("FmA", outer)]);
    b.page(vec![("Resources", r(resources)), ("Contents", r(content))]);
    let d = b.build(vec![]);
    let counts = count(&d).expect("walks");
    assert_eq!(counts.uses(outer), 1);
    assert_eq!(counts.uses(inner), 1, "one page, one reference each -- nothing here is shared");
}

#[test]
fn a_form_drawn_twice_by_one_container_counts_twice() {
    let mut b = Builder::new();
    let content = b.stream(vec![]);
    let form = b.form();
    let resources = b.xobjects(vec![("FmA", form), ("FmAlias", form)]);
    b.page(vec![("Resources", r(resources)), ("Contents", r(content))]);
    let d = b.build(vec![]);
    let counts = count(&d).expect("walks");
    assert_eq!(counts.uses(form), 2, "two names, one object -- counted by identity, not by name");
}

#[test]
fn a_form_whose_resources_reach_itself_is_refused() {
    let mut b = Builder::new();
    let content = b.stream(vec![]);
    // The form's own resources name the form: its index is the next one the builder hands out
    // after the two dictionaries.
    let at = b.objects.len() + 2;
    let xo = b.dict(vec![("Self", r(at))]);
    let res = b.dict(vec![("XObject", r(xo))]);
    let form = b.stream(vec![("Type", name("XObject")), ("Subtype", name("Form")), ("Resources", r(res))]);
    assert_eq!(form, at);
    let resources = b.xobjects(vec![("Fm0", form)]);
    b.page(vec![("Resources", r(resources)), ("Contents", r(content))]);
    let d = b.build(vec![]);
    let error = count(&d).err().expect("a self-referencing form must be refused");
    assert_named(&error, "resource-graph-cycle");
}

#[test]
fn two_forms_that_reach_each_other_are_refused() {
    let mut b = Builder::new();
    let content = b.stream(vec![]);
    // A at `a`, B at `a + 3`: each names the other.
    let a = b.objects.len() + 2;
    let b_at = a + 3;
    let xo_a = b.dict(vec![("FmB", r(b_at))]);
    let res_a = b.dict(vec![("XObject", r(xo_a))]);
    let form_a = b.stream(vec![("Type", name("XObject")), ("Subtype", name("Form")), ("Resources", r(res_a))]);
    let form_b = b.form_drawing("FmA", form_a);
    assert_eq!((form_a, form_b), (a, b_at));
    let resources = b.xobjects(vec![("FmA", form_a)]);
    b.page(vec![("Resources", r(resources)), ("Contents", r(content))]);
    let d = b.build(vec![]);
    let error = count(&d).err().expect("a mutual pair must be refused");
    assert_named(&error, "resource-graph-cycle");
}

#[test]
fn a_resource_graph_nested_past_the_cap_is_refused() {
    let mut b = Builder::new();
    let content = b.stream(vec![]);
    let mut next = b.form();
    for _ in 0..(MAX_RESOURCE_DEPTH + 4) {
        next = b.form_drawing("Fm", next);
    }
    let resources = b.xobjects(vec![("Fm0", next)]);
    b.page(vec![("Resources", r(resources)), ("Contents", r(content))]);
    let d = b.build(vec![]);
    let error = count(&d).err().expect("an over-deep graph must be refused");
    assert_named(&error, "resource-graph-depth");
}

#[test]
fn a_branching_type_three_ladder_is_bounded_rather_than_exponential() {
    const RUNGS: usize = 24;
    let mut b = Builder::new();
    let content = b.stream(vec![]);
    let empty_procs = b.dict(vec![]);
    let mut next = b.dict(vec![("Type", name("Font")), ("Subtype", name("Type3")), ("CharProcs", r(empty_procs))]);
    for _ in 0..RUNGS {
        let fonts = b.dict(vec![("A", r(next)), ("B", r(next))]);
        let res = b.dict(vec![("Font", r(fonts))]);
        next = b.dict(vec![
            ("Type", name("Font")),
            ("Subtype", name("Type3")),
            ("CharProcs", r(empty_procs)),
            ("Resources", r(res)),
        ]);
    }
    let resources = b.fonts(vec![("T0", next), ("T0b", next)]);
    b.page(vec![("Resources", r(resources)), ("Contents", r(content))]);
    let d = b.build(vec![]);
    let started = std::time::Instant::now();
    let _ = count(&d);
    let elapsed = started.elapsed();
    assert!(elapsed < std::time::Duration::from_secs(5), "a branching Type 3 ladder took {elapsed:?}");
}

#[test]
fn the_walk_honours_the_deadline_per_page() {
    let mut b = Builder::new();
    let content = b.stream(vec![]);
    let form = b.form();
    let resources = b.xobjects(vec![("Fm0", form)]);
    for _ in 0..40 {
        b.page(vec![("Resources", r(resources)), ("Contents", r(content))]);
    }
    let d = b.build(vec![]);
    let mut limits = Limits::defaults();
    limits.max_duration_ms = 1;
    let deadline = Deadline::starting_at(0, &limits);
    let error = count_form_uses(&d, &deadline, &ManualClock::new(10_000)).err().expect("a walk past its deadline must refuse");
    assert!(matches!(&error, Error::LimitExceeded { limit, .. } if limit.contains("max_duration_ms")), "{error:?}");
    let counts = count_form_uses(&d, &deadline, &ManualClock::new(0)).expect("inside its budget");
    assert_eq!(counts.uses(form), 40, "forty pages each draw the form once");
}

/// Two pages sharing one font, each also with a font of its own: `(shared, first's, second's)`.
fn two_pages_sharing_a_font() -> (Document, usize, usize, usize) {
    let mut b = Builder::new();
    let content = b.stream(vec![]);
    let shared = b.simple_font();
    let first = b.simple_font();
    let second = b.simple_font();
    let one = b.fonts(vec![("Shared", shared), ("Mine", first)]);
    let two = b.fonts(vec![("Shared", shared), ("Mine", second)]);
    b.page(vec![("Resources", r(one)), ("Contents", r(content))]);
    b.page(vec![("Resources", r(two)), ("Contents", r(content))]);
    (b.build(vec![]), shared, first, second)
}

#[test]
fn a_font_only_the_redacted_pages_use_may_be_cut() {
    let (d, shared, first, second) = two_pages_sharing_a_font();
    let counts = count(&d).expect("walks");
    assert_eq!(counts.font_pages_of(shared).len(), 2, "the shared font is used by both pages");
    assert_eq!(counts.font_pages_of(first).len(), 1, "page one's own font is used by one page");
    let cuttable = counts.fonts_wholly_within(&pages_set(&[0]));
    assert!(cuttable.contains(&first), "a font only the redacted page uses must be cuttable: {cuttable:?}");
    assert!(!cuttable.contains(&shared), "a font another page uses must not be cuttable");
    assert!(!cuttable.contains(&second), "page two's own font is not used by page one at all: {cuttable:?}");
}

#[test]
fn redacting_every_page_makes_every_font_cuttable() {
    let (d, shared, first, second) = two_pages_sharing_a_font();
    let counts = count(&d).expect("walks");
    let cuttable = counts.fonts_wholly_within(&pages_set(&[0, 1]));
    for font in [shared, first, second] {
        assert!(cuttable.contains(&font), "with every page redacted, {font} has nowhere else to affect: {cuttable:?}");
    }
}

#[test]
fn a_font_reached_only_through_a_form_belongs_to_the_page_that_draws_the_form() {
    let mut b = Builder::new();
    let content = b.stream(vec![]);
    let font = b.simple_font();
    let fonts = b.fonts(vec![("F1", font)]);
    let form = b.stream(vec![("Type", name("XObject")), ("Subtype", name("Form")), ("Resources", r(fonts))]);
    let resources = b.xobjects(vec![("Fm0", form)]);
    b.page(vec![("Resources", r(resources)), ("Contents", r(content))]);
    b.page(vec![("Resources", r(resources)), ("Contents", r(content))]);
    let d = b.build(vec![]);
    let counts = count(&d).expect("walks");
    assert_eq!(counts.font_pages_of(font).len(), 2, "both pages reach the font through the form");
    assert!(!counts.fonts_wholly_within(&pages_set(&[0])).contains(&font));
}

#[test]
fn the_ordinary_shape_retains_its_font_and_says_by_how_much() {
    const PAGES: usize = 5;
    let mut b = Builder::new();
    let content = b.stream(vec![]);
    let font = b.simple_font();
    let fonts = b.fonts(vec![("F1", font)]);
    for _ in 0..PAGES {
        b.page(vec![("Resources", r(fonts)), ("Contents", r(content))]);
    }
    let d = b.build(vec![]);
    let counts = count(&d).expect("walks");
    assert_eq!(counts.font_pages_of(font).len(), PAGES, "every page uses the one font");
    let one_page = pages_set(&[2]);
    assert!(counts.fonts_wholly_within(&one_page).is_empty(), "the font must be retained, not cut");
    assert_eq!(counts.pages_outside(font, &one_page), 4, "the disclosure is about the four pages that keep using this font");
    let every_page: BTreeSet<usize> = (0..PAGES).collect();
    assert!(counts.fonts_wholly_within(&every_page).contains(&font));
}

#[test]
fn a_font_part_shared_with_an_unredacted_page_is_not_cut() {
    let mut b = Builder::new();
    let content = b.stream(vec![]);
    let encoding = b.dict(vec![("Type", name("Encoding"))]);
    let mine = b.dict(vec![("Type", name("Font")), ("Encoding", r(encoding))]);
    let theirs = b.dict(vec![("Type", name("Font")), ("Encoding", r(encoding))]);
    let one = b.fonts(vec![("F1", mine)]);
    let two = b.fonts(vec![("F1", theirs)]);
    b.page(vec![("Resources", r(one)), ("Contents", r(content))]);
    b.page(vec![("Resources", r(two)), ("Contents", r(content))]);
    let d = b.build(vec![]);
    let counts = count(&d).expect("walks");
    assert_eq!(counts.font_pages_of(mine).len(), 1);
    assert_eq!(counts.pages_outside(mine, &pages_set(&[0])), 1, "the shared /Encoding reaches page two");
    assert!(!counts.fonts_wholly_within(&pages_set(&[0])).contains(&mine));
}

#[test]
fn the_walk_counts_every_reference_to_every_page_content_stream() {
    let mut b = Builder::new();
    let five = b.stream(vec![]);
    let six = b.stream(vec![]);
    let array = b.array(vec![r(five), r(five), r(six)]);
    let empty = b.dict(vec![]);
    b.page(vec![("Resources", r(empty)), ("Contents", r(array))]);
    b.page(vec![("Resources", r(empty)), ("Contents", r(five))]);
    let d = b.build(vec![]);
    let counts = count(&d).expect("the fixture walks");
    assert_eq!(counts.content_references(five), 3, "referenced twice by page one's array and once by page two");
    assert_eq!(counts.content_references(six), 1);
    assert_eq!(counts.content_pages_of(five).len(), 2, "three references across two pages");
    assert_eq!(counts.total_references(five), 3);
}

#[test]
fn a_page_with_no_contents_contributes_nothing_rather_than_refusing() {
    let mut b = Builder::new();
    let stream = b.stream(vec![]);
    let empty = b.dict(vec![]);
    b.page(vec![("Resources", r(empty))]);
    b.page(vec![("Resources", r(empty)), ("Contents", r(stream))]);
    let d = b.build(vec![]);
    let counts = count(&d).expect("a page with no /Contents is not an error");
    let all: Vec<usize> = (0..d.objects.len()).map(|x| counts.content_references(x)).collect();
    assert_eq!(all.iter().filter(|&&n| n > 0).count(), 1, "one content stream over the whole document");
    assert_eq!(all.iter().sum::<usize>(), 1);
    assert_eq!(counts.content_references(stream), 1);
}

fn contents_array_of(elements: usize) -> (Document, usize) {
    let mut b = Builder::new();
    let stream = b.stream(vec![]);
    let array = b.array(vec![r(stream); elements]);
    let empty = b.dict(vec![]);
    b.page(vec![("Resources", r(empty)), ("Contents", r(array))]);
    (b.build(vec![]), stream)
}

#[test]
fn a_contents_array_past_the_element_ceiling_is_refused_by_the_walk() {
    let (d, _) = contents_array_of(MAX_CONTENTS_ELEMENTS + 1);
    let error = count(&d).err().expect("past the element ceiling");
    assert!(error.message().contains("contents-too-many"), "the walk must refuse by name, got: {error:?}");
}

#[test]
fn a_contents_array_at_the_element_ceiling_is_walked() {
    let (d, stream) = contents_array_of(MAX_CONTENTS_ELEMENTS);
    let counts = count(&d).expect("exactly at the ceiling");
    assert_eq!(counts.content_references(stream), MAX_CONTENTS_ELEMENTS, "every reference is counted, including the repeats");
}

#[test]
fn a_parent_chain_past_the_climb_is_malformed() {
    let mut b = Builder::new();
    let content = b.stream(vec![]);
    // A node that is its own parent, with no resources: the climb never ends.
    let at = b.objects.len();
    let looping = b.dict(vec![("Type", name("Pages")), ("Parent", r(at))]);
    assert_eq!(looping, at);
    let p = b.page(vec![("Contents", r(content))]);
    let mut d = b.build(vec![]);
    if let Body::Dictionary(es) = &mut d.objects[p].body {
        es[1].value = r(looping);
    }
    let error = count(&d).err().expect("a cyclic page tree must be refused");
    assert_named(&error, "page-tree-depth");
}

#[test]
fn an_annots_entry_that_is_not_a_dictionary_is_refused_by_name() {
    let mut b = Builder::new();
    let content = b.stream(vec![]);
    let empty = b.dict(vec![]);
    let integers = b.array(vec![Value::Integer(0), Value::Integer(1), Value::Integer(2)]);
    b.page(vec![("Resources", r(empty)), ("Contents", r(content)), ("Annots", r(integers))]);
    let d = b.build(vec![]);
    let refused = count(&d).err().expect("an /Annots of integers is refused");
    assert!(format!("{refused:?}").contains("[not-a-dictionary-where-one-belongs]"), "{refused:?}");

    let mut b = Builder::new();
    let content = b.stream(vec![]);
    let empty = b.dict(vec![]);
    let nulls = b.array(vec![Value::Null, Value::Null]);
    b.page(vec![("Resources", r(empty)), ("Contents", r(content)), ("Annots", r(nulls))]);
    let d = b.build(vec![]);
    count(&d).expect("null entries are passed over");
}
